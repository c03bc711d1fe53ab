//! The writer of one segment.

use crate::command::Command;
use crate::frame::Frame;
use crate::log::reader::LogReader;
use crate::log::{frame_of, writable, LogPosition, SegmentView};
use vstd::prelude::*;

verus! {

/// The writer of the segment that grows. It holds the bytes of the segment
/// and, apart, those appended since the last flush, which are still to be
/// made durable.
pub struct LogWriter {
    id: u64,
    data: Vec<u8>,
    pending: Vec<u8>,
}

impl View for LogWriter {
    type V = SegmentView;

    closed spec fn view(&self) -> SegmentView {
        SegmentView { id: self.id, data: self.data@ }
    }
}

impl LogWriter {
    /// The bytes appended since the last flush.
    pub closed spec fn pending(&self) -> Seq<u8> {
        self.pending@
    }

    /// The writer of a new, empty segment.
    pub fn new(id: u64) -> (w: LogWriter)
        ensures
            w@ == (SegmentView { id, data: Seq::empty() }),
            w.pending() == Seq::<u8>::empty(),
    {
        LogWriter { id, data: Vec::new(), pending: Vec::new() }
    }

    /// The id of the segment.
    pub fn id(&self) -> (id: u64)
        ensures
            id == self@.id,
    {
        self.id
    }

    /// The offset at which the next record will start.
    pub fn pos(&self) -> (pos: usize)
        ensures
            pos == self@.data.len(),
    {
        self.data.len()
    }

    /// The bytes of the segment.
    pub fn bytes(&self) -> (data: &[u8])
        ensures
            data@ == self@.data,
    {
        self.data.as_slice()
    }

    /// Appends the frame of `cmd` and returns the position at which it starts.
    pub fn write(&mut self, cmd: Command) -> (p: LogPosition)
        ensures
            final(self)@.id == old(self)@.id,
            final(self)@.data == old(self)@.data + frame_of(cmd@),
            final(self).pending() == old(self).pending() + frame_of(cmd@),
            p == (LogPosition { id: old(self)@.id, pos: old(self)@.data.len() as usize }),
            writable(cmd@),
            final(self)@.data.len() <= usize::MAX,
    {
        let p = LogPosition::new(self.id, self.data.len());
        let frame = Frame::from_command(cmd);
        let mut bytes: Vec<u8> = Vec::new();
        frame.write(&mut bytes);
        assert(bytes@ =~= frame_of(cmd@));
        let ghost data0 = self.data@;
        let ghost pending0 = self.pending@;
        self.data.extend_from_slice(bytes.as_slice());
        self.pending.extend_from_slice(bytes.as_slice());
        assert(self.data@ =~= data0 + bytes@);
        assert(self.pending@ =~= pending0 + bytes@);
        assert(self.data@.len() == self.data.len());
        p
    }

    /// Hands out the bytes appended since the last flush. They are what has
    /// to reach the segment's file, and be forced to disk, before the writes
    /// count as done.
    pub fn flush(&mut self) -> (bytes: Vec<u8>)
        ensures
            bytes@ == old(self).pending(),
            final(self)@ == old(self)@,
            final(self).pending() == Seq::<u8>::empty(),
    {
        let mut bytes: Vec<u8> = Vec::new();
        std::mem::swap(&mut self.pending, &mut bytes);
        bytes
    }

    /// Appends the frame of `cmd` and flushes.
    pub fn write_and_flush(&mut self, cmd: Command) -> (r: (LogPosition, Vec<u8>))
        ensures
            final(self)@.id == old(self)@.id,
            final(self)@.data == old(self)@.data + frame_of(cmd@),
            final(self).pending() == Seq::<u8>::empty(),
            r.0 == (LogPosition { id: old(self)@.id, pos: old(self)@.data.len() as usize }),
            r.1@ == old(self).pending() + frame_of(cmd@),
            writable(cmd@),
            final(self)@.data.len() <= usize::MAX,
    {
        let p = self.write(cmd);
        let bytes = self.flush();
        (p, bytes)
    }

    /// Ends the writing: the reader of the same segment. What was not
    /// flushed is dropped from the pending bytes, not from the segment.
    pub fn seal(self) -> (r: LogReader)
        ensures
            r@ == self@,
            r.cursor() == 0,
    {
        LogReader::new(self.id, self.data)
    }
}

} // verus!
