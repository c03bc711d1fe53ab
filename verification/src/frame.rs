//! Records as they lie in a segment: a length prefix, a tag byte, and the
//! string fields that the tag asks for.

use crate::codec::{
    block, block_end, block_started, field, find_block, fits, has_block, prefixed, write_block,
    Extent,
};
use crate::command::{
    decode_command, encode_command, Command, CommandView, TAG_GET, TAG_PUT, TAG_REMOVE,
};
use crate::error::KvsError;
use vstd::prelude::*;
use vstd::slice::slice_subrange;

verus! {

/// What lies at an offset of a segment.
pub enum RecordAt {
    /// Fewer than the eight bytes of a length prefix are left: the end.
    End,
    /// A length prefix that declares more bytes than are left.
    Truncated,
    /// A whole frame whose payload holds no request.
    Corrupt,
    /// A record, and the offset just past its frame.
    Record(CommandView, int),
}

/// What lies at offset `at` of a segment.
pub open spec fn record_at(data: Seq<u8>, at: int) -> RecordAt {
    if !block_started(data, at) {
        RecordAt::End
    } else if !has_block(data, at) {
        RecordAt::Truncated
    } else {
        match decode_command(block(data, at)) {
            Some(c) => RecordAt::Record(c, block_end(data, at)),
            None => RecordAt::Corrupt,
        }
    }
}

/// What a look at an offset of a segment found.
pub enum Scanned {
    /// Fewer than the eight bytes of a length prefix are left: the end.
    End,
    /// A length prefix that declares more bytes than are left.
    Truncated,
    /// A whole frame whose payload holds no request.
    Corrupt,
    /// A record, and the offset just past its frame.
    Record(Command, usize),
}

impl View for Scanned {
    type V = RecordAt;

    open spec fn view(&self) -> RecordAt {
        match self {
            Scanned::End => RecordAt::End,
            Scanned::Truncated => RecordAt::Truncated,
            Scanned::Corrupt => RecordAt::Corrupt,
            Scanned::Record(cmd, next) => RecordAt::Record(cmd@, *next as int),
        }
    }
}

/// Looks at offset `at` of a segment.
pub fn scan_record(data: &[u8], at: usize) -> (r: Scanned)
    ensures
        r@ == record_at(data@, at as int),
{
    match find_block(data, at) {
        Extent::Short => Scanned::End,
        Extent::Partial => Scanned::Truncated,
        Extent::Whole(end) => {
            match Command::try_from_bytes(slice_subrange(data, at + 8, end)) {
                Ok(cmd) => Scanned::Record(cmd, end),
                Err(_) => Scanned::Corrupt,
            }
        },
    }
}

/// What reading a value at offset `at` of a segment gives: the value of the
/// `Put` record there, or the reason why there is none to read. Anything but
/// a `Put` record there, the end of the segment too, means that the index is
/// out of step with the log; a frame that is cut short or holds no request
/// is corruption.
pub open spec fn value_read(data: Seq<u8>, at: int) -> Result<Seq<char>, KvsError> {
    match record_at(data, at) {
        RecordAt::Record(CommandView::Put(_, value), _) => Ok(value),
        RecordAt::Record(_, _) => Err(KvsError::InvariantViolation),
        RecordAt::End => Err(KvsError::InvariantViolation),
        RecordAt::Truncated => Err(KvsError::Corruption),
        RecordAt::Corrupt => Err(KvsError::Corruption),
    }
}

/// Reads the value of the `Put` record at offset `at` of a segment.
pub fn read_value(data: &[u8], at: usize) -> (r: Result<String, KvsError>)
    ensures
        match value_read(data@, at as int) {
            Ok(value) => r matches Ok(s) && s@ == value,
            Err(e) => r matches Err(e2) && e2 == e,
        },
{
    match scan_record(data, at) {
        Scanned::Record(Command::Put(_, value), _) => Ok(value),
        Scanned::Record(_, _) => Err(KvsError::InvariantViolation),
        Scanned::End => Err(KvsError::InvariantViolation),
        Scanned::Truncated => Err(KvsError::Corruption),
        Scanned::Corrupt => Err(KvsError::Corruption),
    }
}

/// One record of the log in raw form: its tag and its two texts. The value
/// is empty where the tag asks for none.
#[derive(Debug, Clone, PartialEq, Eq)]
pub struct Frame {
    pub typ: u8,
    pub key: String,
    pub value: String,
}

impl Frame {
    /// The payload of the record: the tag, the key, and under the tag of
    /// `Put` the value.
    pub open spec fn payload(&self) -> Seq<u8> {
        if self.typ == TAG_PUT {
            seq![self.typ] + field(self.key@) + field(self.value@)
        } else {
            seq![self.typ] + field(self.key@)
        }
    }

    /// The request that the record stands for, if its tag is a known one.
    pub open spec fn command(&self) -> Option<CommandView> {
        if self.typ == TAG_PUT {
            Some(CommandView::Put(self.key@, self.value@))
        } else if self.typ == TAG_GET {
            Some(CommandView::Get(self.key@))
        } else if self.typ == TAG_REMOVE {
            Some(CommandView::Remove(self.key@))
        } else {
            None
        }
    }

    /// A record that stores `value` under `key`.
    pub fn set(key: String, value: String) -> (frame: Frame)
        ensures
            frame.typ == TAG_PUT,
            frame.key == key,
            frame.value == value,
    {
        Frame { typ: TAG_PUT, key, value }
    }

    /// A record that asks for `key`. The log never holds one.
    pub fn get(key: String) -> (frame: Frame)
        ensures
            frame.typ == TAG_GET,
            frame.key == key,
            frame.value@ == Seq::<char>::empty(),
    {
        Frame { typ: TAG_GET, key, value: String::new() }
    }

    /// A record that removes `key`.
    pub fn remove(key: String) -> (frame: Frame)
        ensures
            frame.typ == TAG_REMOVE,
            frame.key == key,
            frame.value@ == Seq::<char>::empty(),
    {
        Frame { typ: TAG_REMOVE, key, value: String::new() }
    }

    /// The record of a request.
    pub fn from_command(cmd: Command) -> (frame: Frame)
        ensures
            frame.command() == Some(cmd@),
            frame.payload() == encode_command(cmd@),
    {
        match cmd {
            Command::Put(key, value) => Frame::set(key, value),
            Command::Get(key) => Frame::get(key),
            Command::Remove(key) => Frame::remove(key),
        }
    }

    /// The request that the record stands for; `None` under an unknown tag.
    pub fn into_command(self) -> (r: Option<Command>)
        ensures
            match self.command() {
                Some(c) => r matches Some(cmd) && cmd@ == c,
                None => r is None,
            },
    {
        if self.typ == TAG_PUT {
            Some(Command::Put(self.key, self.value))
        } else if self.typ == TAG_GET {
            Some(Command::Get(self.key))
        } else if self.typ == TAG_REMOVE {
            Some(Command::Remove(self.key))
        } else {
            None
        }
    }

    /// Appends the frame of the record to `out`: the length prefix, then the
    /// payload. Returns the number of bytes appended.
    pub fn write(&self, out: &mut Vec<u8>) -> (n: usize)
        ensures
            final(out)@ == old(out)@ + prefixed(self.payload()),
            n == prefixed(self.payload()).len(),
            self.payload().len() <= u64::MAX,
            fits(self.key@),
            self.typ == TAG_PUT ==> fits(self.value@),
    {
        let mut payload: Vec<u8> = Vec::new();
        payload.push(self.typ);
        crate::codec::write_str(&mut payload, self.key.as_str());
        if self.typ == TAG_PUT {
            crate::codec::write_str(&mut payload, self.value.as_str());
        }
        let before = out.len();
        write_block(out, payload.as_slice());
        out.len() - before
    }

    /// Reads the record whose frame starts at `at`, with the length of the
    /// frame. At the end of the data it finds none; a frame that is cut short
    /// or holds no record is reported as corruption.
    pub fn read(data: &[u8], at: usize) -> (r: Result<Option<(Frame, usize)>, KvsError>)
        ensures
            match record_at(data@, at as int) {
                RecordAt::End => r matches Ok(None),
                RecordAt::Truncated => r matches Err(KvsError::Corruption),
                RecordAt::Corrupt => r matches Err(KvsError::Corruption),
                RecordAt::Record(c, next) => r matches Ok(Some((frame, n))) && frame.command()
                    == Some(c) && n == next - at,
            },
    {
        match scan_record(data, at) {
            Scanned::End => Ok(None),
            Scanned::Truncated => Err(KvsError::Corruption),
            Scanned::Corrupt => Err(KvsError::Corruption),
            Scanned::Record(cmd, next) => Ok(Some((Frame::from_command(cmd), next - at))),
        }
    }
}

/// Reads the records of a segment one after the other.
pub struct FrameReader {
    pos: usize,
    data: Vec<u8>,
}

impl FrameReader {
    /// The bytes that are read.
    pub closed spec fn data(&self) -> Seq<u8> {
        self.data@
    }

    /// The offset of the record that comes next.
    pub closed spec fn pos(&self) -> int {
        self.pos as int
    }

    /// A reader at the start of the given bytes.
    pub fn new(data: Vec<u8>) -> (r: FrameReader)
        ensures
            r.data() == data@,
            r.pos() == 0,
    {
        FrameReader { pos: 0, data }
    }

    /// The next record with the offset at which its frame starts; `None`
    /// where no record comes next, at the end of the bytes or at a frame that
    /// is cut short or holds no record.
    pub fn next(&mut self) -> (r: Option<(Frame, usize)>)
        ensures
            final(self).data() == old(self).data(),
            match record_at(old(self).data(), old(self).pos()) {
                RecordAt::Record(c, next) => {
                    &&& r matches Some((frame, at))
                    &&& frame.command() == Some(c)
                    &&& at == old(self).pos()
                    &&& final(self).pos() == next
                },
                _ => r is None && final(self).pos() == old(self).pos(),
            },
    {
        match scan_record(self.data.as_slice(), self.pos) {
            Scanned::Record(cmd, next) => {
                let at = self.pos;
                self.pos = next;
                Some((Frame::from_command(cmd), at))
            },
            _ => None,
        }
    }
}

} // verus!
