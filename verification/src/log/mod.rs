//! The segment log: positions, the records that a segment's bytes hold, and
//! the index that replaying them gives.

pub mod names;
pub mod reader;
pub mod writer;

use crate::codec::{has_block, lemma_block_round_trip, prefixed};
use crate::command::{encode_command, lemma_command_round_trip, CommandView};
use crate::frame::{record_at, RecordAt};
use vstd::prelude::*;

verus! {

/// Where a record lies: the id of its segment and the offset at which its
/// frame starts.
#[derive(Debug, Clone, Copy, PartialEq, Eq)]
pub struct LogPosition {
    pub id: u64,
    pub pos: usize,
}

impl LogPosition {
    /// The position at offset `pos` of segment `id`.
    pub fn new(id: u64, pos: usize) -> (p: LogPosition)
        ensures
            p == (LogPosition { id, pos }),
    {
        LogPosition { id, pos }
    }

    /// The id of the segment.
    pub fn id(&self) -> (id: u64)
        ensures
            id == self.id,
    {
        self.id
    }

    /// The offset within the segment.
    pub fn pos(&self) -> (pos: usize)
        ensures
            pos == self.pos,
    {
        self.pos
    }
}

/// Short for `LogPosition`.
pub type Position = LogPosition;

/// Short for `LogReader`.
pub type Reader = reader::LogReader;

/// Short for `LogWriter`.
pub type Writer = writer::LogWriter;

/// The index: for each live key the position of the record that holds its
/// current value.
pub type Index = Map<Seq<char>, LogPosition>;

/// A record of a segment and the offset at which its frame starts.
pub struct Entry {
    pub at: int,
    pub cmd: CommandView,
}

/// A segment as plain values: its id and its bytes.
pub struct SegmentView {
    pub id: u64,
    pub data: Seq<u8>,
}

/// Whether the ids of the segments strictly ascend.
pub open spec fn ascending(segs: Seq<SegmentView>) -> bool {
    forall|i: int, j: int|
        0 <= i < j < segs.len() ==> (#[trigger] segs[i]).id < (#[trigger] segs[j]).id
}

/// The frame of a request: its payload as a length-prefixed block.
pub open spec fn frame_of(c: CommandView) -> Seq<u8> {
    prefixed(encode_command(c))
}

/// Whether the request can be written as a frame: its texts and its payload
/// fit their length prefixes.
pub open spec fn writable(c: CommandView) -> bool {
    c.encodable() && encode_command(c).len() <= u64::MAX
}

/// The records of a segment from offset `at` on, in order, up to the first
/// offset at which no record lies.
pub open spec fn records_from(data: Seq<u8>, at: int) -> Seq<Entry>
    decreases data.len() - at,
{
    match record_at(data, at) {
        RecordAt::Record(c, next) => seq![Entry { at, cmd: c }] + records_from(data, next),
        _ => Seq::empty(),
    }
}

/// The first offset from `at` on at which no record lies.
pub open spec fn scan_end(data: Seq<u8>, at: int) -> int
    decreases data.len() - at,
{
    match record_at(data, at) {
        RecordAt::Record(_, next) => scan_end(data, next),
        _ => at,
    }
}

/// All records of a segment.
pub open spec fn records(data: Seq<u8>) -> Seq<Entry> {
    records_from(data, 0)
}

/// Whether the records of the segment end at a whole frame that holds no
/// request. Such a segment cannot be recovered from.
pub open spec fn damaged(data: Seq<u8>) -> bool {
    record_at(data, scan_end(data, 0)) is Corrupt
}

/// Whether the segment is records from its first byte to its last, so that a
/// frame appended to it is its next record.
pub open spec fn clean(data: Seq<u8>) -> bool {
    scan_end(data, 0) == data.len()
}

/// The index after one more record of segment `id`.
pub open spec fn apply_entry(index: Index, id: u64, e: Entry) -> Index {
    match e.cmd {
        CommandView::Put(key, _) => index.insert(key, LogPosition { id, pos: e.at as usize }),
        CommandView::Get(_) => index,
        CommandView::Remove(key) => index.remove(key),
    }
}

/// The index after the given records of segment `id`, first to last.
pub open spec fn apply_entries(index: Index, id: u64, entries: Seq<Entry>) -> Index
    decreases entries.len(),
{
    if entries.len() == 0 {
        index
    } else {
        apply_entry(apply_entries(index, id, entries.drop_last()), id, entries.last())
    }
}

/// The index after replaying the given segments in the order given.
pub open spec fn replay(index: Index, segs: Seq<SegmentView>) -> Index
    decreases segs.len(),
{
    if segs.len() == 0 {
        index
    } else {
        apply_entries(replay(index, segs.drop_last()), segs.last().id, records(segs.last().data))
    }
}

/// A record stays where it is, and what it is, when bytes are appended to the
/// segment.
pub proof fn lemma_record_stable(data: Seq<u8>, more: Seq<u8>, at: int)
    requires
        record_at(data, at) is Record,
    ensures
        record_at(data + more, at) == record_at(data, at),
{
    let whole = data + more;
    assert(whole.subrange(at, at + 8) =~= data.subrange(at, at + 8));
    let end = crate::codec::block_end(data, at);
    assert(whole.subrange(at + 8, end) =~= data.subrange(at + 8, end));
}

/// A frame appended to a segment that is records up to its end is the next
/// record of the segment, and leaves it such a segment.
pub proof fn lemma_append_from(data: Seq<u8>, c: CommandView, at: int)
    requires
        0 <= at <= data.len(),
        scan_end(data, at) == data.len(),
        writable(c),
    ensures
        records_from(data + frame_of(c), at) == records_from(data, at).push(
            Entry { at: data.len() as int, cmd: c },
        ),
        scan_end(data + frame_of(c), at) == data.len() + frame_of(c).len(),
    decreases data.len() - at,
{
    let whole = data + frame_of(c);
    if at == data.len() {
        lemma_block_round_trip(data, encode_command(c), Seq::empty());
        assert(data + frame_of(c) + Seq::<u8>::empty() =~= whole);
        lemma_command_round_trip(c, Seq::empty());
        assert(encode_command(c) + Seq::<u8>::empty() =~= encode_command(c));
        let next = data.len() + frame_of(c).len();
        assert(record_at(whole, at) == RecordAt::Record(c, next as int));
        assert(record_at(whole, next as int) is End);
        assert(records_from(whole, next as int) =~= Seq::<Entry>::empty());
        assert(records_from(data, at) =~= Seq::<Entry>::empty());
        assert(records_from(whole, at) =~= seq![Entry { at, cmd: c }] + Seq::<Entry>::empty());
        assert(records_from(whole, at) =~= Seq::<Entry>::empty().push(Entry { at, cmd: c }));
        assert(scan_end(whole, next as int) == next);
        assert(scan_end(whole, at) == scan_end(whole, next as int));
    } else {
        match record_at(data, at) {
            RecordAt::Record(first, next) => {
                lemma_record_stable(data, frame_of(c), at);
                lemma_append_from(data, c, next);
                assert(scan_end(data, at) == scan_end(data, next));
                assert(scan_end(whole, at) == scan_end(whole, next));
                assert(records_from(whole, at) =~= records_from(data, at).push(
                    Entry { at: data.len() as int, cmd: c },
                ));
            },
            _ => {},
        }
    }
}

/// A frame appended to a clean segment is its last record.
pub proof fn lemma_append(data: Seq<u8>, c: CommandView)
    requires
        clean(data),
        writable(c),
    ensures
        records(data + frame_of(c)) == records(data).push(Entry { at: data.len() as int, cmd: c }),
        clean(data + frame_of(c)),
        !damaged(data + frame_of(c)),
        record_at(data + frame_of(c), data.len() as int) == RecordAt::Record(
            c,
            (data.len() + frame_of(c).len()) as int,
        ),
{
    lemma_append_from(data, c, 0);
    lemma_block_round_trip(data, encode_command(c), Seq::empty());
    assert(data + frame_of(c) + Seq::<u8>::empty() =~= data + frame_of(c));
    lemma_command_round_trip(c, Seq::empty());
    assert(encode_command(c) + Seq::<u8>::empty() =~= encode_command(c));
}

/// Each of a segment's records lies at its offset.
pub proof fn lemma_entry_is_record(data: Seq<u8>, at: int, i: int)
    requires
        0 <= i < records_from(data, at).len(),
    ensures
        record_at(data, records_from(data, at)[i].at) is Record,
        record_at(data, records_from(data, at)[i].at)->Record_0 == records_from(data, at)[i].cmd,
        at <= records_from(data, at)[i].at,
        0 <= records_from(data, at)[i].at < data.len(),
    decreases i,
{
    match record_at(data, at) {
        RecordAt::Record(c, next) => {
            if i > 0 {
                lemma_entry_is_record(data, next, i - 1);
                assert(records_from(data, at)[i] == records_from(data, next)[i - 1]);
            }
        },
        _ => {},
    }
}

/// The records of a segment lie at strictly increasing offsets.
pub proof fn lemma_entries_ascend(data: Seq<u8>, at: int, i: int, j: int)
    requires
        0 <= i < j < records_from(data, at).len(),
    ensures
        records_from(data, at)[i].at < records_from(data, at)[j].at,
    decreases i,
{
    match record_at(data, at) {
        RecordAt::Record(c, next) => {
            assert(records_from(data, at)[j] == records_from(data, next)[j - 1]);
            if i > 0 {
                assert(records_from(data, at)[i] == records_from(data, next)[i - 1]);
                lemma_entries_ascend(data, next, i - 1, j - 1);
            } else {
                lemma_entry_is_record(data, next, j - 1);
            }
        },
        _ => {},
    }
}

/// A frame of which only a part was appended to a segment that is records
/// up to its end adds no record to the segment, and does not damage it:
/// replay ends cleanly where the part begins.
pub proof fn lemma_torn_from(data: Seq<u8>, c: CommandView, n: int, at: int)
    requires
        0 <= at <= data.len(),
        scan_end(data, at) == data.len(),
        writable(c),
        0 <= n < frame_of(c).len(),
    ensures
        records_from(data + frame_of(c).take(n), at) == records_from(data, at),
        scan_end(data + frame_of(c).take(n), at) == data.len(),
        !(record_at(data + frame_of(c).take(n), data.len() as int) is Corrupt),
        !(record_at(data + frame_of(c).take(n), data.len() as int) is Record),
    decreases data.len() - at,
{
    let part = frame_of(c).take(n);
    let torn = data + part;
    let end = data.len() as int;
    assert(!has_block(torn, end)) by {
        if n >= 8 {
            lemma_block_round_trip(data, encode_command(c), Seq::empty());
            let whole = data + frame_of(c) + Seq::<u8>::empty();
            assert(torn.subrange(end, end + 8) =~= whole.subrange(end, end + 8));
        }
    }
    if at == end {
        assert(records_from(data, at) =~= Seq::<Entry>::empty());
        assert(records_from(torn, at) =~= Seq::<Entry>::empty());
    } else {
        match record_at(data, at) {
            RecordAt::Record(first, next) => {
                lemma_record_stable(data, part, at);
                lemma_torn_from(data, c, n, next);
                assert(scan_end(data, at) == scan_end(data, next));
                assert(scan_end(torn, at) == scan_end(torn, next));
            },
            _ => {},
        }
    }
}

/// A segment that is records up to its end, cut off anywhere, holds the
/// first of its records and no others, and can still be replayed: replay of
/// the part ends cleanly where the first record begins that is not whole.
pub proof fn lemma_cut_from(data: Seq<u8>, n: int, at: int)
    requires
        0 <= at <= n <= data.len(),
        scan_end(data, at) == data.len(),
    ensures
        records_from(data.take(n), at).len() <= records_from(data, at).len(),
        forall|i: int|
            0 <= i < records_from(data.take(n), at).len() ==> #[trigger] records_from(
                data.take(n),
                at,
            )[i] == records_from(data, at)[i],
        !(record_at(data.take(n), scan_end(data.take(n), at)) is Corrupt),
    decreases data.len() - at,
{
    let cut = data.take(n);
    if at < data.len() {
        match record_at(data, at) {
            RecordAt::Record(first, next) => {
                if at + 8 <= n {
                    assert(cut.subrange(at, at + 8) =~= data.subrange(at, at + 8));
                }
                if next <= n {
                    assert(cut.subrange(at + 8, next) =~= data.subrange(at + 8, next));
                    assert(record_at(cut, at) == record_at(data, at));
                    lemma_cut_from(data, n, next);
                    assert(scan_end(data, at) == scan_end(data, next));
                    assert forall|i: int|
                        0 <= i < records_from(cut, at).len() implies #[trigger] records_from(
                        cut,
                        at,
                    )[i] == records_from(data, at)[i] by {
                        if i > 0 {
                            assert(records_from(cut, at)[i] == records_from(cut, next)[i - 1]);
                            assert(records_from(data, at)[i] == records_from(data, next)[i - 1]);
                        }
                    }
                } else {
                    assert(!has_block(cut, at));
                    assert(records_from(cut, at) =~= Seq::<Entry>::empty());
                }
            },
            _ => {},
        }
    } else {
        assert(cut =~= data);
    }
}

} // verus!
