//! The store as plain values: its segments, in the order of their ids, and
//! its index. What the engine does is stated and proved over these.

use crate::command::CommandView;
use crate::error::KvsError;
use crate::frame::{record_at, value_read, RecordAt};
use crate::log::{
    apply_entries, apply_entry, ascending, clean, damaged, frame_of, lemma_append,
    lemma_entry_is_record, lemma_record_stable, records, replay, writable, Entry, Index,
    LogPosition, SegmentView,
};
use vstd::prelude::*;

verus! {

/// What the store holds for its users: for each live key its value.
pub type Contents = Map<Seq<char>, Seq<char>>;

/// Whether there is a segment with this id.
pub open spec fn has_segment(segs: Seq<SegmentView>, id: u64) -> bool {
    exists|j: int| 0 <= j < segs.len() && (#[trigger] segs[j]).id == id
}

/// The bytes of the segment with this id.
pub open spec fn data_of(segs: Seq<SegmentView>, id: u64) -> Seq<u8> {
    let j = choose|j: int| 0 <= j < segs.len() && (#[trigger] segs[j]).id == id;
    segs[j].data
}

/// Whether record `i` of segment `j` is a `Put` of `key` that lies at `p`.
pub open spec fn holds_at(
    segs: Seq<SegmentView>,
    p: LogPosition,
    key: Seq<char>,
    j: int,
    i: int,
) -> bool {
    &&& 0 <= j < segs.len()
    &&& segs[j].id == p.id
    &&& 0 <= i < records(segs[j].data).len()
    &&& records(segs[j].data)[i].at == p.pos
    &&& records(segs[j].data)[i].cmd matches CommandView::Put(k, _)
    &&& k == key
}

/// Whether `p` is the position of a `Put` record of `key`.
pub open spec fn located(segs: Seq<SegmentView>, p: LogPosition, key: Seq<char>) -> bool {
    exists|j: int, i: int| holds_at(segs, p, key, j, i)
}

/// The value of the `Put` record at `p`.
pub open spec fn value_at(segs: Seq<SegmentView>, p: LogPosition) -> Seq<char> {
    match record_at(data_of(segs, p.id), p.pos as int) {
        RecordAt::Record(CommandView::Put(_, value), _) => value,
        _ => Seq::empty(),
    }
}

/// What a store with these segments and this index holds.
pub open spec fn view_of(segs: Seq<SegmentView>, index: Index) -> Contents {
    Map::new(|k: Seq<char>| index.contains_key(k), |k: Seq<char>| value_at(segs, index[k]))
}

/// Whether every segment can be replayed and addressed: none ends in a
/// frame without a request, and each is short enough for its offsets.
pub open spec fn sound(segs: Seq<SegmentView>) -> bool {
    forall|j: int|
        0 <= j < segs.len() ==> !damaged((#[trigger] segs[j]).data) && segs[j].data.len()
            <= usize::MAX
}

/// The state that the engine keeps: the segments ascend, the last one is
/// records to its end, and the index is what a replay of the segments gives,
/// each entry the position of a `Put` record of its key.
pub open spec fn log_wf(segs: Seq<SegmentView>, index: Index) -> bool {
    &&& segs.len() > 0
    &&& ascending(segs)
    &&& sound(segs)
    &&& clean(segs.last().data)
    &&& index == replay(Map::empty(), segs)
    &&& forall|k: Seq<char>| index.contains_key(k) ==> located(segs, #[trigger] index[k], k)
    &&& index.dom().finite()
}

/// The segments after `bytes` were appended to the last of them.
pub open spec fn extend_last(segs: Seq<SegmentView>, bytes: Seq<u8>) -> Seq<SegmentView> {
    segs.update(
        segs.len() - 1,
        SegmentView { id: segs.last().id, data: segs.last().data + bytes },
    )
}

/// What recovery from these segments gives.
pub open spec fn recovered(segs: Seq<SegmentView>) -> Contents {
    view_of(segs, replay(Map::empty(), segs))
}

/// The value under `key`, if the store holds one.
pub open spec fn lookup(contents: Contents, key: Seq<char>) -> Option<Seq<char>> {
    if contents.contains_key(key) {
        Some(contents[key])
    } else {
        None
    }
}

/// What reading the value at `p` gives: the value of the `Put` record there,
/// or the reason why there is none to read. A position in a segment that is
/// not there is an invariant violation.
pub open spec fn fetched(segs: Seq<SegmentView>, p: LogPosition) -> Result<Seq<char>, KvsError> {
    if !has_segment(segs, p.id) {
        Err(KvsError::InvariantViolation)
    } else {
        value_read(data_of(segs, p.id), p.pos as int)
    }
}

/// Whether no segment ends in a whole frame that holds no request.
pub open spec fn intact(segs: Seq<SegmentView>) -> bool {
    forall|j: int| 0 <= j < segs.len() ==> !damaged((#[trigger] segs[j]).data)
}

/// What opening a store on these segments comes to: the id of the new
/// segment to write to, which is one more than the last id, or 1 where there
/// is no segment; or the reason why the store cannot be opened. Segments
/// whose ids do not ascend are an invariant violation. A segment that ends in
/// a frame without a request is corruption, and so is a last id that leaves
/// no id for the new segment.
pub open spec fn opening(segs: Seq<SegmentView>) -> Result<u64, KvsError> {
    if !ascending(segs) {
        Err(KvsError::InvariantViolation)
    } else if !intact(segs) || (segs.len() > 0 && segs.last().id == u64::MAX) {
        Err(KvsError::Corruption)
    } else if segs.len() == 0 {
        Ok(1)
    } else {
        Ok((segs.last().id + 1) as u64)
    }
}

/// The count of stale records after one more record went stale, or none
/// did. The count stops at the largest number it can hold.
pub open spec fn bumped(stale: usize, by: bool) -> usize {
    if by && stale < usize::MAX {
        (stale + 1) as usize
    } else {
        stale
    }
}

/// Whether compaction runs after an operation: the stale records are as
/// many as the live keys, and the id of the segment written to leaves two
/// more ids.
pub open spec fn compaction_due(stale: usize, contents: Contents, id: u64) -> bool {
    stale >= contents.dom().len() && id <= u64::MAX - 2
}

/// Whether the record is a `Put` of a key of `contents` with the value that
/// `contents` holds for it.
pub open spec fn holds_entry(e: Entry, contents: Contents) -> bool {
    e.cmd matches CommandView::Put(k, v) && contents.contains_key(k) && contents[k] == v
}

/// Whether every record is a `Put` of a key of `contents` with the value
/// that `contents` holds for it.
pub open spec fn holds_only(entries: Seq<Entry>, contents: Contents) -> bool {
    forall|b: int| 0 <= b < entries.len() ==> holds_entry(#[trigger] entries[b], contents)
}

/// Whether one of the records is a `Put` of `key`.
pub open spec fn puts(entries: Seq<Entry>, key: Seq<char>) -> bool {
    exists|b: int| 0 <= b < entries.len() && puts_at(entries, key, b)
}

/// Whether record `b` is a `Put` of `key`.
pub open spec fn puts_at(entries: Seq<Entry>, key: Seq<char>, b: int) -> bool {
    entries[b].cmd matches CommandView::Put(k, _) && k == key
}

/// Whether there is a `Put` record for every key of `contents`.
pub open spec fn covers(entries: Seq<Entry>, contents: Contents) -> bool {
    forall|k: Seq<char>| #[trigger] contents.contains_key(k) ==> puts(entries, k)
}

/// The frames of the given records, one after the other.
pub open spec fn frames(entries: Seq<Entry>) -> Seq<u8>
    decreases entries.len(),
{
    if entries.len() == 0 {
        Seq::empty()
    } else {
        frames(entries.drop_last()) + frame_of(entries.last().cmd)
    }
}

/// Whether the segments are those that compaction leaves when it starts
/// from a log whose last segment has id `last`: a segment with the next id
/// whose bytes are the frames of its records and nothing else, one `Put`
/// record for each key of `contents` with the value that `contents` holds
/// for it; and behind it a new empty segment to write to.
pub open spec fn compacted(segs: Seq<SegmentView>, last: u64, contents: Contents) -> bool {
    &&& segs.len() == 2
    &&& segs[0].id == last + 1
    &&& segs[1] == (SegmentView { id: (last + 2) as u64, data: Seq::empty() })
    &&& segs[0].data == frames(records(segs[0].data))
    &&& records(segs[0].data).len() == contents.dom().len()
    &&& holds_only(records(segs[0].data), contents)
    &&& covers(records(segs[0].data), contents)
    &&& clean(segs[0].data)
}

/// Among ascending segments an id names one segment.
pub proof fn lemma_data_of(segs: Seq<SegmentView>, j: int)
    requires
        ascending(segs),
        0 <= j < segs.len(),
    ensures
        data_of(segs, segs[j].id) == segs[j].data,
        has_segment(segs, segs[j].id),
{
    let id = segs[j].id;
    let c = choose|c: int| 0 <= c < segs.len() && (#[trigger] segs[c]).id == id;
    assert(0 <= c < segs.len() && segs[c].id == id);
    if c < j {
        assert(segs[c].id < segs[j].id);
    } else if j < c {
        assert(segs[j].id < segs[c].id);
    }
}

/// At the position of a `Put` record of `key` lies that record.
pub proof fn lemma_located(segs: Seq<SegmentView>, p: LogPosition, key: Seq<char>)
    requires
        ascending(segs),
        located(segs, p, key),
    ensures
        has_segment(segs, p.id),
        record_at(data_of(segs, p.id), p.pos as int) matches RecordAt::Record(
            CommandView::Put(k, _),
            _,
        ) && k == key,
{
    let (j, i) = choose|j: int, i: int| holds_at(segs, p, key, j, i);
    lemma_data_of(segs, j);
    lemma_entry_is_record(segs[j].data, 0, i);
}

/// Appending to the last segment changes no other segment, and no record of
/// the last one.
pub proof fn lemma_extend_keeps(
    segs: Seq<SegmentView>,
    c: CommandView,
    p: LogPosition,
    key: Seq<char>,
)
    requires
        segs.len() > 0,
        ascending(segs),
        clean(segs.last().data),
        writable(c),
        located(segs, p, key),
    ensures
        located(extend_last(segs, frame_of(c)), p, key),
        value_at(extend_last(segs, frame_of(c)), p) == value_at(segs, p),
{
    let segs2 = extend_last(segs, frame_of(c));
    let last = segs.len() - 1;
    let (j, i) = choose|j: int, i: int| holds_at(segs, p, key, j, i);
    lemma_append(segs.last().data, c);
    lemma_extend_ascending(segs, frame_of(c));
    lemma_data_of(segs, j);
    lemma_data_of(segs2, j);
    lemma_entry_is_record(segs[j].data, 0, i);
    if j == last {
        assert(records(segs2[j].data)[i] == records(segs[j].data)[i]);
        lemma_record_stable(segs[j].data, frame_of(c), p.pos as int);
    } else {
        assert(segs2[j] == segs[j]);
    }
    assert(holds_at(segs2, p, key, j, i));
}

/// What the store holds after a record was applied to it.
pub open spec fn apply_command(contents: Contents, c: CommandView) -> Contents {
    match c {
        CommandView::Put(key, value) => contents.insert(key, value),
        CommandView::Get(_) => contents,
        CommandView::Remove(key) => contents.remove(key),
    }
}

/// The segments stay ascending when bytes are appended to the last of them.
pub proof fn lemma_extend_ascending(segs: Seq<SegmentView>, bytes: Seq<u8>)
    requires
        segs.len() > 0,
        ascending(segs),
    ensures
        ascending(extend_last(segs, bytes)),
        extend_last(segs, bytes).drop_last() == segs.drop_last(),
{
    let segs2 = extend_last(segs, bytes);
    assert forall|a: int, b: int| 0 <= a < b < segs2.len() implies (#[trigger] segs2[a]).id < (
    #[trigger] segs2[b]).id by {
        assert(segs2[a].id == segs[a].id);
        assert(segs2[b].id == segs[b].id);
    }
    assert(segs2.drop_last() =~= segs.drop_last());
}

/// Writing a record to the end of the log keeps the state that the engine
/// relies on, with the record applied to the index, and changes what the
/// store holds by just that record.
pub proof fn lemma_write(segs: Seq<SegmentView>, index: Index, c: CommandView)
    requires
        log_wf(segs, index),
        writable(c),
        segs.last().data.len() + frame_of(c).len() <= usize::MAX,
    ensures
        log_wf(
            extend_last(segs, frame_of(c)),
            apply_entry(
                index,
                segs.last().id,
                Entry { at: segs.last().data.len() as int, cmd: c },
            ),
        ),
        view_of(
            extend_last(segs, frame_of(c)),
            apply_entry(
                index,
                segs.last().id,
                Entry { at: segs.last().data.len() as int, cmd: c },
            ),
        ) == apply_command(view_of(segs, index), c),
{
    let last = segs.len() - 1;
    let id = segs.last().id;
    let data = segs.last().data;
    let e = Entry { at: data.len() as int, cmd: c };
    let segs2 = extend_last(segs, frame_of(c));
    let index2 = apply_entry(index, id, e);
    let p = LogPosition { id, pos: data.len() as usize };
    lemma_append(data, c);
    lemma_extend_ascending(segs, frame_of(c));
    assert(sound(segs2)) by {
        assert forall|j: int| 0 <= j < segs2.len() implies !damaged((#[trigger] segs2[j]).data)
            && segs2[j].data.len() <= usize::MAX by {
            if j != last {
                assert(segs2[j] == segs[j]);
            }
        }
    }
    assert(index2 == replay(Map::empty(), segs2)) by {
        let r = records(data);
        assert(r.push(e).drop_last() =~= r);
        assert(segs2.last().id == id);
    }
    assert forall|k: Seq<char>| index.contains_key(k) implies located(
        segs2,
        #[trigger] index[k],
        k,
    ) && value_at(segs2, index[k]) == value_at(segs, index[k]) by {
        lemma_extend_keeps(segs, c, index[k], k);
    }
    lemma_data_of(segs2, last);
    match c {
        CommandView::Put(key, value) => {
            assert(records(segs2[last].data)[records(data).len() as int] == e);
            assert(holds_at(segs2, p, key, last, records(data).len() as int));
            assert(value_at(segs2, p) == value);
            assert forall|k: Seq<char>| index2.contains_key(k) implies located(
                segs2,
                #[trigger] index2[k],
                k,
            ) by {
                if k != key {
                    assert(index2[k] == index[k]);
                }
            }
        },
        CommandView::Get(_) => {},
        CommandView::Remove(key) => {
            assert forall|k: Seq<char>| index2.contains_key(k) implies located(
                segs2,
                #[trigger] index2[k],
                k,
            ) by {
                assert(index2[k] == index[k]);
            }
        },
    }
    assert(view_of(segs2, index2) =~= apply_command(view_of(segs, index), c));
}

/// Replaying the first `n` records of segment `j` keeps every index entry
/// at a `Put` record of its key.
pub proof fn lemma_entries_located(x: Index, segs: Seq<SegmentView>, j: int, n: int)
    requires
        sound(segs),
        0 <= j < segs.len(),
        0 <= n <= records(segs[j].data).len(),
        forall|k: Seq<char>| x.contains_key(k) ==> located(segs, #[trigger] x[k], k),
        x.dom().finite(),
    ensures
        forall|k: Seq<char>|
            apply_entries(x, segs[j].id, records(segs[j].data).take(n)).contains_key(k)
                ==> located(
                segs,
                #[trigger] apply_entries(x, segs[j].id, records(segs[j].data).take(n))[k],
                k,
            ),
        apply_entries(x, segs[j].id, records(segs[j].data).take(n)).dom().finite(),
    decreases n,
{
    let r = records(segs[j].data);
    let id = segs[j].id;
    if n > 0 {
        lemma_entries_located(x, segs, j, n - 1);
        let before = apply_entries(x, id, r.take(n - 1));
        let after = apply_entries(x, id, r.take(n));
        assert(r.take(n).drop_last() =~= r.take(n - 1));
        assert(r.take(n).last() == r[n - 1]);
        assert(after == apply_entry(before, id, r[n - 1]));
        lemma_entry_is_record(segs[j].data, 0, n - 1);
        assert forall|k: Seq<char>| after.contains_key(k) implies located(
            segs,
            #[trigger] after[k],
            k,
        ) by {
            match r[n - 1].cmd {
                CommandView::Put(key, _) => {
                    if k == key {
                        assert(holds_at(segs, after[k], k, j, n - 1));
                    } else {
                        assert(after[k] == before[k]);
                    }
                },
                CommandView::Get(_) => {},
                CommandView::Remove(_) => {
                    assert(after[k] == before[k]);
                },
            }
        }
    }
}

/// Replaying the first `m` segments leaves every index entry at a `Put`
/// record of its key.
pub proof fn lemma_replay_located(segs: Seq<SegmentView>, m: int)
    requires
        sound(segs),
        0 <= m <= segs.len(),
    ensures
        forall|k: Seq<char>|
            replay(Map::empty(), segs.take(m)).contains_key(k) ==> located(
                segs,
                #[trigger] replay(Map::empty(), segs.take(m))[k],
                k,
            ),
        replay(Map::empty(), segs.take(m)).dom().finite(),
    decreases m,
{
    if m > 0 {
        lemma_replay_located(segs, m - 1);
        assert(segs.take(m).drop_last() =~= segs.take(m - 1));
        assert(segs.take(m).last() == segs[m - 1]);
        let r = records(segs[m - 1].data);
        assert(r.take(r.len() as int) =~= r);
        lemma_entries_located(replay(Map::empty(), segs.take(m - 1)), segs, m - 1, r.len() as int);
    }
}

/// The segments with a new, empty segment behind them.
pub open spec fn with_fresh(segs: Seq<SegmentView>, id: u64) -> Seq<SegmentView> {
    segs.push(SegmentView { id, data: Seq::empty() })
}

/// Opening a store on sound, ascending segments, with a new empty segment
/// behind them, gives the state that the engine relies on, and a store that
/// holds what recovery from the segments gives.
pub proof fn lemma_open(segs: Seq<SegmentView>, id: u64)
    requires
        ascending(segs),
        sound(segs),
        segs.len() > 0 ==> segs.last().id < id,
    ensures
        log_wf(with_fresh(segs, id), replay(Map::empty(), segs)),
        view_of(with_fresh(segs, id), replay(Map::empty(), segs)) == recovered(segs),
        recovered(with_fresh(segs, id)) == recovered(segs),
{
    let segs2 = with_fresh(segs, id);
    let index = replay(Map::empty(), segs);
    let none = Seq::<u8>::empty();
    assert(segs2.drop_last() =~= segs);
    assert(records(none) =~= Seq::<Entry>::empty());
    assert(ascending(segs2)) by {
        assert forall|a: int, b: int| 0 <= a < b < segs2.len() implies (#[trigger] segs2[a]).id < (
        #[trigger] segs2[b]).id by {
            if b == segs.len() {
                if a < segs.len() - 1 {
                    assert(segs[a].id < segs[segs.len() - 1].id);
                }
            } else {
                assert(segs[a].id < segs[b].id);
            }
        }
    }
    assert(sound(segs2)) by {
        assert forall|j: int| 0 <= j < segs2.len() implies !damaged((#[trigger] segs2[j]).data)
            && segs2[j].data.len() <= usize::MAX by {
            if j < segs.len() {
                assert(segs2[j] == segs[j]);
            }
        }
    }
    assert(segs.take(segs.len() as int) =~= segs);
    lemma_replay_located(segs, segs.len() as int);
    assert forall|k: Seq<char>| index.contains_key(k) implies located(segs2, #[trigger] index[k], k)
        && value_at(segs2, index[k]) == value_at(segs, index[k]) by {
        let p = index[k];
        let (j, i) = choose|j: int, i: int| holds_at(segs, p, k, j, i);
        assert(segs2[j] == segs[j]);
        assert(holds_at(segs2, p, k, j, i));
        lemma_data_of(segs, j);
        lemma_data_of(segs2, j);
    }
    assert(view_of(segs2, index) =~= recovered(segs));
}

} // verus!
