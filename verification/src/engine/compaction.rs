//! Compaction as a walk over the records of the log: what holds of the new
//! segment and the new index after each record, and at the end.

use crate::command::CommandView;
use crate::engine::model::{
    covers, frames, holds_at, holds_only, lemma_data_of, lemma_open, log_wf, puts, puts_at,
    value_at, view_of, with_fresh,
};
use crate::log::{
    apply_entries, ascending, clean, damaged, frame_of, lemma_append, lemma_entries_ascend,
    lemma_entry_is_record, records, replay, writable, Entry, Index, LogPosition, SegmentView,
};
use vstd::prelude::*;

verus! {

/// Whether record `b` of segment `a` lies at `p`.
pub open spec fn entry_at(segs: Seq<SegmentView>, p: LogPosition, a: int, b: int) -> bool {
    &&& 0 <= a < segs.len()
    &&& segs[a].id == p.id
    &&& 0 <= b < records(segs[a].data).len()
    &&& records(segs[a].data)[b].at == p.pos
}

/// Whether the walk, standing before record `i` of segment `j`, has passed
/// the record at `p`.
pub open spec fn passed(segs: Seq<SegmentView>, p: LogPosition, j: int, i: int) -> bool {
    exists|a: int, b: int| #[trigger] entry_at(segs, p, a, b) && (a < j || (a == j && b < i))
}

/// Whether record `b` of the new segment is the `Put` of `key` with `value`
/// that the new index points to.
pub open spec fn rewritten(
    out: Seq<u8>,
    p: LogPosition,
    key: Seq<char>,
    value: Seq<char>,
    b: int,
) -> bool {
    &&& 0 <= b < records(out).len()
    &&& records(out)[b].at == p.pos
    &&& records(out)[b].cmd == CommandView::Put(key, value)
}

/// Whether the record is a `Put` of a live key with the key's current value.
pub open spec fn live_put(segs: Seq<SegmentView>, index: Index, e: Entry) -> bool {
    e.cmd matches CommandView::Put(k, v) && index.contains_key(k) && v == value_at(
        segs,
        index[k],
    )
}

/// What holds while the walk stands before record `i` of segment `j`: the
/// new segment `out`, with id `cid`, holds one `Put` record for each key
/// whose live record the walk has passed, with the key's current value; the
/// new index `fresh` points to these records and is what a replay of the
/// new segment gives.
pub open spec fn compacting(
    segs: Seq<SegmentView>,
    index: Index,
    cid: u64,
    out: Seq<u8>,
    fresh: Index,
    j: int,
    i: int,
) -> bool {
    &&& clean(out)
    &&& !damaged(out)
    &&& out.len() <= usize::MAX
    &&& out == frames(records(out))
    &&& fresh == apply_entries(Map::empty(), cid, records(out))
    &&& fresh.dom().finite()
    &&& records(out).len() == fresh.dom().len()
    &&& forall|b: int|
        0 <= b < records(out).len() ==> live_put(segs, index, #[trigger] records(out)[b])
    &&& forall|k: Seq<char>| #[trigger]
        fresh.contains_key(k) <==> index.contains_key(k) && passed(segs, index[k], j, i)
    &&& forall|k: Seq<char>| #[trigger]
        fresh.contains_key(k) ==> fresh[k].id == cid && exists|b: int| #[trigger]
            rewritten(out, fresh[k], k, value_at(segs, index[k]), b)
}

/// A position names one record.
pub proof fn lemma_entry_unique(
    segs: Seq<SegmentView>,
    p: LogPosition,
    a: int,
    b: int,
    c: int,
    d: int,
)
    requires
        ascending(segs),
        entry_at(segs, p, a, b),
        entry_at(segs, p, c, d),
    ensures
        a == c,
        b == d,
{
    if a < c {
        assert(segs[a].id < segs[c].id);
    } else if c < a {
        assert(segs[c].id < segs[a].id);
    }
    if b < d {
        lemma_entries_ascend(segs[a].data, 0, b, d);
    } else if d < b {
        lemma_entries_ascend(segs[a].data, 0, d, b);
    }
}

/// Passing record `i` of segment `j` adds just the position of that record
/// to the positions passed.
pub proof fn lemma_pass_one(segs: Seq<SegmentView>, p: LogPosition, j: int, i: int)
    requires
        ascending(segs),
        0 <= j < segs.len(),
        0 <= i < records(segs[j].data).len(),
    ensures
        passed(segs, p, j, i + 1) <==> passed(segs, p, j, i) || entry_at(segs, p, j, i),
{
    if passed(segs, p, j, i + 1) {
        let (a, b) = choose|a: int, b: int| #[trigger]
            entry_at(segs, p, a, b) && (a < j || (a == j && b < i + 1));
        if a == j && b == i {
        } else {
            assert(entry_at(segs, p, a, b) && (a < j || (a == j && b < i)));
        }
    }
    if passed(segs, p, j, i) {
        let (a, b) = choose|a: int, b: int| #[trigger]
            entry_at(segs, p, a, b) && (a < j || (a == j && b < i));
        assert(entry_at(segs, p, a, b) && (a < j || (a == j && b < i + 1)));
    }
    if entry_at(segs, p, j, i) {
        assert(entry_at(segs, p, j, i) && (j < j || (j == j && i < i + 1)));
    }
}

/// Before the first record nothing has been rewritten.
pub proof fn lemma_compact_start(segs: Seq<SegmentView>, index: Index, cid: u64)
    ensures
        compacting(segs, index, cid, Seq::empty(), Map::empty(), 0, 0),
{
    let none = Seq::<u8>::empty();
    assert(records(none) =~= Seq::<Entry>::empty());
    assert(Index::empty().dom() =~= Set::<Seq<char>>::empty());
    assert forall|k: Seq<char>| index.contains_key(k) implies !passed(segs, index[k], 0, 0) by {
        if passed(segs, index[k], 0, 0) {
            let (a, b) = choose|a: int, b: int| #[trigger]
                entry_at(segs, index[k], a, b) && (a < 0 || (a == 0 && b < 0));
        }
    }
}

/// The walk rewrites a live record: the record that the index points to for
/// its key.
pub proof fn lemma_compact_keep(
    segs: Seq<SegmentView>,
    index: Index,
    cid: u64,
    out: Seq<u8>,
    fresh: Index,
    j: int,
    i: int,
    key: Seq<char>,
    value: Seq<char>,
)
    requires
        log_wf(segs, index),
        compacting(segs, index, cid, out, fresh, j, i),
        0 <= j < segs.len(),
        0 <= i < records(segs[j].data).len(),
        records(segs[j].data)[i].cmd == CommandView::Put(key, value),
        index.contains_key(key),
        index[key] == (LogPosition { id: segs[j].id, pos: records(segs[j].data)[i].at as usize }),
        writable(CommandView::Put(key, value)),
        out.len() + frame_of(CommandView::Put(key, value)).len() <= usize::MAX,
    ensures
        compacting(
            segs,
            index,
            cid,
            out + frame_of(CommandView::Put(key, value)),
            fresh.insert(key, LogPosition { id: cid, pos: out.len() as usize }),
            j,
            i + 1,
        ),
{
    let c = CommandView::Put(key, value);
    let out2 = out + frame_of(c);
    let np = LogPosition { id: cid, pos: out.len() as usize };
    let fresh2 = fresh.insert(key, np);
    let e = Entry { at: out.len() as int, cmd: c };
    let here = index[key];
    lemma_append(out, c);
    assert(records(out2).drop_last() =~= records(out));
    lemma_entry_is_record(segs[j].data, 0, i);
    assert(entry_at(segs, here, j, i));
    lemma_data_of(segs, j);
    assert(value_at(segs, here) == value);
    assert(!fresh.contains_key(key)) by {
        if passed(segs, here, j, i) {
            let (a, b) = choose|a: int, b: int| #[trigger]
                entry_at(segs, here, a, b) && (a < j || (a == j && b < i));
            lemma_entry_unique(segs, here, a, b, j, i);
        }
    }
    assert(fresh2.dom() =~= fresh.dom().insert(key));
    assert forall|b: int| 0 <= b < records(out2).len() implies live_put(
        segs,
        index,
        #[trigger] records(out2)[b],
    ) by {
        if b < records(out).len() {
            assert(records(out2)[b] == records(out)[b]);
        }
    }
    assert forall|k: Seq<char>| #[trigger]
        fresh2.contains_key(k) <==> index.contains_key(k) && passed(segs, index[k], j, i + 1) by {
        if index.contains_key(k) {
            lemma_pass_one(segs, index[k], j, i);
            if k != key && entry_at(segs, index[k], j, i) {
                let (a, b) = choose|a: int, b: int| holds_at(segs, index[k], k, a, b);
                assert(entry_at(segs, index[k], a, b));
                lemma_entry_unique(segs, index[k], a, b, j, i);
            }
        }
    }
    assert forall|k: Seq<char>| #[trigger] fresh2.contains_key(k) implies fresh2[k].id == cid
        && exists|b: int| #[trigger] rewritten(out2, fresh2[k], k, value_at(segs, index[k]), b) by {
        if k == key {
            assert(rewritten(out2, np, key, value, records(out).len() as int));
        } else {
            let b = choose|b: int| #[trigger]
                rewritten(out, fresh[k], k, value_at(segs, index[k]), b);
            assert(records(out2)[b] == records(out)[b]);
            assert(rewritten(out2, fresh2[k], k, value_at(segs, index[k]), b));
        }
    }
}

/// The walk passes a record that is not live.
pub proof fn lemma_compact_skip(
    segs: Seq<SegmentView>,
    index: Index,
    cid: u64,
    out: Seq<u8>,
    fresh: Index,
    j: int,
    i: int,
)
    requires
        log_wf(segs, index),
        compacting(segs, index, cid, out, fresh, j, i),
        0 <= j < segs.len(),
        0 <= i < records(segs[j].data).len(),
        !(records(segs[j].data)[i].cmd matches CommandView::Put(key, _) && index.contains_key(key)
            && index[key] == (LogPosition {
            id: segs[j].id,
            pos: records(segs[j].data)[i].at as usize,
        })),
    ensures
        compacting(segs, index, cid, out, fresh, j, i + 1),
{
    lemma_entry_is_record(segs[j].data, 0, i);
    assert forall|k: Seq<char>| #[trigger]
        fresh.contains_key(k) <==> index.contains_key(k) && passed(segs, index[k], j, i + 1) by {
        if index.contains_key(k) {
            lemma_pass_one(segs, index[k], j, i);
            if entry_at(segs, index[k], j, i) {
                let (a, b) = choose|a: int, b: int| holds_at(segs, index[k], k, a, b);
                assert(entry_at(segs, index[k], a, b));
                lemma_entry_unique(segs, index[k], a, b, j, i);
            }
        }
    }
}

/// After the last record of a segment the walk stands before the first of
/// the next.
pub proof fn lemma_compact_next(
    segs: Seq<SegmentView>,
    index: Index,
    cid: u64,
    out: Seq<u8>,
    fresh: Index,
    j: int,
)
    requires
        0 <= j < segs.len(),
        compacting(segs, index, cid, out, fresh, j, records(segs[j].data).len() as int),
    ensures
        compacting(segs, index, cid, out, fresh, j + 1, 0),
{
    let n = records(segs[j].data).len() as int;
    assert forall|k: Seq<char>| index.contains_key(k) implies (passed(segs, index[k], j, n)
        <==> passed(segs, index[k], j + 1, 0)) by {
        let p = index[k];
        if passed(segs, p, j, n) {
            let (a, b) = choose|a: int, b: int| #[trigger]
                entry_at(segs, p, a, b) && (a < j || (a == j && b < n));
            assert(entry_at(segs, p, a, b) && (a < j + 1 || (a == j + 1 && b < 0)));
        }
        if passed(segs, p, j + 1, 0) {
            let (a, b) = choose|a: int, b: int| #[trigger]
                entry_at(segs, p, a, b) && (a < j + 1 || (a == j + 1 && b < 0));
            assert(entry_at(segs, p, a, b) && (a < j || (a == j && b < n)));
        }
    }
}

/// The log after compaction: the new segment, and a new empty one to write
/// to.
pub open spec fn compacted_log(cid: u64, out: Seq<u8>) -> Seq<SegmentView> {
    with_fresh(seq![SegmentView { id: cid, data: out }], (cid + 1) as u64)
}

/// After the last segment the new segment and the new index make a store
/// that holds what the old one held, in as many records as there are keys.
pub proof fn lemma_compact_done(
    segs: Seq<SegmentView>,
    index: Index,
    cid: u64,
    out: Seq<u8>,
    fresh: Index,
)
    requires
        log_wf(segs, index),
        compacting(segs, index, cid, out, fresh, segs.len() as int, 0),
        cid < u64::MAX,
    ensures
        log_wf(compacted_log(cid, out), fresh),
        view_of(compacted_log(cid, out), fresh) == view_of(segs, index),
        records(out).len() == view_of(segs, index).dom().len(),
        holds_only(records(out), view_of(segs, index)),
        covers(records(out), view_of(segs, index)),
        out == frames(records(out)),
        clean(out),
{
    let one = seq![SegmentView { id: cid, data: out }];
    let segs2 = compacted_log(cid, out);
    assert(one.drop_last() =~= Seq::<SegmentView>::empty());
    assert(replay(Map::empty(), one) == fresh) by {
        reveal_with_fuel(replay, 2);
    }
    lemma_open(one, (cid + 1) as u64);
    assert forall|k: Seq<char>| index.contains_key(k) implies passed(
        segs,
        index[k],
        segs.len() as int,
        0,
    ) by {
        let (a, b) = choose|a: int, b: int| holds_at(segs, index[k], k, a, b);
        assert(entry_at(segs, index[k], a, b) && (a < segs.len() || (a == segs.len() && b < 0)));
    }
    assert(fresh.dom() =~= index.dom());
    lemma_data_of(segs2, 0);
    assert forall|k: Seq<char>| fresh.contains_key(k) implies value_at(segs2, fresh[k])
        == value_at(segs, index[k]) by {
        let b = choose|b: int| #[trigger] rewritten(out, fresh[k], k, value_at(segs, index[k]), b);
        lemma_entry_is_record(out, 0, b);
    }
    assert(view_of(segs2, fresh) =~= view_of(segs, index));
    assert(view_of(segs, index).dom() =~= index.dom());
    assert forall|k: Seq<char>| #[trigger] view_of(segs, index).contains_key(k) implies puts(
        records(out),
        k,
    ) by {
        let b = choose|b: int| #[trigger] rewritten(out, fresh[k], k, value_at(segs, index[k]), b);
        assert(puts_at(records(out), k, b));
    }
}

} // verus!
