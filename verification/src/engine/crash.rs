//! What a crash can leave of the segment files, and that a store opened on
//! it holds what was held when the last operation was done.
//!
//! The effects of an operation reach the files one after the other, and an
//! append may reach them in part. So a crash leaves the log that was there
//! before the operation with a part of a frame behind it; or, in compaction,
//! the old segments with a part of the new segment behind them, or some of
//! the old segments, the first ones missing, with the whole new segment.

use crate::command::CommandView;
use crate::engine::model::{
    apply_command, covers, extend_last, holds_at, holds_entry, holds_only, intact,
    lemma_data_of, lemma_extend_ascending, lemma_write, located, log_wf, puts, puts_at,
    recovered, value_at, view_of, Contents,
};
use crate::log::{
    apply_entries, apply_entry, ascending, clean, damaged, frame_of, lemma_cut_from,
    lemma_entry_is_record, lemma_record_stable, lemma_torn_from, records, replay, writable,
    Entry, Index, LogPosition, SegmentView,
};
use vstd::prelude::*;

verus! {

/// Whether the segments are a log as the engine keeps it: they ascend, none
/// is damaged, the last is records to its end, and every entry of the index
/// that their replay gives points to a `Put` record of its key.
pub open spec fn well_kept(segs: Seq<SegmentView>) -> bool {
    log_wf(segs, replay(Map::empty(), segs))
}

/// Whether every entry of `a` is an entry of `b`.
pub open spec fn within(a: Index, b: Index) -> bool {
    forall|k: Seq<char>| #[trigger] a.contains_key(k) ==> b.contains_key(k) && b[k] == a[k]
}

/// The value at a position in the last segment does not change when bytes
/// are appended to that segment, nor does the value at a position in any
/// other segment.
proof fn lemma_value_stable(segs: Seq<SegmentView>, more: Seq<u8>, p: LogPosition, key: Seq<char>)
    requires
        segs.len() > 0,
        ascending(segs),
        located(segs, p, key),
    ensures
        value_at(extend_last(segs, more), p) == value_at(segs, p),
{
    let segs2 = extend_last(segs, more);
    let last = segs.len() - 1;
    let (j, i) = choose|j: int, i: int| holds_at(segs, p, key, j, i);
    lemma_extend_ascending(segs, more);
    lemma_data_of(segs, j);
    lemma_data_of(segs2, j);
    lemma_entry_is_record(segs[j].data, 0, i);
    if j == last {
        lemma_record_stable(segs[j].data, more, p.pos as int);
    } else {
        assert(segs2[j] == segs[j]);
    }
}

/// The value at a position in a segment does not change when a segment
/// with a larger id is put behind the segments.
proof fn lemma_value_kept(segs: Seq<SegmentView>, more: SegmentView, p: LogPosition, key: Seq<char>)
    requires
        ascending(segs.push(more)),
        located(segs, p, key),
    ensures
        value_at(segs.push(more), p) == value_at(segs, p),
{
    let segs2 = segs.push(more);
    let (j, i) = choose|j: int, i: int| holds_at(segs, p, key, j, i);
    assert(segs2[j] == segs[j]);
    assert(ascending(segs)) by {
        assert forall|a: int, b: int| 0 <= a < b < segs.len() implies (#[trigger] segs[a]).id < (
        #[trigger] segs[b]).id by {
            assert(segs2[a].id < segs2[b].id);
        }
    }
    lemma_data_of(segs, j);
    lemma_data_of(segs2, j);
}

/// A record written to the end of a log as the engine keeps it leaves such
/// a log, from which what was held before, with the record applied, is
/// recovered.
pub proof fn law_write(segs: Seq<SegmentView>, c: CommandView)
    requires
        well_kept(segs),
        writable(c),
        segs.last().data.len() + frame_of(c).len() <= usize::MAX,
    ensures
        well_kept(extend_last(segs, frame_of(c))),
        recovered(extend_last(segs, frame_of(c))) == apply_command(recovered(segs), c),
{
    lemma_write(segs, replay(Map::empty(), segs), c);
}

/// A crash in the middle of a write loses the write and nothing else. Where
/// only a part of the frame of a record reached the last segment, a store
/// opened on the segments holds what was held before the write.
pub proof fn law_torn_write(segs: Seq<SegmentView>, c: CommandView, n: int)
    requires
        well_kept(segs),
        writable(c),
        0 <= n < frame_of(c).len(),
    ensures
        ascending(extend_last(segs, frame_of(c).take(n))),
        intact(extend_last(segs, frame_of(c).take(n))),
        recovered(extend_last(segs, frame_of(c).take(n))) == recovered(segs),
{
    let part = frame_of(c).take(n);
    let torn = extend_last(segs, part);
    let last = segs.len() - 1;
    let data = segs.last().data;
    let index = replay(Map::empty(), segs);
    lemma_extend_ascending(segs, part);
    lemma_torn_from(data, c, n, 0);
    assert(intact(torn)) by {
        assert forall|j: int| 0 <= j < torn.len() implies !damaged((#[trigger] torn[j]).data) by {
            if j != last {
                assert(torn[j] == segs[j]);
            }
        }
    }
    assert(replay(Map::empty(), torn) == index);
    assert forall|k: Seq<char>| index.contains_key(k) implies value_at(torn, #[trigger] index[k])
        == value_at(segs, index[k]) by {
        lemma_value_stable(segs, part, index[k], k);
    }
    assert(view_of(torn, index) =~= view_of(segs, index));
}

/// Replaying records that are `Put`s of live keys with their current values
/// keeps what the store holds, each key pointing to the old record or to
/// the new one.
proof fn lemma_rewrite_part(
    segs: Seq<SegmentView>,
    index: Index,
    more: SegmentView,
    m: int,
)
    requires
        log_wf(segs, index),
        segs.last().id < more.id,
        more.data.len() <= usize::MAX,
        holds_only(records(more.data), view_of(segs, index)),
        0 <= m <= records(more.data).len(),
    ensures
        forall|k: Seq<char>|
            index.contains_key(k) <==> #[trigger] apply_entries(
                index,
                more.id,
                records(more.data).take(m),
            ).contains_key(k),
        forall|k: Seq<char>|
            index.contains_key(k) ==> value_at(
                segs.push(more),
                #[trigger] apply_entries(index, more.id, records(more.data).take(m))[k],
            ) == value_at(segs, index[k]),
    decreases m,
{
    let r = records(more.data);
    let st = segs.push(more);
    let now = apply_entries(index, more.id, r.take(m));
    assert(ascending(st)) by {
        assert forall|a: int, b: int| 0 <= a < b < st.len() implies (#[trigger] st[a]).id < (
        #[trigger] st[b]).id by {
            if b == segs.len() {
                if a < segs.len() - 1 {
                    assert(segs[a].id < segs[segs.len() - 1].id);
                }
            } else {
                assert(segs[a].id < segs[b].id);
            }
        }
    }
    if m == 0 {
        assert(r.take(0) =~= Seq::<Entry>::empty());
        assert forall|k: Seq<char>| index.contains_key(k) implies value_at(st, #[trigger] now[k])
            == value_at(segs, index[k]) by {
            lemma_value_kept(segs, more, index[k], k);
        }
    } else {
        lemma_rewrite_part(segs, index, more, m - 1);
        let before = apply_entries(index, more.id, r.take(m - 1));
        let e = r[m - 1];
        assert(r.take(m).drop_last() =~= r.take(m - 1));
        assert(r.take(m).last() == e);
        assert(now == apply_entry(before, more.id, e));
        assert(holds_entry(e, view_of(segs, index)));
        lemma_entry_is_record(more.data, 0, m - 1);
        lemma_data_of(st, segs.len() as int);
        match e.cmd {
            CommandView::Put(key, value) => {
                assert forall|k: Seq<char>| index.contains_key(k) implies value_at(
                    st,
                    #[trigger] now[k],
                ) == value_at(segs, index[k]) by {
                    if k != key {
                        assert(now[k] == before[k]);
                    }
                }
            },
            _ => {},
        }
    }
}

/// A crash while compaction writes the new segment changes nothing. Where
/// only a part of the new segment reached its file, a store opened on the
/// old segments and that part holds what was held before. The new segment
/// is nothing but `Put` records of live keys with their current values.
pub proof fn law_crash_while_rewriting(segs: Seq<SegmentView>, out: Seq<u8>, n: int)
    requires
        well_kept(segs),
        segs.last().id < u64::MAX,
        clean(out),
        out.len() <= usize::MAX,
        holds_only(records(out), recovered(segs)),
        0 <= n <= out.len(),
    ensures
        ascending(segs.push(SegmentView { id: (segs.last().id + 1) as u64, data: out.take(n) })),
        intact(segs.push(SegmentView { id: (segs.last().id + 1) as u64, data: out.take(n) })),
        recovered(segs.push(SegmentView { id: (segs.last().id + 1) as u64, data: out.take(n) }))
            == recovered(segs),
{
    let cut = out.take(n);
    let more = SegmentView { id: (segs.last().id + 1) as u64, data: cut };
    let st = segs.push(more);
    let index = replay(Map::empty(), segs);
    let contents = view_of(segs, index);
    lemma_cut_from(out, n, 0);
    assert(holds_only(records(cut), contents)) by {
        assert forall|b: int| 0 <= b < records(cut).len() implies holds_entry(
            #[trigger] records(cut)[b],
            contents,
        ) by {
            assert(records(cut)[b] == records(out)[b]);
            assert(holds_entry(records(out)[b], contents));
        }
    }
    assert(st.drop_last() =~= segs);
    assert(records(cut).take(records(cut).len() as int) =~= records(cut));
    lemma_rewrite_part(segs, index, more, records(cut).len() as int);
    assert(ascending(st)) by {
        assert forall|a: int, b: int| 0 <= a < b < st.len() implies (#[trigger] st[a]).id < (
        #[trigger] st[b]).id by {
            if b == segs.len() {
                if a < segs.len() - 1 {
                    assert(segs[a].id < segs[segs.len() - 1].id);
                }
            } else {
                assert(segs[a].id < segs[b].id);
            }
        }
    }
    assert(intact(st)) by {
        assert forall|j: int| 0 <= j < st.len() implies !damaged((#[trigger] st[j]).data) by {
            if j < segs.len() {
                assert(st[j] == segs[j]);
            }
        }
    }
    assert(view_of(st, replay(Map::empty(), st)) =~= contents);
}

/// Replaying the same records into a part of an index gives a part of what
/// replaying them into the whole index gives.
proof fn lemma_entries_within(a: Index, b: Index, id: u64, entries: Seq<Entry>)
    requires
        within(a, b),
    ensures
        within(apply_entries(a, id, entries), apply_entries(b, id, entries)),
    decreases entries.len(),
{
    if entries.len() > 0 {
        lemma_entries_within(a, b, id, entries.drop_last());
        let a1 = apply_entries(a, id, entries.drop_last());
        let b1 = apply_entries(b, id, entries.drop_last());
        let a2 = apply_entries(a, id, entries);
        let b2 = apply_entries(b, id, entries);
        assert forall|k: Seq<char>| #[trigger] a2.contains_key(k) implies b2.contains_key(k)
            && b2[k] == a2[k] by {
            match entries.last().cmd {
                CommandView::Put(key, _) => {
                    if k != key {
                        assert(a1.contains_key(k));
                    }
                },
                CommandView::Get(_) => {
                    assert(a1.contains_key(k));
                },
                CommandView::Remove(key) => {
                    assert(a1.contains_key(k));
                },
            }
        }
    }
}

/// Replaying the same segments into a part of an index gives a part of what
/// replaying them into the whole index gives.
proof fn lemma_replay_within(a: Index, b: Index, segs: Seq<SegmentView>)
    requires
        within(a, b),
    ensures
        within(replay(a, segs), replay(b, segs)),
    decreases segs.len(),
{
    if segs.len() > 0 {
        lemma_replay_within(a, b, segs.drop_last());
        lemma_entries_within(
            replay(a, segs.drop_last()),
            replay(b, segs.drop_last()),
            segs.last().id,
            records(segs.last().data),
        );
    }
}

/// Replaying segments is replaying the first of them and then the rest.
proof fn lemma_replay_split(init: Index, segs: Seq<SegmentView>, j: int)
    requires
        0 <= j <= segs.len(),
    ensures
        replay(init, segs) == replay(replay(init, segs.take(j)), segs.skip(j)),
    decreases segs.len(),
{
    if j == segs.len() {
        assert(segs.take(j) =~= segs);
        assert(segs.skip(j) =~= Seq::<SegmentView>::empty());
    } else {
        let head = segs.drop_last();
        lemma_replay_split(init, head, j);
        assert(head.take(j) =~= segs.take(j));
        assert(head.skip(j) =~= segs.skip(j).drop_last());
        assert(segs.skip(j).last() == segs.last());
    }
}

/// After a replay of `Put` records each key that they put points to one of
/// them, whatever the index held before; and the other keys are as before.
proof fn lemma_puts_decide(x: Index, id: u64, entries: Seq<Entry>, contents: Contents)
    requires
        holds_only(entries, contents),
    ensures
        forall|k: Seq<char>|
            puts(entries, k) ==> #[trigger] apply_entries(x, id, entries).contains_key(k)
                && apply_entries(x, id, entries)[k] == apply_entries(Map::empty(), id, entries)[k]
                && apply_entries(Map::empty(), id, entries).contains_key(k),
        forall|k: Seq<char>|
            !puts(entries, k) ==> (#[trigger] apply_entries(x, id, entries).contains_key(k)
                <==> x.contains_key(k)),
        forall|k: Seq<char>| #[trigger]
            apply_entries(Map::empty(), id, entries).contains_key(k) ==> exists|b: int|
                0 <= b < entries.len() && puts_at(entries, k, b) && apply_entries(
                    Map::empty(),
                    id,
                    entries,
                )[k] == (LogPosition { id, pos: entries[b].at as usize }),
    decreases entries.len(),
{
    let none = Index::empty();
    if entries.len() > 0 {
        let head = entries.drop_last();
        let e = entries.last();
        let n = entries.len() - 1;
        assert(holds_only(head, contents)) by {
            assert forall|b: int| 0 <= b < head.len() implies holds_entry(
                #[trigger] head[b],
                contents,
            ) by {
                assert(head[b] == entries[b]);
                assert(holds_entry(entries[b], contents));
            }
        }
        lemma_puts_decide(x, id, head, contents);
        assert(holds_entry(entries[n], contents));
        let x1 = apply_entries(x, id, head);
        let n1 = apply_entries(none, id, head);
        let x2 = apply_entries(x, id, entries);
        let n2 = apply_entries(none, id, entries);
        match e.cmd {
            CommandView::Put(key, _) => {
                assert(puts_at(entries, key, n));
                assert forall|k: Seq<char>| puts(entries, k) <==> puts(head, k) || k == key by {
                    if puts(entries, k) {
                        let b = choose|b: int| 0 <= b < entries.len() && puts_at(entries, k, b);
                        if b < n {
                            assert(puts_at(head, k, b));
                        }
                    }
                    if puts(head, k) {
                        let b = choose|b: int| 0 <= b < head.len() && puts_at(head, k, b);
                        assert(puts_at(entries, k, b));
                    }
                }
                assert forall|k: Seq<char>| #[trigger] n2.contains_key(k) implies exists|b: int|
                    0 <= b < entries.len() && puts_at(entries, k, b) && n2[k] == (LogPosition {
                        id,
                        pos: entries[b].at as usize,
                    }) by {
                    if k == key {
                        assert(puts_at(entries, k, n));
                    } else {
                        assert(n1.contains_key(k));
                        let b = choose|b: int|
                            0 <= b < head.len() && puts_at(head, k, b) && n1[k] == (LogPosition {
                                id,
                                pos: head[b].at as usize,
                            });
                        assert(puts_at(entries, k, b));
                    }
                }
            },
            _ => {},
        }
    } else {
        assert forall|k: Seq<char>| !puts(entries, k) by {}
    }
}

/// A crash while compaction deletes the old segments changes nothing. The
/// old segments are deleted in the order of their ids, after the new segment
/// was written. Where the first of them are gone, a store opened on the rest
/// and the new segment holds what was held before. The new segment is
/// nothing but `Put` records of the live keys with their current values, at
/// least one for each.
pub proof fn law_crash_while_deleting(segs: Seq<SegmentView>, out: Seq<u8>, j: int)
    requires
        well_kept(segs),
        segs.last().id < u64::MAX,
        clean(out),
        out.len() <= usize::MAX,
        holds_only(records(out), recovered(segs)),
        covers(records(out), recovered(segs)),
        0 <= j <= segs.len(),
    ensures
        ascending(
            segs.skip(j).push(SegmentView { id: (segs.last().id + 1) as u64, data: out }),
        ),
        intact(segs.skip(j).push(SegmentView { id: (segs.last().id + 1) as u64, data: out })),
        recovered(segs.skip(j).push(SegmentView { id: (segs.last().id + 1) as u64, data: out }))
            == recovered(segs),
{
    let cid = (segs.last().id + 1) as u64;
    let more = SegmentView { id: cid, data: out };
    let rest = segs.skip(j);
    let st = rest.push(more);
    let none = Index::empty();
    let index = replay(none, segs);
    let contents = view_of(segs, index);
    let r = records(out);
    let x = replay(none, rest);
    let fresh = apply_entries(none, cid, r);
    assert(ascending(st)) by {
        assert forall|a: int, b: int| 0 <= a < b < st.len() implies (#[trigger] st[a]).id < (
        #[trigger] st[b]).id by {
            assert(rest.len() == segs.len() - j);
            if b == rest.len() {
                assert(st[a] == segs[a + j]);
                if a + j < segs.len() - 1 {
                    assert(segs[a + j].id < segs[segs.len() - 1].id);
                }
            } else {
                assert(st[a] == segs[a + j]);
                assert(st[b] == segs[b + j]);
                assert(segs[a + j].id < segs[b + j].id);
            }
        }
    }
    assert(intact(st)) by {
        assert forall|a: int| 0 <= a < st.len() implies !damaged((#[trigger] st[a]).data) by {
            if a < rest.len() {
                assert(st[a] == segs[a + j]);
            }
        }
    }
    lemma_replay_split(none, segs, j);
    lemma_replay_within(none, replay(none, segs.take(j)), rest);
    assert(within(x, index));
    assert(st.drop_last() =~= rest);
    assert(replay(none, st) == apply_entries(x, cid, r));
    lemma_puts_decide(x, cid, r, contents);
    assert(apply_entries(x, cid, r) =~= fresh) by {
        assert forall|k: Seq<char>| apply_entries(x, cid, r).contains_key(k) implies puts(r, k) by {
            if !puts(r, k) {
                assert(x.contains_key(k));
                assert(index.contains_key(k));
                assert(contents.contains_key(k));
            }
        }
    }
    lemma_data_of(st, rest.len() as int);
    assert forall|k: Seq<char>| #[trigger] fresh.contains_key(k) implies contents.contains_key(k)
        && value_at(st, fresh[k]) == contents[k] by {
        let b = choose|b: int|
            0 <= b < r.len() && puts_at(r, k, b) && fresh[k] == (LogPosition {
                id: cid,
                pos: r[b].at as usize,
            });
        assert(holds_entry(r[b], contents));
        lemma_entry_is_record(out, 0, b);
    }
    assert forall|k: Seq<char>| #[trigger] contents.contains_key(k) implies fresh.contains_key(
        k,
    ) by {
        assert(puts(r, k));
    }
    assert(view_of(st, fresh) =~= contents);
}

} // verus!
