//! The working state of the engine: the index, the segments, the count of
//! stale records and the effects that are still to be handed out.

use crate::command::{Command, CommandView};
use crate::engine::compaction::{
    compacted_log, compacting, lemma_compact_done, lemma_compact_keep, lemma_compact_next,
    lemma_compact_skip, lemma_compact_start,
};
use crate::engine::journal::{
    apply_effects, compaction_effects, deletions, effect_views, image, lemma_apply_push,
    lemma_image_extend, lemma_image_fresh, lemma_without_all, lemma_without_step, without, Disk,
    EffectView, LogEffect,
};
use crate::engine::model::{
    bumped, compacted, compaction_due, extend_last, fetched, lemma_data_of, lemma_located,
    lemma_open, lemma_write, log_wf, lookup, opening, recovered, view_of, with_fresh, Contents,
};
use crate::error::KvsError;
use crate::frame::{read_value, scan_record, Scanned};
use crate::log::reader::{views_of, LogReader};
use crate::log::writer::LogWriter;
use crate::log::{
    ascending, damaged, frame_of, records, records_from, replay, Entry, Index, LogPosition,
    SegmentView,
};
use std::collections::HashMap;
use vstd::hash_map::StringHashMap;
use vstd::prelude::*;

verus! {

/// Segments of which each has a smaller id than the next ascend.
proof fn lemma_steps_ascend(segs: Seq<SegmentView>, a: int, b: int)
    requires
        forall|i: int| 0 < i < segs.len() ==> (#[trigger] segs[i - 1]).id < segs[i].id,
        0 <= a < b < segs.len(),
    ensures
        segs[a].id < segs[b].id,
    decreases b - a,
{
    assert(segs[b - 1].id < segs[b].id);
    if a < b - 1 {
        lemma_steps_ascend(segs, a, b - 1);
    }
}

/// Whether the id is among the given ids.
pub(crate) open spec fn listed(ids: Seq<u64>, id: u64) -> bool {
    exists|j: int| 0 <= j < ids.len() && ids[j] == id
}

/// The working state of the engine.
pub(crate) struct Store {
    /// For each live key the position of its current value.
    pub(crate) index: StringHashMap<LogPosition>,
    /// The ids of the sealed segments, ascending.
    pub(crate) ids: Vec<u64>,
    /// The reader of each sealed segment, by the id of the segment.
    pub(crate) readers: HashMap<u64, LogReader>,
    /// The segment that grows; its id is larger than that of any sealed one.
    pub(crate) writer: LogWriter,
    /// The records that went stale since the last compaction.
    pub(crate) stale: usize,
    /// What has to happen to the segment files and was not handed out yet.
    pub(crate) effects: Vec<LogEffect>,
    /// The segment files as they were when effects were last handed out.
    pub(crate) durable: Ghost<Disk>,
}

impl Store {
    /// The sealed segments in the order of their ids.
    pub(crate) open spec fn sealed(&self) -> Seq<SegmentView> {
        Seq::new(self.ids@.len(), |j: int| self.readers@[self.ids@[j]]@)
    }

    /// The segments of the store in the order of their ids: the sealed ones,
    /// then the one that grows.
    pub(crate) open spec fn segments(&self) -> Seq<SegmentView> {
        self.sealed().push(self.writer@)
    }

    /// Whether the readers are those of the sealed segments, each under the
    /// id of its segment.
    pub(crate) open spec fn arena(&self) -> bool {
        &&& forall|j: int|
            0 <= j < self.ids@.len() ==> self.readers@.contains_key(#[trigger] self.ids@[j])
                && self.readers@[self.ids@[j]]@.id == self.ids@[j]
        &&& forall|id: u64| #[trigger]
            self.readers@.contains_key(id) ==> listed(self.ids@, id)
    }

    /// What the store holds.
    pub(crate) open spec fn view(&self) -> Contents {
        view_of(self.segments(), self.index@)
    }

    /// The effects that were not handed out yet.
    pub(crate) open spec fn pending(&self) -> Seq<EffectView> {
        effect_views(self.effects@)
    }

    /// The state that every operation keeps: the log and the index fit
    /// together, nothing written is left unflushed, and the pending effects
    /// bring the segment files in line with the segments.
    pub(crate) open spec fn wf(&self) -> bool {
        &&& self.arena()
        &&& log_wf(self.segments(), self.index@)
        &&& self.writer.pending() == Seq::<u8>::empty()
        &&& apply_effects(self.durable@, self.pending()) == image(self.segments())
    }

    /// A store without a record: one empty segment with id zero. It stands
    /// in for a store while that one is worked on.
    pub(crate) fn idle() -> (s: Store)
        ensures
            s.wf(),
    {
        broadcast use vstd::std_specs::hash::group_hash_axioms;

        let s = Store {
            index: StringHashMap::new(),
            ids: Vec::new(),
            readers: HashMap::new(),
            writer: LogWriter::new(0),
            stale: 0,
            effects: Vec::new(),
            durable: Ghost(image(with_fresh(Seq::empty(), 0))),
        };
        proof {
            let none = Seq::<SegmentView>::empty();
            assert(s.pending() =~= Seq::<EffectView>::empty());
            lemma_open(none, 0);
            assert(s.sealed() =~= none);
            assert(replay(Map::empty(), none) == Index::empty());
        }
        s
    }

    /// The reader of the sealed segment in place `j`.
    fn reader(&self, j: usize) -> (r: &LogReader)
        requires
            self.arena(),
            j < self.ids@.len(),
        ensures
            r@ == self.segments()[j as int],
            r@.id == self.ids@[j as int],
    {
        broadcast use vstd::std_specs::hash::group_hash_axioms;

        match self.readers.get(&self.ids[j]) {
            Some(r) => r,
            None => vstd::pervasive::unreached(),
        }
    }

    /// Reads the value of the `Put` record at `p`.
    pub(crate) fn fetch(&self, p: LogPosition) -> (r: Result<String, KvsError>)
        requires
            self.arena(),
            ascending(self.segments()),
        ensures
            match fetched(self.segments(), p) {
                Ok(value) => r matches Ok(s) && s@ == value,
                Err(e) => r matches Err(e2) && e2 == e,
            },
    {
        broadcast use vstd::std_specs::hash::group_hash_axioms;

        let ghost segs = self.segments();
        let data = if p.id() == self.writer.id() {
            proof {
                lemma_data_of(segs, self.ids@.len() as int);
            }
            self.writer.bytes()
        } else {
            match self.readers.get(&p.id()) {
                Some(r) => {
                    proof {
                        let j = choose|j: int| 0 <= j < self.ids@.len() && self.ids@[j] == p.id;
                        assert(segs[j] == r@);
                        lemma_data_of(segs, j);
                    }
                    r.bytes()
                },
                None => {
                    proof {
                        assert forall|j: int| 0 <= j < segs.len() implies (#[trigger] segs[j]).id
                            != p.id by {
                            if j < self.ids@.len() {
                                assert(self.readers@.contains_key(self.ids@[j]));
                            }
                        }
                    }
                    return Err(KvsError::InvariantViolation);
                },
            }
        };
        read_value(data, p.pos())
    }

    /// Looks up `key`: the index gives the position, the log the value.
    pub(crate) fn get(&self, key: &str) -> (r: Result<Option<String>, KvsError>)
        requires
            self.wf(),
        ensures
            match lookup(self.view(), key@) {
                Some(value) => r matches Ok(Some(s)) && s@ == value,
                None => r matches Ok(None),
            },
    {
        match self.index.get(key) {
            None => Ok(None),
            Some(p) => {
                proof {
                    lemma_located(self.segments(), *p, key@);
                }
                match self.fetch(*p) {
                    Ok(value) => Ok(Some(value)),
                    Err(e) => Err(e),
                }
            },
        }
    }

    /// Writes a `Put` record, points the index to it, and counts the record
    /// that it replaces, if there is one, as stale.
    pub(crate) fn put(&mut self, key: String, value: String)
        requires
            old(self).wf(),
        ensures
            final(self).wf(),
            final(self).view() == old(self).view().insert(key@, value@),
            final(self).segments() == extend_last(
                old(self).segments(),
                frame_of(CommandView::Put(key@, value@)),
            ),
            final(self).stale == bumped(old(self).stale, old(self).view().contains_key(key@)),
            final(self).durable@ == old(self).durable@,
            final(self).pending() == old(self).pending().push(
                EffectView::Append(
                    old(self).segments().last().id,
                    frame_of(CommandView::Put(key@, value@)),
                ),
            ),
    {
        let ghost segs = self.segments();
        let ghost c = CommandView::Put(key@, value@);
        let had = self.index.contains_key(key.as_str());
        let id = self.writer.id();
        let (p, bytes) = self.writer.write_and_flush(Command::Put(key.clone(), value));
        self.index.insert(key, p);
        if had && self.stale < usize::MAX {
            self.stale = self.stale + 1;
        }
        proof {
            assert(bytes@ =~= frame_of(c));
            lemma_write(segs, old(self).index@, c);
            assert(self.segments() =~= extend_last(segs, frame_of(c)));
            lemma_apply_push(self.durable@, self.effects@, LogEffect::Append(id, bytes));
            lemma_image_extend(segs, frame_of(c));
        }
        self.effects.push(LogEffect::Append(id, bytes));
    }

    /// Where the key is present: writes a `Remove` record, takes the key out
    /// of the index, and counts one record as stale. Where it is not: fails
    /// with `KeyNotFound` and changes nothing.
    pub(crate) fn delete(&mut self, key: String) -> (r: Result<(), KvsError>)
        requires
            old(self).wf(),
        ensures
            final(self).wf(),
            final(self).durable@ == old(self).durable@,
            old(self).view().contains_key(key@) ==> {
                &&& r is Ok
                &&& final(self).view() == old(self).view().remove(key@)
                &&& final(self).segments() == extend_last(
                    old(self).segments(),
                    frame_of(CommandView::Remove(key@)),
                )
                &&& final(self).stale == bumped(old(self).stale, true)
                &&& final(self).pending() == old(self).pending().push(
                    EffectView::Append(
                        old(self).segments().last().id,
                        frame_of(CommandView::Remove(key@)),
                    ),
                )
            },
            !old(self).view().contains_key(key@) ==> {
                &&& r matches Err(KvsError::KeyNotFound)
                &&& final(self).view() == old(self).view()
                &&& final(self).segments() == old(self).segments()
                &&& final(self).stale == old(self).stale
                &&& final(self).pending() == old(self).pending()
            },
    {
        let ghost segs = self.segments();
        let ghost c = CommandView::Remove(key@);
        if !self.index.contains_key(key.as_str()) {
            return Err(KvsError::KeyNotFound);
        }
        self.index.remove(key.as_str());
        let id = self.writer.id();
        let (_, bytes) = self.writer.write_and_flush(Command::Remove(key));
        if self.stale < usize::MAX {
            self.stale = self.stale + 1;
        }
        proof {
            assert(bytes@ =~= frame_of(c));
            lemma_write(segs, old(self).index@, c);
            assert(self.segments() =~= extend_last(segs, frame_of(c)));
            lemma_apply_push(self.durable@, self.effects@, LogEffect::Append(id, bytes));
            lemma_image_extend(segs, frame_of(c));
        }
        self.effects.push(LogEffect::Append(id, bytes));
        Ok(())
    }

    /// Walks over the records of the log and writes the live ones, those
    /// that the index points to, into the writer `out` of a new segment;
    /// returns the index into the new segment.
    fn rewrite_live(&self, out: &mut LogWriter) -> (fresh: StringHashMap<LogPosition>)
        requires
            self.wf(),
            old(out)@.data == Seq::<u8>::empty(),
            old(out).pending() == Seq::<u8>::empty(),
        ensures
            final(out)@.id == old(out)@.id,
            final(out).pending() == final(out)@.data,
            compacting(
                self.segments(),
                self.index@,
                old(out)@.id,
                final(out)@.data,
                fresh@,
                self.segments().len() as int,
                0,
            ),
    {
        let ghost segs = self.segments();
        let ghost index = self.index@;
        let ghost cid = out@.id;
        let mut fresh: StringHashMap<LogPosition> = StringHashMap::new();
        let n = self.ids.len();
        let mut j: usize = 0;
        proof {
            lemma_compact_start(segs, index, cid);
        }
        loop
            invariant_except_break
                compacting(segs, index, cid, out@.data, fresh@, j as int, 0),
            invariant
                self.wf(),
                segs == self.segments(),
                index == self.index@,
                n == self.ids@.len(),
                j <= n,
                out@.id == cid,
                out.pending() == out@.data,
            ensures
                compacting(segs, index, cid, out@.data, fresh@, n + 1, 0),
            decreases n - j,
        {
            let sid = if j < n {
                self.ids[j]
            } else {
                self.writer.id()
            };
            let data = if j < n {
                self.reader(j).bytes()
            } else {
                self.writer.bytes()
            };
            let ghost r = records(data@);
            let ghost mut i: int = 0;
            let mut at: usize = 0;
            proof {
                assert(segs[j as int] == (SegmentView { id: sid, data: data@ }));
                assert(r.skip(0) =~= r);
            }
            loop
                invariant
                    self.wf(),
                    segs == self.segments(),
                    index == self.index@,
                    j <= n,
                    n + 1 == segs.len(),
                    segs[j as int] == (SegmentView { id: sid, data: data@ }),
                    r == records(data@),
                    0 <= i <= r.len(),
                    at <= data@.len(),
                    records_from(data@, at as int) == r.skip(i),
                    out@.id == cid,
                    out.pending() == out@.data,
                    compacting(segs, index, cid, out@.data, fresh@, j as int, i),
                ensures
                    out@.id == cid,
                    out.pending() == out@.data,
                    compacting(segs, index, cid, out@.data, fresh@, j as int, r.len() as int),
                decreases data@.len() - at,
            {
                match scan_record(data, at) {
                    Scanned::Record(cmd, next) => {
                        proof {
                            let e = Entry { at: at as int, cmd: cmd@ };
                            let rest = records_from(data@, next as int);
                            assert(records_from(data@, at as int) == seq![e] + rest);
                            assert(r.skip(i)[0] == e);
                            assert(r[i] == e);
                            assert((seq![e] + rest).skip(1) =~= rest);
                            assert(r.skip(i).skip(1) =~= r.skip(i + 1));
                        }
                        let ghost before = out@.data;
                        let ghost had = fresh@;
                        let kept = match cmd {
                            Command::Put(key, value) => {
                                let live = match self.index.get(key.as_str()) {
                                    Some(p) => p.id() == sid && p.pos() == at,
                                    None => false,
                                };
                                if live {
                                    let ghost k = key@;
                                    let ghost v = value@;
                                    let p = out.write(Command::Put(key.clone(), value));
                                    fresh.insert(key, p);
                                    proof {
                                        lemma_compact_keep(
                                            segs,
                                            index,
                                            cid,
                                            before,
                                            had,
                                            j as int,
                                            i,
                                            k,
                                            v,
                                        );
                                    }
                                }
                                live
                            },
                            _ => false,
                        };
                        proof {
                            if !kept {
                                lemma_compact_skip(segs, index, cid, before, had, j as int, i);
                            }
                            i = i + 1;
                        }
                        at = next;
                    },
                    _ => {
                        proof {
                            assert(records_from(data@, at as int) =~= Seq::<Entry>::empty());
                            assert(r.skip(i).len() == 0);
                        }
                        break ;
                    },
                }
            }
            proof {
                lemma_compact_next(segs, index, cid, out@.data, fresh@, j as int);
            }
            if j == n {
                break ;
            }
            j += 1;
        }
        fresh
    }

    /// Rewrites the live records into a new segment, drops the old
    /// segments, and starts a new empty segment to write to. The old
    /// segments' files are deleted only after the new segment is written.
    pub(crate) fn compact(&mut self)
        requires
            old(self).wf(),
            old(self).segments().last().id <= u64::MAX - 2,
        ensures
            final(self).wf(),
            final(self).view() == old(self).view(),
            final(self).stale == 0,
            compacted(final(self).segments(), old(self).segments().last().id, final(self).view()),
            final(self).durable@ == old(self).durable@,
            final(self).pending() == old(self).pending() + compaction_effects(
                old(self).segments(),
                final(self).segments()[0].data,
            ),
    {
        broadcast use vstd::std_specs::hash::group_hash_axioms;

        let ghost segs = self.segments();
        let ghost index = self.index@;
        let ghost disk = self.durable@;
        let ghost pending = self.pending();
        let cid = self.writer.id() + 1;
        let mut out = LogWriter::new(cid);
        let fresh = self.rewrite_live(&mut out);
        let bytes = out.flush();
        let ghost filled = image(segs).insert(cid, out@.data);
        let ghost head = seq![EffectView::Create(cid), EffectView::Append(cid, out@.data)];
        proof {
            lemma_compact_done(segs, index, cid, out@.data, fresh@);
            lemma_apply_push(disk, self.effects@, LogEffect::Create(cid));
            lemma_apply_push(
                disk,
                self.effects@.push(LogEffect::Create(cid)),
                LogEffect::Append(cid, bytes),
            );
            assert(Seq::<u8>::empty() + bytes@ =~= bytes@);
            assert(image(segs).insert(cid, Seq::empty()).insert(cid, bytes@) =~= filled);
            lemma_without_step(filled, segs, 0);
            assert(pending.push(head[0]).push(head[1]) =~= pending + head + deletions(segs).take(
                0,
            ));
        }
        self.effects.push(LogEffect::Create(cid));
        self.effects.push(LogEffect::Append(cid, bytes));
        let n = self.ids.len();
        let mut j: usize = 0;
        while j < n
            invariant
                j <= n,
                n == self.ids@.len(),
                self.arena(),
                segs == self.segments(),
                self.durable@ == disk,
                self.pending() == pending + head + deletions(segs).take(j as int),
                apply_effects(disk, self.pending()) == without(filled, segs, j as int),
            decreases n - j,
        {
            let e = self.reader(j).remove();
            proof {
                lemma_apply_push(disk, self.effects@, e);
                lemma_without_step(filled, segs, j as int);
                assert((pending + head + deletions(segs).take(j as int)).push(e@) =~= pending
                    + head + deletions(segs).take(j + 1));
            }
            self.effects.push(e);
            j += 1;
        }
        let e = LogEffect::Delete(self.writer.id());
        proof {
            lemma_apply_push(disk, self.effects@, e);
            lemma_without_step(filled, segs, n as int);
            lemma_apply_push(disk, self.effects@.push(e), LogEffect::Create((cid + 1) as u64));
            assert forall|a: int| 0 <= a < segs.len() implies (#[trigger] segs[a]).id < cid by {
                if a < n {
                    assert(segs[a].id < segs[n as int].id);
                }
            }
            lemma_without_all(segs, cid, out@.data);
            lemma_image_fresh(seq![SegmentView { id: cid, data: out@.data }], (cid + 1) as u64);
            assert((pending + head + deletions(segs).take(n as int)).push(e@).push(
                EffectView::Create((cid + 1) as u64),
            ) =~= pending + compaction_effects(segs, out@.data));
        }
        self.effects.push(e);
        self.effects.push(LogEffect::Create(cid + 1));
        let mut ids: Vec<u64> = Vec::new();
        ids.push(cid);
        let mut readers: HashMap<u64, LogReader> = HashMap::new();
        readers.insert(cid, out.seal());
        self.ids = ids;
        self.readers = readers;
        self.writer = LogWriter::new(cid + 1);
        self.index = fresh;
        self.stale = 0;
        proof {
            assert(self.ids@ =~= seq![cid]);
            assert(self.sealed() =~= seq![SegmentView { id: cid, data: out@.data }]);
            assert(self.segments() =~= compacted_log(cid, out@.data));
            assert(self.arena()) by {
                assert forall|id: u64| #[trigger] self.readers@.contains_key(id) implies listed(
                    self.ids@,
                    id,
                ) by {
                    assert(self.ids@[0] == cid);
                }
            }
        }
    }

    /// Runs compaction where the stale records are as many as the live keys
    /// and two more segment ids can be had.
    pub(crate) fn try_compact(&mut self)
        requires
            old(self).wf(),
        ensures
            final(self).wf(),
            final(self).view() == old(self).view(),
            final(self).durable@ == old(self).durable@,
            compaction_due(old(self).stale, old(self).view(), old(self).segments().last().id)
                ==> {
                &&& final(self).stale == 0
                &&& compacted(
                    final(self).segments(),
                    old(self).segments().last().id,
                    final(self).view(),
                )
                &&& final(self).pending() == old(self).pending() + compaction_effects(
                    old(self).segments(),
                    final(self).segments()[0].data,
                )
            },
            !compaction_due(old(self).stale, old(self).view(), old(self).segments().last().id)
                ==> {
                &&& final(self).stale == old(self).stale
                &&& final(self).segments() == old(self).segments()
                &&& final(self).pending() == old(self).pending()
            },
    {
        broadcast use vstd::hash_map::group_hash_map_axioms;

        assert(self.view().dom() =~= self.index@.dom());
        if self.stale >= self.index.len() && self.writer.id() <= u64::MAX - 2 {
            self.compact();
        }
    }

    /// Opens a store on the given segments: replays them in the order given
    /// and starts a new empty segment behind them.
    pub(crate) fn recover(readers: Vec<LogReader>) -> (r: Result<Store, KvsError>)
        ensures
            match opening(views_of(readers@)) {
                Ok(id) => {
                    &&& r matches Ok(s)
                    &&& s.wf()
                    &&& s.segments() == with_fresh(views_of(readers@), id)
                    &&& s.view() == recovered(views_of(readers@))
                    &&& s.stale == 0
                    &&& s.durable@ == image(views_of(readers@))
                    &&& s.pending() == seq![EffectView::Create(id)]
                },
                Err(e) => r matches Err(e2) && e2 == e,
            },
    {
        broadcast use vstd::std_specs::hash::group_hash_axioms;

        let ghost segs = views_of(readers@);
        let n = readers.len();
        let mut j: usize = 1;
        while j < n
            invariant
                1 <= j,
                n == readers@.len(),
                segs == views_of(readers@),
                forall|i: int| 0 < i < j && i < n ==> (#[trigger] segs[i - 1]).id < segs[i].id,
            decreases n - j,
        {
            proof {
                assert(segs[j - 1] == readers@[j - 1]@);
                assert(segs[j as int] == readers@[j as int]@);
            }
            if readers[j - 1].id() >= readers[j].id() {
                proof {
                    assert(!(segs[j - 1].id < segs[j as int].id));
                }
                return Err(KvsError::InvariantViolation);
            }
            j += 1;
        }
        proof {
            assert forall|a: int, b: int| 0 <= a < b < segs.len() implies (#[trigger] segs[a]).id
                < (#[trigger] segs[b]).id by {
                lemma_steps_ascend(segs, a, b);
            }
            assert(segs.take(0) =~= Seq::<SegmentView>::empty());
        }
        let mut index: StringHashMap<LogPosition> = StringHashMap::new();
        let mut j: usize = 0;
        while j < n
            invariant
                j <= n,
                n == readers@.len(),
                segs == views_of(readers@),
                index@ == replay(Map::empty(), segs.take(j as int)),
                ascending(segs),
                forall|i: int|
                    0 <= i < j ==> !damaged((#[trigger] segs[i]).data) && segs[i].data.len()
                        <= usize::MAX,
            decreases n - j,
        {
            let (_, whole) = readers[j].replay_into(&mut index);
            proof {
                assert(segs[j as int] == readers@[j as int]@);
            }
            if !whole {
                proof {
                    assert(damaged(segs[j as int].data));
                }
                return Err(KvsError::Corruption);
            }
            proof {
                assert(segs.take(j + 1).drop_last() =~= segs.take(j as int));
                assert(segs.take(j + 1).last() == segs[j as int]);
            }
            j += 1;
        }
        proof {
            assert(segs.take(n as int) =~= segs);
        }
        let id = if n == 0 {
            1
        } else {
            let last = readers[n - 1].id();
            proof {
                assert(segs[n - 1] == readers@[n - 1]@);
            }
            if last == u64::MAX {
                return Err(KvsError::Corruption);
            }
            last + 1
        };
        let mut ids: Vec<u64> = Vec::new();
        let mut j: usize = 0;
        while j < n
            invariant
                j <= n,
                n == readers@.len(),
                segs == views_of(readers@),
                ids@.len() == j,
                forall|i: int| 0 <= i < j ==> #[trigger] ids@[i] == segs[i].id,
            decreases n - j,
        {
            proof {
                assert(segs[j as int] == readers@[j as int]@);
            }
            ids.push(readers[j].id());
            j += 1;
        }
        let mut rest = readers;
        let mut arena: HashMap<u64, LogReader> = HashMap::new();
        while rest.len() > 0
            invariant
                rest@.len() <= n,
                n == segs.len(),
                ascending(segs),
                forall|i: int| 0 <= i < rest@.len() ==> (#[trigger] rest@[i])@ == segs[i],
                forall|i: int|
                    rest@.len() <= i < n ==> arena@.contains_key((#[trigger] segs[i]).id)
                        && arena@[segs[i].id]@ == segs[i],
                forall|id: u64| #[trigger]
                    arena@.contains_key(id) ==> exists|i: int|
                        rest@.len() <= i < n && segs[i].id == id,
            decreases rest@.len(),
        {
            let ghost m = rest@.len() - 1;
            let r = rest.pop().unwrap();
            proof {
                assert(r@ == segs[m]);
                assert forall|i: int| m < i < n implies (#[trigger] segs[i]).id != segs[m].id by {
                    assert(segs[m].id < segs[i].id);
                }
            }
            arena.insert(r.id(), r);
        }
        let mut effects: Vec<LogEffect> = Vec::new();
        effects.push(LogEffect::Create(id));
        let s = Store {
            index,
            ids,
            readers: arena,
            writer: LogWriter::new(id),
            stale: 0,
            effects,
            durable: Ghost(image(segs)),
        };
        proof {
            lemma_open(segs, id);
            assert(s.sealed() =~= segs);
            assert(s.segments() =~= with_fresh(segs, id));
            assert(s.arena()) by {
                assert forall|k: u64| #[trigger] s.readers@.contains_key(k) implies listed(
                    s.ids@,
                    k,
                ) by {
                    let i = choose|i: int| 0 <= i < n && segs[i].id == k;
                    assert(s.ids@[i] == k);
                }
            }
            lemma_apply_push(image(segs), Seq::empty(), LogEffect::Create(id));
            assert(Seq::<LogEffect>::empty().push(LogEffect::Create(id)) =~= s.effects@);
            assert(s.pending() =~= seq![EffectView::Create(id)]);
            lemma_image_fresh(segs, id);
        }
        Ok(s)
    }

    /// Hands out the effects since the last call.
    pub(crate) fn take_effects(&mut self) -> (effects: Vec<LogEffect>)
        requires
            old(self).wf(),
        ensures
            final(self).wf(),
            effect_views(effects@) == old(self).pending(),
            final(self).pending() == Seq::<EffectView>::empty(),
            final(self).durable@ == image(final(self).segments()),
            final(self).segments() == old(self).segments(),
            final(self).view() == old(self).view(),
            final(self).stale == old(self).stale,
    {
        let mut effects: Vec<LogEffect> = Vec::new();
        std::mem::swap(&mut self.effects, &mut effects);
        self.durable = Ghost(image(self.segments()));
        proof {
            assert(self.pending() =~= Seq::<EffectView>::empty());
        }
        effects
    }
}

} // verus!
