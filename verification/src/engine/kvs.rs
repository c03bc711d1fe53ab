//! The log-structured engine.

use crate::command::CommandView;
use crate::engine::crash::well_kept;
use crate::engine::journal::{
    apply_effects, compaction_effects, effect_views, image, Disk, EffectView, LogEffect,
};
use crate::engine::model::{
    bumped, compacted, compaction_due, extend_last, frames, holds_only, lookup, opening,
    recovered, with_fresh, Contents,
};
use crate::engine::store::Store;
use crate::error::KvsError;
use crate::log::reader::{lemma_one_order, ordered, segment_files, views_of, LogReader};
use crate::log::{ascending, frame_of, records, Entry, SegmentView};
use vstd::prelude::*;

verus! {

/// Whether `r` is what opening a store on these segments gives: the store
/// that holds what recovery from them gives, with a new empty segment behind
/// them and the effect that creates its file pending; or the error that
/// `opening` names.
pub open spec fn opened_on(segs: Seq<SegmentView>, r: Result<KvStore, KvsError>) -> bool {
    match opening(segs) {
        Ok(id) => {
            &&& r matches Ok(s)
            &&& s.wf()
            &&& s@ == recovered(segs)
            &&& s.segments() == with_fresh(segs, id)
            &&& s.stale() == 0
            &&& s.durable() == image(segs)
            &&& s.pending() == seq![EffectView::Create(id)]
        },
        Err(e) => r matches Err(e2) && e2 == e,
    }
}

/// Whether `segs` are the segments among the given files in the order of
/// their ids.
pub open spec fn sorted_from(segs: Seq<SegmentView>, files: Seq<(String, Vec<u8>)>) -> bool {
    ordered(segs) && segs.to_multiset() == segment_files(files).to_multiset()
}

/// Whether a store with the log `before` that wrote the record `c`, and so
/// came to hold `contents` and to count `stale` stale records, was left with
/// the log `after` and the count `after_stale`, with `effects` added to its
/// pending effects. In any case the frame of `c` is appended to the last
/// segment. Where compaction is due after that, the log is compacted and the
/// count is zero; otherwise nothing else happens.
pub open spec fn wrote(
    before: Seq<SegmentView>,
    c: CommandView,
    stale: usize,
    contents: Contents,
    after: Seq<SegmentView>,
    after_stale: usize,
    effects: Seq<EffectView>,
) -> bool {
    let written = extend_last(before, frame_of(c));
    let append = EffectView::Append(before.last().id, frame_of(c));
    if compaction_due(stale, contents, before.last().id) {
        &&& compacted(after, before.last().id, contents)
        &&& after_stale == 0
        &&& effects == seq![append] + compaction_effects(written, after[0].data)
    } else {
        &&& after == written
        &&& after_stale == stale
        &&& effects == seq![append]
    }
}

/// What a write and the compaction that may follow it leave is what `wrote`
/// says.
proof fn lemma_wrote(
    before: Seq<SegmentView>,
    c: CommandView,
    stale: usize,
    contents: Contents,
    pending: Seq<EffectView>,
    after: Seq<SegmentView>,
    after_stale: usize,
    after_pending: Seq<EffectView>,
)
    requires
        before.len() > 0,
        compaction_due(stale, contents, before.last().id) ==> {
            &&& compacted(after, before.last().id, contents)
            &&& after_stale == 0
            &&& after_pending == pending.push(
                EffectView::Append(before.last().id, frame_of(c)),
            ) + compaction_effects(extend_last(before, frame_of(c)), after[0].data)
        },
        !compaction_due(stale, contents, before.last().id) ==> {
            &&& after == extend_last(before, frame_of(c))
            &&& after_stale == stale
            &&& after_pending == pending.push(EffectView::Append(before.last().id, frame_of(c)))
        },
    ensures
        pending.is_prefix_of(after_pending),
        wrote(
            before,
            c,
            stale,
            contents,
            after,
            after_stale,
            after_pending.skip(pending.len() as int),
        ),
{
    let append = EffectView::Append(before.last().id, frame_of(c));
    let added = after_pending.skip(pending.len() as int);
    if compaction_due(stale, contents, before.last().id) {
        let tail = compaction_effects(extend_last(before, frame_of(c)), after[0].data);
        assert(after_pending =~= pending + (seq![append] + tail));
        assert(added =~= seq![append] + tail);
    } else {
        assert(after_pending =~= pending + seq![append]);
        assert(added =~= seq![append]);
    }
}

/// The log-structured store. It holds the bytes of its segments and the
/// index into them; what has to happen to the segment files it hands out as
/// effects.
pub struct KvStore {
    state: Store,
}

impl View for KvStore {
    type V = Contents;

    closed spec fn view(&self) -> Contents {
        self.state.view()
    }
}

impl KvStore {
    /// What holds of every store: the state that its operations keep.
    #[verifier::type_invariant]
    spec fn inv(self) -> bool {
        self.state.wf()
    }

    /// Whether the store is in the state that every operation leaves it in.
    /// Every store that `open` or `recover` returned is.
    pub closed spec fn wf(&self) -> bool {
        self.state.wf()
    }

    /// The segments of the store in the order of their ids; the last is the
    /// one written to.
    pub closed spec fn segments(&self) -> Seq<SegmentView> {
        self.state.segments()
    }

    /// The count of records that went stale since the last compaction.
    pub closed spec fn stale(&self) -> usize {
        self.state.stale
    }

    /// The effects that were not handed out yet.
    pub closed spec fn pending(&self) -> Seq<EffectView> {
        self.state.pending()
    }

    /// The segment files as they were when effects were last handed out.
    pub closed spec fn durable(&self) -> Disk {
        self.state.durable@
    }

    /// Opens a store on the files of a directory, each given by its name and
    /// its bytes: on the segments among them, replayed in the order of their
    /// ids. Two files with the name of one segment are an invariant violation.
    pub fn open(files: Vec<(String, Vec<u8>)>) -> (r: Result<KvStore, KvsError>)
        ensures
            exists|segs: Seq<SegmentView>|
                #[trigger] sorted_from(segs, files@) && opened_on(segs, r),
    {
        let readers = LogReader::open(files);
        let ghost segs = views_of(readers@);
        let r = KvStore::recover(readers);
        proof {
            assert(sorted_from(segs, files@) && opened_on(segs, r));
        }
        r
    }

    /// Opens a store on the given segments, which are replayed in the order
    /// given; their ids have to ascend. The one effect pending afterwards
    /// creates the new segment to write to.
    pub fn recover(readers: Vec<LogReader>) -> (r: Result<KvStore, KvsError>)
        ensures
            opened_on(views_of(readers@), r),
    {
        match Store::recover(readers) {
            Ok(state) => Ok(KvStore { state }),
            Err(e) => Err(e),
        }
    }

    /// Stores `value` under `key`: writes a `Put` record, points the index
    /// to it, counts the record that it replaces as stale, and compacts
    /// where that is due.
    pub fn set(&mut self, key: String, value: String) -> (r: Result<(), KvsError>)
        ensures
            r is Ok,
            final(self).wf(),
            final(self)@ == old(self)@.insert(key@, value@),
            final(self).durable() == old(self).durable(),
            old(self).pending().is_prefix_of(final(self).pending()),
            wrote(
                old(self).segments(),
                CommandView::Put(key@, value@),
                bumped(old(self).stale(), old(self)@.contains_key(key@)),
                final(self)@,
                final(self).segments(),
                final(self).stale(),
                final(self).pending().skip(old(self).pending().len() as int),
            ),
    {
        proof {
            use_type_invariant(&*self);
        }
        let mut state = Store::idle();
        std::mem::swap(&mut self.state, &mut state);
        let ghost c = CommandView::Put(key@, value@);
        let ghost before = state.segments();
        let ghost pending = state.pending();
        state.put(key, value);
        let ghost stale = state.stale;
        state.try_compact();
        proof {
            lemma_wrote(
                before,
                c,
                stale,
                state.view(),
                pending,
                state.segments(),
                state.stale,
                state.pending(),
            );
        }
        std::mem::swap(&mut self.state, &mut state);
        Ok(())
    }

    /// Looks up `key`: the value stored last under it, or `None` where there
    /// is none or the key was removed.
    pub fn get(&self, key: String) -> (r: Result<Option<String>, KvsError>)
        ensures
            match lookup(self@, key@) {
                Some(value) => r matches Ok(Some(s)) && s@ == value,
                None => r matches Ok(None),
            },
    {
        proof {
            use_type_invariant(self);
        }
        self.state.get(key.as_str())
    }

    /// Removes `key`. Where the key is not present this fails with
    /// `KeyNotFound` and writes nothing. Otherwise it writes a `Remove`
    /// record, takes the key out of the index, counts one record as stale,
    /// and compacts where that is due.
    pub fn remove(&mut self, key: String) -> (r: Result<(), KvsError>)
        ensures
            final(self).wf(),
            final(self).durable() == old(self).durable(),
            old(self)@.contains_key(key@) ==> {
                &&& r is Ok
                &&& final(self)@ == old(self)@.remove(key@)
                &&& old(self).pending().is_prefix_of(final(self).pending())
                &&& wrote(
                    old(self).segments(),
                    CommandView::Remove(key@),
                    bumped(old(self).stale(), true),
                    final(self)@,
                    final(self).segments(),
                    final(self).stale(),
                    final(self).pending().skip(old(self).pending().len() as int),
                )
            },
            !old(self)@.contains_key(key@) ==> {
                &&& r matches Err(KvsError::KeyNotFound)
                &&& final(self)@ == old(self)@
                &&& final(self).segments() == old(self).segments()
                &&& final(self).stale() == old(self).stale()
                &&& final(self).pending() == old(self).pending()
            },
    {
        proof {
            use_type_invariant(&*self);
        }
        let mut state = Store::idle();
        std::mem::swap(&mut self.state, &mut state);
        let ghost c = CommandView::Remove(key@);
        let ghost before = state.segments();
        let ghost pending = state.pending();
        let r = state.delete(key);
        if r.is_ok() {
            let ghost stale = state.stale;
            state.try_compact();
            proof {
                lemma_wrote(
                    before,
                    c,
                    stale,
                    state.view(),
                    pending,
                    state.segments(),
                    state.stale,
                    state.pending(),
                );
            }
        }
        std::mem::swap(&mut self.state, &mut state);
        r
    }

    /// Hands out the effects since the last call. Applied in order to the
    /// segment files as they were then, they leave files that hold exactly
    /// the segments of the store. An append counts as done only when the
    /// bytes are forced to disk.
    pub fn take_effects(&mut self) -> (effects: Vec<LogEffect>)
        ensures
            final(self).wf(),
            effect_views(effects@) == old(self).pending(),
            apply_effects(old(self).durable(), effect_views(effects@)) == image(
                final(self).segments(),
            ),
            final(self).pending() == Seq::<EffectView>::empty(),
            final(self).durable() == image(final(self).segments()),
            final(self).segments() == old(self).segments(),
            final(self)@ == old(self)@,
            final(self).stale() == old(self).stale(),
    {
        proof {
            use_type_invariant(&*self);
        }
        let mut state = Store::idle();
        std::mem::swap(&mut self.state, &mut state);
        let effects = state.take_effects();
        std::mem::swap(&mut self.state, &mut state);
        effects
    }

    /// The number of live keys.
    pub fn len(&self) -> (n: usize)
        ensures
            n == self@.dom().len(),
    {
        broadcast use vstd::hash_map::group_hash_map_axioms;

        proof {
            use_type_invariant(self);
            assert(self.state.view().dom() =~= self.state.index@.dom());
        }
        self.state.index.len()
    }

    /// The count of records that went stale since the last compaction.
    pub fn stale_count(&self) -> (n: usize)
        ensures
            n == self.stale(),
    {
        self.state.stale
    }
}

/// What was stored under a key is what a lookup of the key finds, whatever
/// the key and the value are.
pub proof fn law_set_then_get(before: Contents, key: Seq<char>, value: Seq<char>)
    ensures
        lookup(before.insert(key, value), key) == Some(value),
{
}

/// A key that was removed is not found, and cannot be removed again.
pub proof fn law_removed_is_gone(before: Contents, key: Seq<char>)
    ensures
        lookup(before.remove(key), key) == None::<Seq<char>>,
        !before.remove(key).contains_key(key),
{
}

/// A store holds what recovery from its segments gives: a store opened on
/// the segments of this one, in their order, holds what this one holds. The
/// segments are a log as the engine keeps it, and can be opened on unless
/// the id of the last one is the largest there is. The pending effects,
/// applied to the segment files as they were when effects were last handed
/// out, leave exactly these segments.
pub proof fn law_recovery(s: KvStore)
    requires
        s.wf(),
    ensures
        recovered(s.segments()) == s@,
        well_kept(s.segments()),
        s.segments().last().id < u64::MAX ==> opening(s.segments()) is Ok,
        apply_effects(s.durable(), s.pending()) == image(s.segments()),
{
}

/// What a store is opened on does not depend on the order in which the
/// files of its directory are given: any two orderings of the segments among
/// them by id either both fail to ascend, or are the same.
pub proof fn law_open_is_determined(
    files: Seq<(String, Vec<u8>)>,
    a: Seq<SegmentView>,
    b: Seq<SegmentView>,
)
    requires
        sorted_from(a, files),
        sorted_from(b, files),
    ensures
        ascending(a) == ascending(b),
        ascending(a) ==> a == b,
        opening(a) == opening(b),
{
    if ascending(a) {
        lemma_one_order(a, b);
    } else if ascending(b) {
        lemma_one_order(b, a);
    }
}

/// Compaction does not show in what the store holds, and leaves a log whose
/// size goes by the live keys alone: recovery from a compacted log gives what
/// the store holds, and the log is the frames of one `Put` record for each
/// live key, with the key's value, and nothing else.
pub proof fn law_compaction(s: KvStore, last: u64)
    requires
        s.wf(),
        compacted(s.segments(), last, s@),
    ensures
        recovered(s.segments()) == s@,
        records(s.segments()[0].data).len() + records(s.segments()[1].data).len()
            == s@.dom().len(),
        holds_only(records(s.segments()[0].data), s@),
        s.segments()[0].data == frames(records(s.segments()[0].data)),
{
    assert(records(s.segments()[1].data) =~= Seq::<Entry>::empty());
}

} // verus!
