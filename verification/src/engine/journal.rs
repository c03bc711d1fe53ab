//! What the engine asks of durable storage: the effects that bring the
//! segment files in line with the segments that the engine holds.

use crate::engine::model::{data_of, extend_last, has_segment, lemma_data_of, with_fresh};
use crate::log::{ascending, SegmentView};
use vstd::prelude::*;

verus! {

/// One change to the segment files.
#[derive(Debug, Clone, PartialEq, Eq)]
pub enum LogEffect {
    /// Create the file of a new, empty segment.
    Create(u64),
    /// Append the bytes to the file of the segment and force them to disk.
    Append(u64, Vec<u8>),
    /// Delete the file of the segment.
    Delete(u64),
}

/// A change to the segment files as plain values.
pub enum EffectView {
    Create(u64),
    Append(u64, Seq<u8>),
    Delete(u64),
}

impl View for LogEffect {
    type V = EffectView;

    open spec fn view(&self) -> EffectView {
        match self {
            LogEffect::Create(id) => EffectView::Create(*id),
            LogEffect::Append(id, bytes) => EffectView::Append(*id, bytes@),
            LogEffect::Delete(id) => EffectView::Delete(*id),
        }
    }
}

/// The segment files: for each id the bytes of its file.
pub type Disk = Map<u64, Seq<u8>>;

/// The files after one effect. Appending to a file that is not there
/// creates it.
pub open spec fn apply_effect(disk: Disk, e: EffectView) -> Disk {
    match e {
        EffectView::Create(id) => disk.insert(id, Seq::empty()),
        EffectView::Append(id, bytes) => if disk.contains_key(id) {
            disk.insert(id, disk[id] + bytes)
        } else {
            disk.insert(id, bytes)
        },
        EffectView::Delete(id) => disk.remove(id),
    }
}

/// The files after the given effects, first to last.
pub open spec fn apply_effects(disk: Disk, effects: Seq<EffectView>) -> Disk
    decreases effects.len(),
{
    if effects.len() == 0 {
        disk
    } else {
        apply_effect(apply_effects(disk, effects.drop_last()), effects.last())
    }
}

/// The given effects as plain values.
pub open spec fn effect_views(effects: Seq<LogEffect>) -> Seq<EffectView> {
    Seq::new(effects.len(), |i: int| effects[i]@)
}

/// The files that hold exactly the given segments.
pub open spec fn image(segs: Seq<SegmentView>) -> Disk {
    Map::new(|id: u64| has_segment(segs, id), |id: u64| data_of(segs, id))
}

/// The effects that delete the files of the given segments, in their order.
pub open spec fn deletions(segs: Seq<SegmentView>) -> Seq<EffectView> {
    Seq::new(segs.len(), |j: int| EffectView::Delete(segs[j].id))
}

/// The effects of a compaction of the given segments into a new segment
/// with the bytes `out`: the new segment is created and written, with the id
/// that follows the last one; only then the files of the old segments are
/// deleted; at last the new segment to write to is created.
pub open spec fn compaction_effects(segs: Seq<SegmentView>, out: Seq<u8>) -> Seq<EffectView> {
    let cid = (segs.last().id + 1) as u64;
    seq![EffectView::Create(cid), EffectView::Append(cid, out)] + deletions(segs) + seq![
        EffectView::Create((cid + 1) as u64),
    ]
}

/// One more effect is applied after the others.
pub proof fn lemma_apply_push(disk: Disk, effects: Seq<LogEffect>, e: LogEffect)
    ensures
        effect_views(effects.push(e)) == effect_views(effects).push(e@),
        apply_effects(disk, effect_views(effects.push(e))) == apply_effect(
            apply_effects(disk, effect_views(effects)),
            e@,
        ),
{
    let all = effect_views(effects.push(e));
    assert(all =~= effect_views(effects).push(e@));
    assert(all.drop_last() =~= effect_views(effects));
    assert(all.last() == e@);
}

/// Appending to the last segment is appending to its file.
pub proof fn lemma_image_extend(segs: Seq<SegmentView>, bytes: Seq<u8>)
    requires
        segs.len() > 0,
        ascending(segs),
    ensures
        image(segs).contains_key(segs.last().id),
        image(extend_last(segs, bytes)) == apply_effect(
            image(segs),
            EffectView::Append(segs.last().id, bytes),
        ),
{
    let segs2 = extend_last(segs, bytes);
    let last = segs.len() - 1;
    crate::engine::model::lemma_extend_ascending(segs, bytes);
    lemma_data_of(segs, last);
    lemma_data_of(segs2, last);
    let want = apply_effect(image(segs), EffectView::Append(segs.last().id, bytes));
    assert forall|id: u64| image(segs2).contains_key(id) <==> want.contains_key(id) by {
        if has_segment(segs2, id) {
            let j = choose|j: int| 0 <= j < segs2.len() && (#[trigger] segs2[j]).id == id;
            assert(segs[j].id == id);
        }
        if has_segment(segs, id) {
            let j = choose|j: int| 0 <= j < segs.len() && (#[trigger] segs[j]).id == id;
            assert(segs2[j].id == id);
        }
    }
    assert forall|id: u64| image(segs2).contains_key(id) implies image(segs2)[id] == want[id] by {
        let j = choose|j: int| 0 <= j < segs2.len() && (#[trigger] segs2[j]).id == id;
        lemma_data_of(segs2, j);
        lemma_data_of(segs, j);
        if j != last {
            assert(segs[j].id < segs[last].id);
            assert(segs2[j] == segs[j]);
        }
    }
    assert(image(segs2) =~= want);
}

/// A new empty segment behind the others is a new empty file.
pub proof fn lemma_image_fresh(segs: Seq<SegmentView>, id: u64)
    requires
        ascending(with_fresh(segs, id)),
    ensures
        image(with_fresh(segs, id)) == apply_effect(image(segs), EffectView::Create(id)),
{
    let segs2 = with_fresh(segs, id);
    let want = apply_effect(image(segs), EffectView::Create(id));
    lemma_data_of(segs2, segs.len() as int);
    assert forall|x: u64| image(segs2).contains_key(x) <==> want.contains_key(x) by {
        if has_segment(segs2, x) {
            let j = choose|j: int| 0 <= j < segs2.len() && (#[trigger] segs2[j]).id == x;
            if j < segs.len() {
                assert(segs[j].id == x);
            }
        }
        if has_segment(segs, x) {
            let j = choose|j: int| 0 <= j < segs.len() && (#[trigger] segs[j]).id == x;
            assert(segs2[j].id == x);
        }
    }
    assert forall|x: u64| image(segs2).contains_key(x) implies image(segs2)[x] == want[x] by {
        let j = choose|j: int| 0 <= j < segs2.len() && (#[trigger] segs2[j]).id == x;
        lemma_data_of(segs2, j);
        if j < segs.len() {
            assert(segs2[j] == segs[j]);
            assert(segs2[j].id < segs2[segs.len() as int].id);
            assert(ascending(segs)) by {
                assert forall|a: int, b: int| 0 <= a < b < segs.len() implies (
                #[trigger] segs[a]).id < (#[trigger] segs[b]).id by {
                    assert(segs2[a].id < segs2[b].id);
                }
            }
            lemma_data_of(segs, j);
        }
    }
    assert(image(segs2) =~= want);
}

/// The files without those of the first `j` of the given segments.
pub open spec fn without(disk: Disk, segs: Seq<SegmentView>, j: int) -> Disk {
    Map::new(
        |id: u64|
            disk.contains_key(id) && forall|a: int|
                0 <= a < j && a < segs.len() ==> (#[trigger] segs[a]).id != id,
        |id: u64| disk[id],
    )
}

/// Deleting the file of segment `j` after those of the segments before it.
pub proof fn lemma_without_step(disk: Disk, segs: Seq<SegmentView>, j: int)
    requires
        0 <= j < segs.len(),
    ensures
        without(disk, segs, j + 1) == apply_effect(
            without(disk, segs, j),
            EffectView::Delete(segs[j].id),
        ),
        without(disk, segs, 0) == disk,
{
    assert(without(disk, segs, j + 1) =~= without(disk, segs, j).remove(segs[j].id));
    assert(without(disk, segs, 0) =~= disk);
}

/// With the files of all old segments deleted, only the new segment's file
/// is left.
pub proof fn lemma_without_all(segs: Seq<SegmentView>, cid: u64, out: Seq<u8>)
    requires
        forall|a: int| 0 <= a < segs.len() ==> (#[trigger] segs[a]).id < cid,
    ensures
        without(image(segs).insert(cid, out), segs, segs.len() as int) == image(
            seq![SegmentView { id: cid, data: out }],
        ),
{
    let one = seq![SegmentView { id: cid, data: out }];
    let left = without(image(segs).insert(cid, out), segs, segs.len() as int);
    assert(ascending(one));
    lemma_data_of(one, 0);
    assert forall|x: u64| left.contains_key(x) <==> image(one).contains_key(x) by {
        if left.contains_key(x) && x != cid {
            let j = choose|j: int| 0 <= j < segs.len() && (#[trigger] segs[j]).id == x;
            assert(segs[j].id != x);
        }
        if has_segment(one, x) {
            let j = choose|j: int| 0 <= j < one.len() && (#[trigger] one[j]).id == x;
            assert(x == cid);
        }
    }
    assert(left =~= image(one));
}

} // verus!
