//! The reader of one segment.

use crate::command::Command;
use crate::engine::journal::{EffectView, LogEffect};
use crate::error::KvsError;
use crate::frame::{record_at, scan_record, RecordAt, Scanned};
use crate::log::names::{is_segment_name, named_id, segment_id};
use crate::log::{
    apply_entries, ascending, damaged, records, records_from, scan_end, Entry, LogPosition,
    SegmentView,
};
use vstd::hash_map::StringHashMap;
use vstd::prelude::*;
use vstd::utf8::encode_utf8;

verus! {

/// The ids and bytes of the given readers.
pub open spec fn views_of(readers: Seq<LogReader>) -> Seq<SegmentView> {
    Seq::new(readers.len(), |j: int| readers[j]@)
}

/// The segments among the files of a directory, each file given by its name
/// and its bytes: one for each file that has the name of a segment, in the
/// order of the files. Any other file is none of the store's.
pub open spec fn segment_files(files: Seq<(String, Vec<u8>)>) -> Seq<SegmentView>
    decreases files.len(),
{
    if files.len() == 0 {
        Seq::empty()
    } else {
        let rest = segment_files(files.drop_last());
        let name = encode_utf8(files.last().0@);
        if is_segment_name(name) {
            rest.push(SegmentView { id: named_id(name), data: files.last().1@ })
        } else {
            rest
        }
    }
}

/// Whether the ids of the segments do not descend.
pub open spec fn ordered(segs: Seq<SegmentView>) -> bool {
    forall|i: int, j: int| 0 <= i < j < segs.len() ==> (#[trigger] segs[i]).id <= (
    #[trigger] segs[j]).id
}

/// There is one way to put segments with different ids in the order of
/// their ids: two orderings of the same segments are the same where one of
/// them strictly ascends.
pub proof fn lemma_one_order(a: Seq<SegmentView>, b: Seq<SegmentView>)
    requires
        ascending(a),
        ordered(b),
        a.to_multiset() == b.to_multiset(),
    ensures
        a == b,
    decreases a.len(),
{
    a.to_multiset_ensures();
    b.to_multiset_ensures();
    assert(a.len() == a.to_multiset().len());
    assert(b.len() == b.to_multiset().len());
    if a.len() == 0 {
        assert(a =~= b);
    } else {
        let n = a.len() - 1;
        let la = a.last();
        let lb = b.last();
        assert(a.contains(la));
        assert(b.to_multiset().count(la) > 0);
        assert(b.contains(la));
        let j = choose|j: int| 0 <= j < b.len() && b[j] == la;
        assert(b.contains(lb));
        assert(a.to_multiset().count(lb) > 0);
        assert(a.contains(lb));
        let i = choose|i: int| 0 <= i < a.len() && a[i] == lb;
        if j < n {
            assert(b[j].id <= b[n].id);
        }
        if i < n {
            assert(a[i].id < a[n].id);
        }
        assert(la == lb);
        assert(a.drop_last() =~= a.remove(n));
        assert(b.drop_last() =~= b.remove(n));
        vstd::seq_lib::to_multiset_remove(a, n);
        vstd::seq_lib::to_multiset_remove(b, n);
        assert(ascending(a.drop_last())) by {
            assert forall|x: int, y: int| 0 <= x < y < a.drop_last().len() implies (
            #[trigger] a.drop_last()[x]).id < (#[trigger] a.drop_last()[y]).id by {
                assert(a[x].id < a[y].id);
            }
        }
        assert(ordered(b.drop_last())) by {
            assert forall|x: int, y: int| 0 <= x < y < b.drop_last().len() implies (
            #[trigger] b.drop_last()[x]).id <= (#[trigger] b.drop_last()[y]).id by {
                assert(b[x].id <= b[y].id);
            }
        }
        lemma_one_order(a.drop_last(), b.drop_last());
        assert(a =~= a.drop_last().push(la));
        assert(b =~= b.drop_last().push(lb));
    }
}

/// Whether no two of the segments have the same id.
pub open spec fn distinct_ids(segs: Seq<SegmentView>) -> bool {
    forall|a: int, b: int|
        0 <= a < b < segs.len() ==> (#[trigger] segs[a]).id != (#[trigger] segs[b]).id
}

/// Segments with different ids, put in the order of their ids, strictly
/// ascend.
pub proof fn lemma_distinct_ascend(sorted: Seq<SegmentView>, given: Seq<SegmentView>)
    requires
        ordered(sorted),
        sorted.to_multiset() == given.to_multiset(),
        distinct_ids(given),
    ensures
        ascending(sorted),
{
    broadcast use vstd::seq_lib::group_to_multiset_ensures;

    sorted.to_multiset_ensures();
    given.to_multiset_ensures();
    assert(given.no_duplicates()) by {
        assert forall|a: int, b: int| 0 <= a < given.len() && 0 <= b < given.len() && a
            != b implies given[a] != given[b] by {
            if a < b {
                assert(given[a].id != given[b].id);
            } else {
                assert(given[b].id != given[a].id);
            }
        }
    }
    given.lemma_multiset_has_no_duplicates();
    sorted.lemma_multiset_has_no_duplicates_conv();
    assert forall|i: int, j: int| 0 <= i < j < sorted.len() implies (#[trigger] sorted[i]).id < (
    #[trigger] sorted[j]).id by {
        assert(sorted[i] != sorted[j]);
        assert(sorted.contains(sorted[i]));
        assert(sorted.contains(sorted[j]));
        assert(given.to_multiset().count(sorted[i]) > 0);
        assert(given.to_multiset().count(sorted[j]) > 0);
        assert(given.contains(sorted[i]));
        assert(given.contains(sorted[j]));
        let a = choose|a: int| 0 <= a < given.len() && given[a] == sorted[i];
        let b = choose|b: int| 0 <= b < given.len() && given[b] == sorted[j];
        if a < b {
            assert(given[a].id != given[b].id);
        } else if b < a {
            assert(given[b].id != given[a].id);
        }
        assert(sorted[i].id <= sorted[j].id);
    }
}

/// Inserting into a sequence adds one element to what it holds.
proof fn lemma_insert_multiset(s: Seq<SegmentView>, i: int, x: SegmentView)
    requires
        0 <= i <= s.len(),
    ensures
        s.insert(i, x).to_multiset() == s.to_multiset().insert(x),
{
    broadcast use vstd::seq_lib::group_to_multiset_ensures;

    let t = s.insert(i, x);
    assert(t.remove(i) =~= s);
    vstd::seq_lib::to_multiset_remove(t, i);
    assert(t[i] == x);
    assert(t.contains(x));
    assert(t.to_multiset().remove(x).insert(x) =~= t.to_multiset());
}

/// The reader of one segment. It holds the bytes of the segment and a
/// cursor: the offset just past the record read last.
pub struct LogReader {
    id: u64,
    data: Vec<u8>,
    pos: usize,
}

impl View for LogReader {
    type V = SegmentView;

    closed spec fn view(&self) -> SegmentView {
        SegmentView { id: self.id, data: self.data@ }
    }
}

impl LogReader {
    /// The offset at which the reader stands.
    pub closed spec fn cursor(&self) -> int {
        self.pos as int
    }

    /// The reader of segment `id` with the given bytes, at offset zero.
    pub fn new(id: u64, data: Vec<u8>) -> (r: LogReader)
        ensures
            r@ == (SegmentView { id, data: data@ }),
            r.cursor() == 0,
    {
        LogReader { id, data, pos: 0 }
    }

    /// The readers of the segments among the files of a directory, in the
    /// order of their ids, each at offset zero. Files that do not have the
    /// name of a segment are left out. Where no two files have the name of
    /// one segment, as in a directory, the ids strictly ascend.
    pub fn open(files: Vec<(String, Vec<u8>)>) -> (readers: Vec<LogReader>)
        ensures
            ordered(views_of(readers@)),
            views_of(readers@).to_multiset() == segment_files(files@).to_multiset(),
            forall|j: int| 0 <= j < readers@.len() ==> (#[trigger] readers@[j]).cursor() == 0,
            distinct_ids(segment_files(files@)) ==> ascending(views_of(readers@)),
    {
        broadcast use vstd::seq_lib::group_to_multiset_ensures;

        let mut files = files;
        let ghost all = files@;
        let mut readers: Vec<LogReader> = Vec::new();
        proof {
            assert(views_of(readers@) =~= Seq::<SegmentView>::empty());
            assert(views_of(readers@).to_multiset().add(segment_files(files@).to_multiset())
                =~= segment_files(all).to_multiset());
        }
        while files.len() > 0
            invariant
                ordered(views_of(readers@)),
                views_of(readers@).to_multiset().add(segment_files(files@).to_multiset())
                    == segment_files(all).to_multiset(),
                forall|j: int| 0 <= j < readers@.len() ==> (#[trigger] readers@[j]).cursor() == 0,
            decreases files@.len(),
        {
            let ghost before = files@;
            let ghost had = views_of(readers@);
            let (name, data) = files.pop().unwrap();
            proof {
                assert(files@ =~= before.drop_last());
            }
            match segment_id(name.as_str()) {
                Some(id) => {
                    proof {
                        crate::log::names::lemma_segment_name(encode_utf8(name@), id);
                    }
                    let mut at: usize = 0;
                    while at < readers.len() && readers[at].id() <= id
                        invariant
                            at <= readers@.len(),
                            forall|i: int| 0 <= i < at ==> (#[trigger] readers@[i])@.id <= id,
                            forall|j: int|
                                0 <= j < readers@.len() ==> (#[trigger] readers@[j]).cursor()
                                    == 0,
                        decreases readers@.len() - at,
                    {
                        at += 1;
                    }
                    let reader = LogReader::new(id, data);
                    let ghost seg = reader@;
                    readers.insert(at, reader);
                    proof {
                        let now = views_of(readers@);
                        assert(now =~= had.insert(at as int, seg));
                        lemma_insert_multiset(had, at as int, seg);
                        assert(segment_files(before) == segment_files(files@).push(seg));
                        assert(ordered(now)) by {
                            assert forall|i: int, j: int| 0 <= i < j < now.len() implies (
                            #[trigger] now[i]).id <= (#[trigger] now[j]).id by {
                                if i < at && j > at {
                                    assert(now[i] == had[i]);
                                    assert(now[j] == had[j - 1]);
                                } else if i == at {
                                    assert(now[j] == had[j - 1]);
                                    assert(had[at as int].id <= had[j - 1].id || j - 1 == at);
                                } else if j == at {
                                    assert(now[i] == had[i]);
                                } else if j < at {
                                    assert(now[i] == had[i] && now[j] == had[j]);
                                } else {
                                    assert(now[i] == had[i - 1] && now[j] == had[j - 1]);
                                }
                            }
                        }
                        let rest = segment_files(files@);
                        vstd::seq_lib::to_multiset_build(rest, seg);
                        assert(segment_files(before).to_multiset() =~= rest.to_multiset().insert(
                            seg,
                        ));
                        assert(now.to_multiset() =~= had.to_multiset().insert(seg));
                        assert(had.to_multiset().insert(seg).add(rest.to_multiset())
                            =~= had.to_multiset().add(rest.to_multiset().insert(seg)));
                        assert(now.to_multiset().add(rest.to_multiset()) =~= segment_files(
                            all,
                        ).to_multiset());
                    }
                },
                None => {
                    proof {
                        assert(segment_files(before) == segment_files(files@));
                    }
                },
            }
        }
        proof {
            assert(segment_files(files@) =~= Seq::<SegmentView>::empty());
            assert(views_of(readers@).to_multiset().add(
                Seq::<SegmentView>::empty().to_multiset(),
            ) =~= views_of(readers@).to_multiset());
            if distinct_ids(segment_files(all)) {
                lemma_distinct_ascend(views_of(readers@), segment_files(all));
            }
        }
        readers
    }

    /// The id of the segment.
    pub fn id(&self) -> (id: u64)
        ensures
            id == self@.id,
    {
        self.id
    }

    /// The effect that deletes the file of the segment.
    pub fn remove(&self) -> (e: LogEffect)
        ensures
            e@ == EffectView::Delete(self@.id),
    {
        LogEffect::Delete(self.id)
    }

    /// The bytes of the segment.
    pub fn bytes(&self) -> (data: &[u8])
        ensures
            data@ == self@.data,
    {
        self.data.as_slice()
    }

    /// Reads the record whose frame starts at `pos`. Where fewer than the
    /// eight bytes of a length prefix are left, the segment has ended and there
    /// is none. A frame that is cut short or holds no request is corruption.
    /// After a record the reader stands just past it, otherwise at `pos`.
    pub fn read(&mut self, pos: usize) -> (r: Result<Option<Command>, KvsError>)
        ensures
            final(self)@ == old(self)@,
            match record_at(old(self)@.data, pos as int) {
                RecordAt::End => r matches Ok(None) && final(self).cursor() == pos,
                RecordAt::Truncated => r matches Err(KvsError::Corruption) && final(self).cursor()
                    == pos,
                RecordAt::Corrupt => r matches Err(KvsError::Corruption) && final(self).cursor()
                    == pos,
                RecordAt::Record(c, next) => r matches Ok(Some(cmd)) && cmd@ == c
                    && final(self).cursor() == next,
            },
    {
        self.pos = pos;
        match scan_record(self.data.as_slice(), pos) {
            Scanned::End => Ok(None),
            Scanned::Truncated => Err(KvsError::Corruption),
            Scanned::Corrupt => Err(KvsError::Corruption),
            Scanned::Record(cmd, next) => {
                self.pos = next;
                Ok(Some(cmd))
            },
        }
    }

    /// Replays the records of the segment into `index`: each `Put` record
    /// enters its key with the record's position, each `Remove` record takes
    /// its key out. The replay ends cleanly where the bytes end or a frame is
    /// cut short; it fails at a whole frame that holds no request. Returns
    /// the offset at which the replay ended, and whether it ended cleanly.
    pub fn replay_into(&self, index: &mut StringHashMap<LogPosition>) -> (r: (usize, bool))
        ensures
            r.0 == scan_end(self@.data, 0),
            r.1 == !damaged(self@.data),
            final(index)@ == apply_entries(old(index)@, self@.id, records(self@.data)),
            self@.data.len() <= usize::MAX,
    {
        let data = self.data.as_slice();
        let size = data.len();
        let mut at: usize = 0;
        let ghost done = Seq::<Entry>::empty();
        assert(done + records_from(data@, 0) =~= records(data@));
        loop
            invariant
                data@ == self.data@,
                at <= data@.len() == size,
                records(data@) == done + records_from(data@, at as int),
                scan_end(data@, 0) == scan_end(data@, at as int),
                index@ == apply_entries(old(index)@, self.id, done),
            decreases data@.len() - at,
        {
            match scan_record(data, at) {
                Scanned::Record(cmd, next) => {
                    let ghost e = Entry { at: at as int, cmd: cmd@ };
                    proof {
                        assert(done.push(e) + records_from(data@, next as int) =~= done
                            + records_from(data@, at as int));
                        assert(done.push(e).drop_last() =~= done);
                    }
                    match cmd {
                        Command::Put(key, _) => {
                            index.insert(key, LogPosition::new(self.id, at));
                        },
                        Command::Get(_) => {},
                        Command::Remove(key) => {
                            index.remove(key.as_str());
                        },
                    }
                    proof {
                        done = done.push(e);
                    }
                    at = next;
                },
                Scanned::Corrupt => {
                    proof {
                        assert(done + Seq::<Entry>::empty() =~= done);
                    }
                    return (at, false);
                },
                _ => {
                    proof {
                        assert(done + Seq::<Entry>::empty() =~= done);
                    }
                    return (at, true);
                },
            }
        }
    }

    /// Replays the segment into `index`, as `replay_into` does, and leaves
    /// the reader where the replay ended. A whole frame that holds no request
    /// is corruption.
    pub fn load_all(&mut self, index: &mut StringHashMap<LogPosition>) -> (r: Result<
        (),
        KvsError,
    >)
        ensures
            final(self)@ == old(self)@,
            final(self).cursor() == scan_end(old(self)@.data, 0),
            final(index)@ == apply_entries(
                old(index)@,
                old(self)@.id,
                records(old(self)@.data),
            ),
            damaged(old(self)@.data) ==> r matches Err(KvsError::Corruption),
            !damaged(old(self)@.data) ==> r is Ok,
    {
        let (end, whole) = self.replay_into(index);
        self.pos = end;
        if whole {
            Ok(())
        } else {
            Err(KvsError::Corruption)
        }
    }
}

} // verus!
