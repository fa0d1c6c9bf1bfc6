//! The store's logic: the list of segments, oldest first, with flushing,
//! lookups through the segments, compaction of the two oldest, and replay of
//! the write-ahead log.
use vstd::prelude::*;
use crate::compaction::{compact, lemma_merge_law, lookup_newest_first, merge};
use crate::error::Error;
use crate::memtable::{apply_entries, pair_entries, value_view, Memtable};
use crate::segment::{
    decode_entries, decodes_to, keys_ascending, lookup, tombstone, views,
    Entry, EntryView,
};
use crate::segment_handle::{found_view, SegmentHandle};
use crate::segment::{segment_file_number, segment_number_of};

verus! {

/// What the runs, oldest first, say of `k`: the newest run with an entry for
/// `k` decides.
pub open spec fn lookup_runs(runs: Seq<Seq<EntryView>>, k: Seq<char>) -> Option<Option<Seq<char>>>
    decreases runs.len(),
{
    if runs.len() == 0 {
        None
    } else if lookup(runs.last(), k) is Some {
        lookup(runs.last(), k)
    } else {
        lookup_runs(runs.drop_last(), k)
    }
}

pub const DEFAULT_COMPACTION_INTERVAL_SECONDS: u64 = 600;

#[derive(Debug)]
pub struct StoreArgs {
    /// Whether a background compactor runs.
    pub compaction_enabled: bool,
    /// The seconds between two compaction steps.
    pub compaction_interval_seconds: u64,
}

impl Default for StoreArgs {
    fn default() -> (r: Self)
        ensures
            r.compaction_enabled,
            r.compaction_interval_seconds == DEFAULT_COMPACTION_INTERVAL_SECONDS,
    {
        StoreArgs { compaction_enabled: true, compaction_interval_seconds: DEFAULT_COMPACTION_INTERVAL_SECONDS }
    }
}

/// Ids of segments are positive and strictly ascend, oldest first.
pub open spec fn ids_ascending(ids: Seq<u32>) -> bool {
    &&& forall|i: int| 0 <= i < ids.len() ==> #[trigger] ids[i] > 0
    &&& forall|i: int, j: int| 0 <= i < j < ids.len() ==> #[trigger] ids[i] < #[trigger] ids[j]
}

/// The ids of the segment files among `names` (see `segment_file_number`),
/// in ascending order, each once.
pub fn segment_ids(names: &Vec<String>) -> (r: Vec<u32>)
    ensures
        forall|i: int, j: int| 0 <= i < j < r@.len() ==> #[trigger] r@[i] < #[trigger] r@[j],
        forall|id: u32|
            #[trigger] r@.contains(id) <==> exists|i: int|
                0 <= i < names@.len() && segment_number_of(#[trigger] names@[i]@) == Some(id),
{
    let mut ids: Vec<u32> = Vec::new();
    let mut n: usize = 0;
    while n < names.len()
        invariant
            n <= names@.len(),
            forall|i: int, j: int| 0 <= i < j < ids@.len() ==> #[trigger] ids@[i] < #[trigger] ids@[j],
            forall|id: u32|
                #[trigger] ids@.contains(id) <==> exists|i: int|
                    0 <= i < n && segment_number_of(#[trigger] names@[i]@) == Some(id),
        decreases names.len() - n,
    {
        if let Some(id) = segment_file_number(names[n].as_str()) {
            let mut p: usize = 0;
            while p < ids.len() && ids[p] < id
                invariant
                    p <= ids@.len(),
                    forall|i: int| 0 <= i < p ==> #[trigger] ids@[i] < id,
                decreases ids.len() - p,
            {
                p = p + 1;
            }
            let ghost before = ids@;
            if p == ids.len() || ids[p] != id {
                ids.insert(p, id);
                proof {
                    assert forall|i: int, j: int| 0 <= i < j < ids@.len() implies #[trigger] ids@[i]
                        < #[trigger] ids@[j] by {
                        if j < p {
                            assert(ids@[i] == before[i] && ids@[j] == before[j]);
                        } else if j == p {
                            assert(ids@[i] == before[i]);
                        } else if i == p {
                            assert(ids@[j] == before[j - 1]);
                            if j - 1 > p {
                                assert(before[p as int] < before[j - 1]);
                            }
                        } else if i < p {
                            assert(ids@[i] == before[i] && ids@[j] == before[j - 1]);
                        } else {
                            assert(ids@[i] == before[i - 1] && ids@[j] == before[j - 1]);
                        }
                    }
                    assert forall|x: u32| #[trigger] ids@.contains(x) <==> before.contains(x) || x == id by {
                        if ids@.contains(x) {
                            let k = choose|k: int| 0 <= k < ids@.len() && ids@[k] == x;
                            if k < p {
                                assert(before[k] == x);
                            } else if k > p {
                                assert(before[k - 1] == x);
                            }
                        }
                        if before.contains(x) {
                            let k = choose|k: int| 0 <= k < before.len() && before[k] == x;
                            if k < p {
                                assert(ids@[k] == x);
                            } else {
                                assert(ids@[k + 1] == x);
                            }
                        }
                        if x == id {
                            assert(ids@[p as int] == x);
                        }
                    }
                }
            } else {
                assert(ids@[p as int] == id);
            }
        }
        proof {
            assert forall|id: u32|
                #[trigger] ids@.contains(id) <==> exists|i: int|
                    0 <= i < n + 1 && segment_number_of(#[trigger] names@[i]@) == Some(id) by {
                if segment_number_of(names@[n as int]@) == Some(id) {
                    assert(0 <= n < n + 1);
                }
                if exists|i: int| 0 <= i < n + 1 && segment_number_of(#[trigger] names@[i]@) == Some(id) {
                    let i = choose|i: int| 0 <= i < n + 1 && segment_number_of(#[trigger] names@[i]@) == Some(id);
                    if i < n {
                        assert(exists|i: int| 0 <= i < n && segment_number_of(#[trigger] names@[i]@) == Some(id));
                    }
                }
            }
        }
        n = n + 1;
    }
    ids
}

/// The segments of a store, oldest first, each with its id.
pub struct SegmentList {
    segments: Vec<(u32, SegmentHandle)>,
}

impl SegmentList {
    /// The entries of each segment, oldest first.
    pub closed spec fn runs(&self) -> Seq<Seq<EntryView>> {
        self.segments@.map_values(|s: (u32, SegmentHandle)| s.1.entries())
    }

    /// The id of each segment, oldest first.
    pub closed spec fn ids(&self) -> Seq<u32> {
        self.segments@.map_values(|s: (u32, SegmentHandle)| s.0)
    }

    pub closed spec fn wf(&self) -> bool {
        &&& forall|i: int| 0 <= i < self.segments@.len() ==> (#[trigger] self.segments@[i]).1.wf()
        &&& ids_ascending(self.ids())
    }

    /// The keys of every segment strictly ascend.
    pub proof fn lemma_runs_ascending(&self)
        requires
            self.wf(),
        ensures
            forall|i: int| 0 <= i < self.runs().len() ==> keys_ascending(#[trigger] self.runs()[i]),
    {
        assert forall|i: int| 0 <= i < self.runs().len() implies keys_ascending(#[trigger] self.runs()[i]) by {
            assert(self.segments@[i].1.wf());
        }
    }

    /// The ids ascend, one for each segment.
    pub proof fn lemma_ids(&self)
        requires
            self.wf(),
        ensures
            ids_ascending(self.ids()),
            self.ids().len() == self.runs().len(),
    {
    }

    pub fn new() -> (r: Self)
        ensures
            r.wf(),
            r.runs() == Seq::<Seq<EntryView>>::empty(),
            r.ids() == Seq::<u32>::empty(),
    {
        let r = SegmentList { segments: Vec::new() };
        assert(r.runs() =~= Seq::<Seq<EntryView>>::empty());
        assert(r.ids() =~= Seq::<u32>::empty());
        r
    }

    pub fn len(&self) -> (r: usize)
        ensures
            r == self.runs().len(),
            r == self.ids().len(),
    {
        self.segments.len()
    }

    /// The id of the segment at `i`.
    pub fn id(&self, i: usize) -> (r: u32)
        requires
            i < self.runs().len(),
        ensures
            self.ids().len() == self.runs().len(),
            r == self.ids()[i as int],
    {
        self.segments[i].0
    }

    /// The bytes of the segment at `i`.
    pub fn bytes(&self, i: usize) -> (r: &[u8])
        requires
            self.wf(),
            i < self.runs().len(),
        ensures
            decodes_to(r@, self.runs()[i as int]),
    {
        proof {
            assert(self.segments@[i as int].1.wf());
        }
        self.segments[i].1.bytes_slice()
    }

    /// The id that the next flushed segment gets: one above the newest id,
    /// or 1 for an empty list; `None` when the newest id is `u32::MAX`.
    pub fn next_id(&self) -> (r: Option<u32>)
        ensures
            self.ids().len() == 0 ==> r == Some(1u32),
            self.ids().len() > 0 ==> (r is None <==> self.ids().last() == u32::MAX),
            self.ids().len() > 0 && r is Some ==> r == Some((self.ids().last() + 1) as u32),
    {
        let n = self.segments.len();
        if n == 0 {
            Some(1)
        } else {
            let last = self.segments[n - 1].0;
            if last == u32::MAX {
                None
            } else {
                Some(last + 1)
            }
        }
    }

    /// Appends `handle` as the newest segment, with id `id`.
    pub fn push(&mut self, id: u32, handle: SegmentHandle)
        requires
            old(self).wf(),
            handle.wf(),
            id > 0,
            old(self).ids().len() > 0 ==> old(self).ids().last() < id,
        ensures
            final(self).wf(),
            final(self).runs() == old(self).runs().push(handle.entries()),
            final(self).ids() == old(self).ids().push(id),
    {
        let ghost h = handle;
        self.segments.push((id, handle));
        assert(self.runs() =~= old(self).runs().push(h.entries()));
        assert(self.ids() =~= old(self).ids().push(id));
        assert forall|i: int| 0 <= i < self.segments@.len() implies (#[trigger] self.segments@[i]).1.wf() by {
            if i < old(self).segments@.len() {
                assert(self.segments@[i] == old(self).segments@[i]);
            }
        }
    }

    /// Looks `key` up through the segments, newest first: the first segment
    /// with an entry for the key decides.
    pub fn get(&self, key: &str) -> (r: Option<Option<String>>)
        requires
            self.wf(),
        ensures
            found_view(r) == lookup_runs(self.runs(), key@),
    {
        let mut i = self.segments.len();
        let ghost runs = self.runs();
        assert(runs.take(i as int) =~= runs);
        while i > 0
            invariant
                self.wf(),
                runs == self.runs(),
                i <= runs.len(),
                lookup_runs(runs, key@) == lookup_runs(runs.take(i as int), key@),
            decreases i,
        {
            assert(self.segments@[i - 1].1.wf());
            let found = self.segments[i - 1].1.get(key);
            proof {
                assert(runs.take(i as int).last() == runs[i - 1]);
                assert(runs.take(i as int).drop_last() =~= runs.take(i - 1));
            }
            if found.is_some() {
                return found;
            }
            i = i - 1;
        }
        None
    }

    /// Merges the two oldest segments into one that takes the place, and the
    /// id, of the newer of the two. Returns the ids of the older segment,
    /// which is gone, and of the merged one; `None` when there are fewer than
    /// two segments.
    pub fn compact_oldest(&mut self) -> (r: Option<(u32, u32)>)
        requires
            old(self).wf(),
        ensures
            final(self).wf(),
            old(self).runs().len() < 2 ==> r is None && final(self).runs() == old(self).runs()
                && final(self).ids() == old(self).ids(),
            old(self).runs().len() >= 2 ==> {
                &&& r == Some((old(self).ids()[0], old(self).ids()[1]))
                &&& final(self).ids() == old(self).ids().drop_first()
                &&& final(self).runs() == seq![
                    merge(old(self).runs()[0], old(self).runs()[1]),
                ] + old(self).runs().skip(2)
            },
            forall|k: Seq<char>|
                #[trigger] lookup_runs(final(self).runs(), k) == lookup_runs(old(self).runs(), k),
    {
        if self.segments.len() < 2 {
            return None;
        }
        let ghost runs = self.runs();
        let ghost a = runs[0];
        let ghost b = runs[1];
        proof {
            assert(self.segments@[0].1.wf());
            assert(self.segments@[1].1.wf());
        }
        let handle = match merged_handle(&self.segments[0].1, &self.segments[1].1) {
            Some(h) => h,
            None => {
                return None;
            },
        };
        let first_id = self.segments[0].0;
        let second_id = self.segments[1].0;
        let ghost old_segments = self.segments@;
        self.segments.remove(0);
        self.segments.set(0, (second_id, handle));
        proof {
            assert(self.runs() =~= seq![merge(a, b)] + runs.skip(2));
            assert(self.ids() =~= old(self).ids().drop_first());
            assert forall|i: int| 0 <= i < self.segments@.len() implies (#[trigger] self.segments@[i]).1.wf() by {
                if i > 0 {
                    assert(self.segments@[i] == old_segments[i + 1]);
                }
            }
            lemma_lookup_runs_compacted(runs);
        }
        Some((first_id, second_id))
    }
}

/// Opens the merge of two segments, the second the newer.
fn merged_handle(first: &SegmentHandle, second: &SegmentHandle) -> (r: Option<SegmentHandle>)
    requires
        first.wf(),
        second.wf(),
    ensures
        r is Some,
        r matches Some(h) ==> h.wf() && h.entries() == merge(first.entries(), second.entries()),
{
    let ghost a = first.entries();
    let ghost b = second.entries();
    let merged = compact(first.bytes_slice(), second.bytes_slice());
    assert(decodes_to(first.bytes(), a) && decodes_to(second.bytes(), b));
    let bytes = match merged {
        Ok(bytes) => bytes,
        Err(_) => {
            return None;
        },
    };
    proof {
        lemma_merge_law(a, b);
    }
    match SegmentHandle::open(bytes) {
        Ok(h) => {
            proof {
                crate::segment::lemma_decode_unique(h.bytes(), h.entries(), merge(a, b));
            }
            Some(h)
        },
        Err(_) => None,
    }
}

/// Replacing the two oldest runs by their merge keeps every lookup.
pub proof fn lemma_lookup_runs_compacted(runs: Seq<Seq<EntryView>>)
    requires
        runs.len() >= 2,
        keys_ascending(runs[0]),
        keys_ascending(runs[1]),
    ensures
        forall|k: Seq<char>|
            #[trigger] lookup_runs(seq![merge(runs[0], runs[1])] + runs.skip(2), k) == lookup_runs(
                runs,
                k,
            ),
    decreases runs.len(),
{
    lemma_merge_law(runs[0], runs[1]);
    let c = seq![merge(runs[0], runs[1])] + runs.skip(2);
    if runs.len() == 2 {
        assert forall|k: Seq<char>| #[trigger] lookup_runs(c, k) == lookup_runs(runs, k) by {
            assert(c.drop_last() =~= Seq::<Seq<EntryView>>::empty());
            assert(runs.drop_last().drop_last() =~= Seq::<Seq<EntryView>>::empty());
            assert(lookup(merge(runs[0], runs[1]), k) == lookup_newest_first(runs[0], runs[1], k));
            let d = runs.drop_last();
            assert(c.last() == merge(runs[0], runs[1]));
            assert(runs.last() == runs[1] && d.last() == runs[0]);
            assert(lookup_runs(d.drop_last(), k) is None);
            assert(lookup_runs(c.drop_last(), k) is None);
            assert(lookup_runs(d, k) == (if lookup(runs[0], k) is Some {
                lookup(runs[0], k)
            } else {
                lookup_runs(d.drop_last(), k)
            }));
        }
    } else {
        let d = runs.drop_last();
        lemma_lookup_runs_compacted(d);
        assert(c.drop_last() =~= seq![merge(d[0], d[1])] + d.skip(2));
        assert(c.last() == runs.last());
        assert forall|k: Seq<char>| #[trigger] lookup_runs(c, k) == lookup_runs(runs, k) by {
            assert(d[0] == runs[0] && d[1] == runs[1]);
            assert(lookup_runs(seq![merge(d[0], d[1])] + d.skip(2), k) == lookup_runs(d, k));
            assert(lookup_runs(c.drop_last(), k) == lookup_runs(d, k));
            assert(c.len() > 0 && runs.len() > 0);
            assert(lookup_runs(runs, k) == (if lookup(runs.last(), k) is Some {
                lookup(runs.last(), k)
            } else {
                lookup_runs(d, k)
            }));
            assert(lookup_runs(c, k) == (if lookup(c.last(), k) is Some {
                lookup(c.last(), k)
            } else {
                lookup_runs(c.drop_last(), k)
            }));
        }
    }
}

/// The bytes of a segment holding the memtable's entries, in key order.
pub fn encode_memtable(memtable: &Memtable) -> (r: Result<Vec<u8>, Error>)
    requires
        memtable.wf(),
    ensures
        r matches Ok(bytes) ==> decodes_to(bytes@, memtable.entries()),
        r is Ok <==> forall|i: int|
            0 <= i < memtable.entries().len() ==> (#[trigger] memtable.entries()[i]).encodable(),
        r matches Err(e) ==> e is TooLarge,
{
    let pairs = memtable.iter();
    let ghost es = memtable.entries();
    let mut out: Vec<u8> = Vec::new();
    let mut i: usize = 0;
    assert(es.take(0) =~= Seq::<EntryView>::empty());
    while i < pairs.len()
        invariant
            es == pair_entries(pairs@),
            es == memtable.entries(),
            i <= pairs@.len(),
            decodes_to(out@, es.take(i as int)),
        decreases pairs.len() - i,
    {
        let written = match &pairs[i].1 {
            Some(value) => crate::segment::write(&mut out, pairs[i].0.as_str(), value.as_str()),
            None => tombstone(&mut out, pairs[i].0.as_str()),
        };
        if written.is_err() {
            assert(es[i as int] == crate::memtable::entry_of(pairs@[i as int].0@, value_view(pairs@[i as int].1)));
            assert(!es[i as int].encodable());
            return Err(match written {
                Err(e) => e,
                Ok(_) => Error::Poison,
            });
        }
        proof {
            assert(es.take(i + 1).drop_last() =~= es.take(i as int));
            assert(es.take(i + 1).last() == es[i as int]);
            assert forall|j: int| 0 <= j < i + 1 implies (#[trigger] es.take(i + 1)[j]).encodable() by {
                if j < i {
                    assert(es.take(i + 1)[j] == es.take(i as int)[j]);
                }
            }
        }
        i = i + 1;
    }
    assert(es.take(i as int) =~= es);
    Ok(out)
}

/// Applies each entry of the write-ahead log `wal`, in order, to `memtable`:
/// an assignment sets its key, a tombstone deletes it.
pub fn replay_wal(wal: &[u8], memtable: &mut Memtable) -> (r: Result<(), Error>)
    requires
        old(memtable).wf(),
    ensures
        final(memtable).wf(),
        final(memtable).spec_capacity() == old(memtable).spec_capacity(),
        r is Ok <==> exists|es: Seq<EntryView>| decodes_to(wal@, es),
        forall|es: Seq<EntryView>|
            #[trigger] decodes_to(wal@, es) ==> final(memtable)@ == apply_entries(old(memtable)@, es),
        r is Err ==> final(memtable)@ == old(memtable)@,
        r matches Err(e) ==> e is Malformed,
{
    let entries = match decode_entries(wal) {
        Ok(v) => v,
        Err(e) => {
            return Err(e);
        },
    };
    let ghost es = views(entries@);
    let ghost start = memtable@;
    let mut i: usize = 0;
    assert(es.take(0) =~= Seq::<EntryView>::empty());
    while i < entries.len()
        invariant
            es == views(entries@),
            i <= entries@.len(),
            memtable.wf(),
            memtable.spec_capacity() == old(memtable).spec_capacity(),
            start == old(memtable)@,
            memtable@ == apply_entries(start, es.take(i as int)),
        decreases entries.len() - i,
    {
        match &entries[i] {
            Entry::Assignment { key, value } => memtable.set(key.as_str(), value.as_str()),
            Entry::Tombstone { key } => memtable.delete(key.as_str()),
        }
        proof {
            assert(es.take(i + 1).drop_last() =~= es.take(i as int));
            assert(es.take(i + 1).last() == es[i as int]);
        }
        i = i + 1;
    }
    proof {
        assert(es.take(i as int) =~= es);
        assert forall|es2: Seq<EntryView>| #[trigger] decodes_to(wal@, es2) implies memtable@ == apply_entries(
            start,
            es2,
        ) by {
            crate::segment::lemma_decode_unique(wal@, es, es2);
        }
    }
    Ok(())
}

} // verus!
