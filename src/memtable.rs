//! The memtable: recent writes and tombstones, held in memory in key order.
use vstd::prelude::*;
use std::cmp::Ordering;
use crate::segment::{keys_ascending, lemma_lookup_index, lookup, EntryView};
use crate::keys::{
    compare_keys, key_lt, lemma_key_order_auto, insert_pair, lemma_pairs_map_index, lemma_pairs_map_len, lower_bound, pairs_map,
    strictly_ascending,
};

verus! {

pub const DEFAULT_CAPACITY: usize = 1024;

/// The view of a stored value: `None` stands for a tombstone.
pub open spec fn value_view(v: Option<String>) -> Option<Seq<char>> {
    match v {
        Some(s) => Some(s@),
        None => None,
    }
}

/// The entry that records `key` holding `value` (a tombstone for `None`).
pub open spec fn entry_of(key: Seq<char>, value: Option<Seq<char>>) -> EntryView {
    match value {
        Some(v) => EntryView::Assignment { key, value: v },
        None => EntryView::Tombstone { key },
    }
}

/// The entries of a vector of pairs.
pub open spec fn pair_entries(s: Seq<(String, Option<String>)>) -> Seq<EntryView> {
    s.map_values(|p: (String, Option<String>)| entry_of(p.0@, value_view(p.1)))
}

/// The map that results from applying the entries `es`, in order, to `m`.
pub open spec fn apply_entries(
    m: Map<Seq<char>, Option<Seq<char>>>,
    es: Seq<EntryView>,
) -> Map<Seq<char>, Option<Seq<char>>>
    decreases es.len(),
{
    if es.len() == 0 {
        m
    } else {
        apply_entries(m, es.drop_last()).insert(es.last().key(), es.last().value())
    }
}

#[derive(Debug)]
pub struct MemtableArgs {
    /// The number of keys at which the memtable is full.
    pub capacity: usize,
}

impl Default for MemtableArgs {
    fn default() -> (r: Self)
        ensures
            r.capacity == DEFAULT_CAPACITY,
    {
        MemtableArgs { capacity: DEFAULT_CAPACITY }
    }
}

/// An ordered map from keys to values, where a key mapped to `None` has been
/// deleted (a tombstone).
pub struct Memtable {
    tree: Vec<(String, Option<String>)>,
    capacity: usize,
}

impl View for Memtable {
    type V = Map<Seq<char>, Option<Seq<char>>>;

    closed spec fn view(&self) -> Map<Seq<char>, Option<Seq<char>>> {
        pairs_map(self.tree@).map_values(|v: Option<String>| value_view(v))
    }
}

impl Memtable {
    /// The pairs are held in strictly ascending key order.
    pub closed spec fn wf(&self) -> bool {
        strictly_ascending(self.tree@)
    }

    /// The memtable's entries, in ascending key order.
    pub closed spec fn entries(&self) -> Seq<EntryView> {
        pair_entries(self.tree@)
    }

    /// The entries' keys ascend, and a lookup in them finds what the map
    /// holds.
    pub proof fn lemma_entries(&self)
        requires
            self.wf(),
        ensures
            keys_ascending(self.entries()),
            forall|k: Seq<char>|
                #[trigger] lookup(self.entries(), k) == (if self@.contains_key(k) {
                    Some(self@[k])
                } else {
                    None
                }),
    {
        let es = self.entries();
        assert(keys_ascending(es));
        assert forall|k: Seq<char>|
            #[trigger] lookup(es, k) == (if self@.contains_key(k) {
                Some(self@[k])
            } else {
                None
            }) by {
            lemma_lookup_index(es, k);
            if self@.contains_key(k) {
                let i = crate::keys::index_of(self.tree@, k);
                lemma_pairs_map_index(self.tree@, i);
                assert(es[i].key() == k);
            } else {
                assert forall|i: int| 0 <= i < es.len() implies (#[trigger] es[i]).key() != k by {
                    lemma_pairs_map_index(self.tree@, i);
                }
            }
        }
    }

    /// Entries whose keys and values all fit their length prefixes.
    pub proof fn lemma_entries_encodable(&self)
        requires
            self.wf(),
            forall|k: Seq<char>| #[trigger] self@.contains_key(k) ==> entry_of(k, self@[k]).encodable(),
        ensures
            forall|i: int| 0 <= i < self.entries().len() ==> (#[trigger] self.entries()[i]).encodable(),
    {
        assert forall|i: int| 0 <= i < self.entries().len() implies (#[trigger] self.entries()[i]).encodable() by {
            lemma_pairs_map_index(self.tree@, i);
            assert(self@.contains_key(self.tree@[i].0@));
        }
    }

    pub closed spec fn spec_capacity(&self) -> usize {
        self.capacity
    }

    pub fn new(args: MemtableArgs) -> (r: Self)
        ensures
            r.wf(),
            r@ == Map::<Seq<char>, Option<Seq<char>>>::empty(),
            r.spec_capacity() == args.capacity,
    {
        let r = Memtable { tree: Vec::new(), capacity: args.capacity };
        assert(r@ =~= Map::<Seq<char>, Option<Seq<char>>>::empty());
        r
    }

    /// Sets `key` to `value`.
    pub fn set(&mut self, key: &str, value: &str)
        requires
            old(self).wf(),
        ensures
            final(self).wf(),
            final(self)@ == old(self)@.insert(key@, Some(value@)),
            final(self).spec_capacity() == old(self).spec_capacity(),
    {
        let ghost before = pairs_map(self.tree@);
        insert_pair(&mut self.tree, key.to_owned(), Some(value.to_owned()));
        assert(self@ =~= old(self)@.insert(key@, Some(value@)));
    }

    /// Records that `key` is deleted, with a tombstone.
    pub fn delete(&mut self, key: &str)
        requires
            old(self).wf(),
        ensures
            final(self).wf(),
            final(self)@ == old(self)@.insert(key@, None),
            final(self).spec_capacity() == old(self).spec_capacity(),
    {
        insert_pair(&mut self.tree, key.to_owned(), None);
        assert(self@ =~= old(self)@.insert(key@, None));
    }

    /// Looks `key` up: `None` when the memtable knows nothing of it,
    /// `Some(None)` for a tombstone, `Some(Some(value))` for a value.
    pub fn get(&self, key: &str) -> (r: Option<Option<String>>)
        requires
            self.wf(),
        ensures
            r is None <==> !self@.contains_key(key@),
            r matches Some(v) ==> value_view(v) == self@[key@],
    {
        let s = &self.tree;
        let p = lower_bound(s, key);
        if p < s.len() && matches!(compare_keys(s[p].0.as_str(), key), Ordering::Equal) {
            proof {
                lemma_pairs_map_index(s@, p as int);
            }
            match &s[p].1 {
                Some(v) => Some(Some(v.clone())),
                None => Some(None),
            }
        } else {
            proof {
                broadcast use lemma_key_order_auto;

                if self@.contains_key(key@) {
                    let i = crate::keys::index_of(s@, key@);
                    assert(s@[i].0@ == key@);
                    if i > p {
                        assert(key_lt(s@[p as int].0@, s@[i].0@));
                    }
                }
            }
            None
        }
    }

    /// Whether the memtable holds as many keys as its capacity, or more.
    pub fn full(&self) -> (r: bool)
        requires
            self.wf(),
        ensures
            r == (self@.len() >= self.spec_capacity()),
    {
        proof {
            lemma_pairs_map_len(self.tree@);
            assert(self@.dom() =~= pairs_map(self.tree@).dom());
        }
        self.tree.len() >= self.capacity
    }

    /// The keys with their values, in ascending key order.
    pub fn iter(&self) -> (r: &Vec<(String, Option<String>)>)
        requires
            self.wf(),
        ensures
            strictly_ascending(r@),
            pairs_map(r@).map_values(|v: Option<String>| value_view(v)) == self@,
            pair_entries(r@) == self.entries(),
    {
        &self.tree
    }

    /// Empties the memtable.
    pub fn reset(&mut self)
        ensures
            final(self).wf(),
            final(self)@ == Map::<Seq<char>, Option<Seq<char>>>::empty(),
            final(self).spec_capacity() == old(self).spec_capacity(),
    {
        self.tree = Vec::new();
        assert(self@ =~= Map::<Seq<char>, Option<Seq<char>>>::empty());
    }

    /// The number of keys at which the memtable is full.
    pub fn capacity(&self) -> (r: usize)
        ensures
            r == self.spec_capacity(),
    {
        self.capacity
    }
}

} // verus!
