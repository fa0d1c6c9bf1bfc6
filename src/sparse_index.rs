//! Maps a sample of a segment's keys to the byte offsets of their entries.
use vstd::prelude::*;
use std::cmp::Ordering;
use crate::keys::{
    compare_keys, index_of, insert_pair, key_le, key_lt, lemma_key_lt_transitive,
    lemma_key_order_auto, lemma_pairs_map_index, lower_bound, pairs_map, strictly_ascending,
};

verus! {

broadcast use lemma_key_order_auto, lemma_key_lt_transitive;

/// `k` is the greatest key of `m` at or below `key`.
pub open spec fn is_floor(m: Map<Seq<char>, u64>, key: Seq<char>, k: Seq<char>) -> bool {
    &&& m.contains_key(k)
    &&& key_le(k, key)
    &&& forall|k2: Seq<char>| #[trigger] m.contains_key(k2) && key_le(k2, key) ==> key_le(k2, k)
}

/// `k` is the least key of `m` strictly above `key`.
pub open spec fn is_ceiling(m: Map<Seq<char>, u64>, key: Seq<char>, k: Seq<char>) -> bool {
    &&& m.contains_key(k)
    &&& key_lt(key, k)
    &&& forall|k2: Seq<char>| #[trigger] m.contains_key(k2) && key_lt(key, k2) ==> key_le(k, k2)
}

/// What `get_byte_range` returns: the offset of the greatest indexed key at or
/// below `key`, and the offset of the least indexed key above it.
pub open spec fn byte_range_of(m: Map<Seq<char>, u64>, key: Seq<char>) -> (
    Option<u64>,
    Option<u64>,
) {
    let start = if exists|k: Seq<char>| is_floor(m, key, k) {
        Some(m[choose|k: Seq<char>| is_floor(m, key, k)])
    } else {
        None
    };
    let end = if exists|k: Seq<char>| is_ceiling(m, key, k) {
        Some(m[choose|k: Seq<char>| is_ceiling(m, key, k)])
    } else {
        None
    };
    (start, end)
}

pub proof fn lemma_floor_unique(m: Map<Seq<char>, u64>, key: Seq<char>, a: Seq<char>, b: Seq<char>)
    requires
        is_floor(m, key, a),
        is_floor(m, key, b),
    ensures
        a == b,
{
    assert(key_le(a, b));
    assert(key_le(b, a));
}

pub proof fn lemma_ceiling_unique(
    m: Map<Seq<char>, u64>,
    key: Seq<char>,
    a: Seq<char>,
    b: Seq<char>,
)
    requires
        is_ceiling(m, key, a),
        is_ceiling(m, key, b),
    ensures
        a == b,
{
    assert(key_le(a, b));
    assert(key_le(b, a));
}

/// The sparse index keeps a subset of a segment's keys with the byte offsets
/// of their entries, so that a lookup reads only part of the segment.
pub struct SparseIndex {
    index: Vec<(String, u64)>,
}

impl View for SparseIndex {
    type V = Map<Seq<char>, u64>;

    closed spec fn view(&self) -> Map<Seq<char>, u64> {
        pairs_map(self.index@)
    }
}

impl SparseIndex {
    /// The indexed keys strictly ascend.
    pub closed spec fn wf(&self) -> bool {
        strictly_ascending(self.index@)
    }

    pub fn new() -> (r: Self)
        ensures
            r.wf(),
            r@ == Map::<Seq<char>, u64>::empty(),
    {
        let r = Self { index: Vec::new() };
        assert(r@ =~= Map::<Seq<char>, u64>::empty());
        r
    }

    /// Returns the byte range in which `key` would lie in the segment: the
    /// offset of the greatest indexed key at or below `key` (`None` when every
    /// indexed key is above it), and the offset of the least indexed key above
    /// `key` (`None` when there is none). The range does not say that `key` is
    /// present.
    pub fn get_byte_range(&self, key: &str) -> (r: (Option<u64>, Option<u64>))
        requires
            self.wf(),
        ensures
            r == byte_range_of(self@, key@),
            r.0 is None <==> (forall|k: Seq<char>| #[trigger] self@.contains_key(k) ==> key_lt(key@, k)),
            r.1 is None <==> (forall|k: Seq<char>| #[trigger] self@.contains_key(k) ==> key_le(k, key@)),
    {
        let s = &self.index;
        let p = lower_bound(s, key);
        let q = if p < s.len() && matches!(compare_keys(s[p].0.as_str(), key), Ordering::Equal) {
            p + 1
        } else {
            p
        };
        let ghost m = self@;
        assert(forall|i: int| 0 <= i < q ==> key_le(#[trigger] s@[i].0@, key@));
        assert(forall|i: int| q <= i < s@.len() ==> key_lt(key@, #[trigger] s@[i].0@));
        let start = if q > 0 {
            let ghost k = s@[q - 1].0@;
            proof {
                lemma_pairs_map_index(s@, q - 1);
                assert forall|k2: Seq<char>| #[trigger] m.contains_key(k2) && key_le(k2, key@) implies key_le(k2, k) by {
                    let j = index_of(s@, k2);
                    if j < q - 1 {
                        assert(key_lt(s@[j].0@, s@[q - 1].0@));
                    }
                }
                assert(is_floor(m, key@, k));
                let c = choose|k: Seq<char>| is_floor(m, key@, k);
                lemma_floor_unique(m, key@, k, c);
            }
            Some(s[q - 1].1)
        } else {
            proof {
                assert forall|k: Seq<char>| #[trigger] m.contains_key(k) implies key_lt(key@, k) by {
                    let j = index_of(s@, k);
                }
                assert forall|k: Seq<char>| !is_floor(m, key@, k) by {
                    if m.contains_key(k) {
                        assert(key_lt(key@, k));
                    }
                }
            }
            None
        };
        let end = if q < s.len() {
            let ghost k = s@[q as int].0@;
            proof {
                lemma_pairs_map_index(s@, q as int);
                assert forall|k2: Seq<char>| #[trigger] m.contains_key(k2) && key_lt(key@, k2) implies key_le(k, k2) by {
                    let j = index_of(s@, k2);
                    if j > q {
                        assert(key_lt(s@[q as int].0@, s@[j].0@));
                    }
                }
                assert(is_ceiling(m, key@, k));
                let c = choose|k: Seq<char>| is_ceiling(m, key@, k);
                lemma_ceiling_unique(m, key@, k, c);
                assert(!(forall|k: Seq<char>| #[trigger] m.contains_key(k) ==> key_le(k, key@)));
            }
            Some(s[q].1)
        } else {
            proof {
                assert forall|k: Seq<char>| #[trigger] m.contains_key(k) implies key_le(k, key@) by {
                    let j = index_of(s@, k);
                }
                assert forall|k: Seq<char>| !is_ceiling(m, key@, k) by {
                    if m.contains_key(k) {
                        assert(key_le(k, key@));
                    }
                }
            }
            None
        };
        (start, end)
    }

    /// Indexes `key` at `offset`, replacing an earlier offset of that key.
    pub fn insert(&mut self, key: &str, offset: u64)
        requires
            old(self).wf(),
        ensures
            final(self).wf(),
            final(self)@ == old(self)@.insert(key@, offset),
    {
        let k = key.to_owned();
        insert_pair(&mut self.index, k, offset);
    }

    /// The indexed keys with their offsets, in ascending key order.
    pub fn inner(&self) -> (r: &Vec<(String, u64)>)
        requires
            self.wf(),
        ensures
            strictly_ascending(r@),
            pairs_map(r@) == self@,
    {
        &self.index
    }
}

} // verus!
