//! Byte-wise ordering of keys, and sorted vectors of keyed pairs.
use vstd::prelude::*;
use vstd::utf8::*;
use std::cmp::Ordering;

verus! {

broadcast use group_utf8_lib;

/// Lexicographic order on byte strings, as `[u8]`'s `Ord` orders them.
pub open spec fn bytes_lt(a: Seq<u8>, b: Seq<u8>) -> bool
    decreases a.len(),
{
    if b.len() == 0 {
        false
    } else if a.len() == 0 {
        true
    } else if a[0] != b[0] {
        a[0] < b[0]
    } else {
        bytes_lt(a.drop_first(), b.drop_first())
    }
}

/// Keys are ordered by their UTF-8 bytes, as `str`'s `Ord` orders them.
pub open spec fn key_lt(a: Seq<char>, b: Seq<char>) -> bool {
    bytes_lt(encode_utf8(a), encode_utf8(b))
}

pub open spec fn key_le(a: Seq<char>, b: Seq<char>) -> bool {
    a == b || key_lt(a, b)
}

pub proof fn lemma_bytes_lt_irreflexive(a: Seq<u8>)
    ensures
        !bytes_lt(a, a),
    decreases a.len(),
{
    if a.len() > 0 {
        lemma_bytes_lt_irreflexive(a.drop_first());
    }
}

pub proof fn lemma_bytes_lt_transitive(a: Seq<u8>, b: Seq<u8>, c: Seq<u8>)
    requires
        bytes_lt(a, b),
        bytes_lt(b, c),
    ensures
        bytes_lt(a, c),
    decreases a.len(),
{
    if a.len() > 0 && a[0] == b[0] && b[0] == c[0] {
        lemma_bytes_lt_transitive(a.drop_first(), b.drop_first(), c.drop_first());
    }
}

pub proof fn lemma_bytes_lt_total(a: Seq<u8>, b: Seq<u8>)
    ensures
        a == b || bytes_lt(a, b) || bytes_lt(b, a),
        !(bytes_lt(a, b) && bytes_lt(b, a)),
    decreases a.len(),
{
    if a.len() > 0 && b.len() > 0 && a[0] == b[0] {
        lemma_bytes_lt_total(a.drop_first(), b.drop_first());
        if a.drop_first() == b.drop_first() {
            assert(a =~= seq![a[0]] + a.drop_first());
            assert(b =~= seq![b[0]] + b.drop_first());
        }
    } else if a.len() == 0 && b.len() == 0 {
        assert(a =~= b);
    }
}

/// `key_lt` is a strict total order.
pub proof fn lemma_key_order(a: Seq<char>, b: Seq<char>, c: Seq<char>)
    ensures
        !key_lt(a, a),
        a == b || key_lt(a, b) || key_lt(b, a),
        !(key_lt(a, b) && key_lt(b, a)),
        key_lt(a, b) && key_lt(b, c) ==> key_lt(a, c),
{
    lemma_bytes_lt_irreflexive(encode_utf8(a));
    lemma_bytes_lt_total(encode_utf8(a), encode_utf8(b));
    if encode_utf8(a) == encode_utf8(b) {
        encode_utf8_decode_utf8(a);
        encode_utf8_decode_utf8(b);
    }
    if key_lt(a, b) && key_lt(b, c) {
        lemma_bytes_lt_transitive(encode_utf8(a), encode_utf8(b), encode_utf8(c));
    }
}

/// Every pair of keys is ordered by `key_lt`, which is a strict total order.
pub broadcast proof fn lemma_key_order_auto(a: Seq<char>, b: Seq<char>)
    ensures
        #![trigger key_lt(a, b)]
        !key_lt(a, a),
        a == b || key_lt(a, b) || key_lt(b, a),
        !(key_lt(a, b) && key_lt(b, a)),
{
    lemma_key_order(a, b, a);
}

pub broadcast proof fn lemma_key_lt_transitive(a: Seq<char>, b: Seq<char>, c: Seq<char>)
    requires
        #[trigger] key_lt(a, b),
        #[trigger] key_lt(b, c),
    ensures
        key_lt(a, c),
{
    lemma_key_order(a, b, c);
}

/// Compares two keys by their bytes.
pub fn compare_keys(a: &str, b: &str) -> (r: Ordering)
    ensures
        (r == Ordering::Less) == key_lt(a@, b@),
        (r == Ordering::Equal) == (a@ == b@),
        (r == Ordering::Greater) == key_lt(b@, a@),
{
    let ab = a.as_bytes();
    let bb = b.as_bytes();
    proof {
        lemma_key_order(a@, b@, a@);
    }
    assert(ab@.skip(0) =~= ab@);
    assert(bb@.skip(0) =~= bb@);
    let mut i: usize = 0;
    while i < ab.len() && i < bb.len()
        invariant
            ab@ == encode_utf8(a@),
            bb@ == encode_utf8(b@),
            i <= ab@.len(),
            i <= bb@.len(),
            ab@.subrange(0, i as int) == bb@.subrange(0, i as int),
            bytes_lt(ab@, bb@) == bytes_lt(ab@.skip(i as int), bb@.skip(i as int)),
            bytes_lt(bb@, ab@) == bytes_lt(bb@.skip(i as int), ab@.skip(i as int)),
        decreases ab.len() - i,
    {
        if ab[i] < bb[i] {
            return Ordering::Less;
        } else if ab[i] > bb[i] {
            return Ordering::Greater;
        }
        assert(ab@.skip(i as int).drop_first() =~= ab@.skip(i + 1));
        assert(bb@.skip(i as int).drop_first() =~= bb@.skip(i + 1));
        assert(ab@.subrange(0, i + 1) =~= ab@.subrange(0, i as int).push(ab@[i as int]));
        assert(bb@.subrange(0, i + 1) =~= bb@.subrange(0, i as int).push(bb@[i as int]));
        i = i + 1;
    }
    if ab.len() < bb.len() {
        Ordering::Less
    } else if ab.len() > bb.len() {
        Ordering::Greater
    } else {
        assert(ab@ =~= ab@.subrange(0, i as int));
        assert(bb@ =~= bb@.subrange(0, i as int));
        Ordering::Equal
    }
}


/// The keys of the pairs strictly ascend, so each key stands at most once.
pub open spec fn strictly_ascending<V>(s: Seq<(String, V)>) -> bool {
    forall|i: int, j: int|
        0 <= i < j < s.len() ==> key_lt(#[trigger] s[i].0@, #[trigger] s[j].0@)
}

pub open spec fn has_key<V>(s: Seq<(String, V)>, k: Seq<char>) -> bool {
    exists|i: int| 0 <= i < s.len() && #[trigger] s[i].0@ == k
}

pub open spec fn index_of<V>(s: Seq<(String, V)>, k: Seq<char>) -> int {
    choose|i: int| 0 <= i < s.len() && #[trigger] s[i].0@ == k
}

/// The map from keys to values that a vector of pairs with unique keys holds.
pub open spec fn pairs_map<V>(s: Seq<(String, V)>) -> Map<Seq<char>, V> {
    Map::new(|k: Seq<char>| has_key(s, k), |k: Seq<char>| s[index_of(s, k)].1)
}

pub proof fn lemma_pairs_map_index<V>(s: Seq<(String, V)>, i: int)
    requires
        strictly_ascending(s),
        0 <= i < s.len(),
    ensures
        pairs_map(s).contains_key(s[i].0@),
        pairs_map(s)[s[i].0@] == s[i].1,
        index_of(s, s[i].0@) == i,
{
    broadcast use lemma_key_order_auto;

    assert(has_key(s, s[i].0@));
    let j = index_of(s, s[i].0@);
    if j < i {
        assert(key_lt(s[j].0@, s[i].0@));
    } else if j > i {
        assert(key_lt(s[i].0@, s[j].0@));
    }
}

/// A map that holds exactly the pairs of `s` is the map of `s`.
pub proof fn lemma_pairs_map_ext<V>(s: Seq<(String, V)>, m: Map<Seq<char>, V>)
    requires
        strictly_ascending(s),
        forall|i: int|
            0 <= i < s.len() ==> m.contains_key(#[trigger] s[i].0@) && m[s[i].0@] == s[i].1,
        forall|k: Seq<char>| m.contains_key(k) ==> has_key(s, k),
    ensures
        pairs_map(s) == m,
{
    assert forall|k: Seq<char>| pairs_map(s).contains_key(k) implies m.contains_key(k)
        && pairs_map(s)[k] == m[k] by {
        let i = index_of(s, k);
        lemma_pairs_map_index(s, i);
    }
    assert(pairs_map(s) =~= m);
}

/// A vector of pairs with unique keys has as many pairs as its map has keys.
pub proof fn lemma_pairs_map_len<V>(s: Seq<(String, V)>)
    requires
        strictly_ascending(s),
    ensures
        pairs_map(s).dom().finite(),
        pairs_map(s).dom().len() == s.len(),
{
    broadcast use lemma_key_order_auto;

    let ks = s.map_values(|p: (String, V)| p.0@);
    assert(ks.no_duplicates()) by {
        assert forall|i: int, j: int| 0 <= i < ks.len() && 0 <= j < ks.len() && i != j implies ks[i]
            != ks[j] by {
            if i < j {
                assert(key_lt(s[i].0@, s[j].0@));
            } else {
                assert(key_lt(s[j].0@, s[i].0@));
            }
        }
    }
    ks.unique_seq_to_set();
    assert(pairs_map(s).dom() =~= ks.to_set()) by {
        assert forall|k: Seq<char>| pairs_map(s).dom().contains(k) implies ks.to_set().contains(k) by {
            let i = index_of(s, k);
            assert(ks[i] == k);
        }
        assert forall|k: Seq<char>| ks.to_set().contains(k) implies pairs_map(s).dom().contains(k) by {
            let i = choose|i: int| 0 <= i < ks.len() && ks[i] == k;
            assert(s[i].0@ == k);
        }
    }
}

/// The first position whose key is not below `key`.
pub fn lower_bound<V>(s: &Vec<(String, V)>, key: &str) -> (r: usize)
    requires
        strictly_ascending(s@),
    ensures
        r <= s@.len(),
        forall|i: int| 0 <= i < r ==> key_lt(#[trigger] s@[i].0@, key@),
        forall|i: int| r <= i < s@.len() ==> key_le(key@, #[trigger] s@[i].0@),
{
    broadcast use lemma_key_order_auto, lemma_key_lt_transitive;

    let mut lo: usize = 0;
    let mut hi: usize = s.len();
    while lo < hi
        invariant
            strictly_ascending(s@),
            lo <= hi <= s@.len(),
            forall|i: int| 0 <= i < lo ==> key_lt(#[trigger] s@[i].0@, key@),
            forall|i: int| hi <= i < s@.len() ==> key_le(key@, #[trigger] s@[i].0@),
        decreases hi - lo,
    {
        let mid = lo + (hi - lo) / 2;
        let c = compare_keys(s[mid].0.as_str(), key);
        assert(s[mid as int].0@ == s@[mid as int].0@);
        match c {
            Ordering::Less => {
                assert forall|i: int| 0 <= i < mid + 1 implies key_lt(#[trigger] s@[i].0@, key@) by {
                    assert(key_lt(s@[mid as int].0@, key@));
                    if i < mid {
                        assert(key_lt(s@[i].0@, s@[mid as int].0@));
                        lemma_key_order(s@[i].0@, s@[mid as int].0@, key@);
                    }
                }
                lo = mid + 1;
            },
            _ => {
                assert forall|i: int| mid <= i < s@.len() implies key_le(key@, #[trigger] s@[i].0@) by {
                    lemma_key_order(key@, s@[mid as int].0@, s@[i].0@);
                    if i > mid {
                        assert(key_lt(s@[mid as int].0@, s@[i].0@));
                    }
                }
                hi = mid;
            },
        }
    }
    lo
}

/// Sets `key` to `value` in a vector of pairs kept in ascending key order.
pub fn insert_pair<V>(s: &mut Vec<(String, V)>, key: String, value: V)
    requires
        strictly_ascending(old(s)@),
    ensures
        strictly_ascending(final(s)@),
        pairs_map(final(s)@) == pairs_map(old(s)@).insert(key@, value),
{
    broadcast use lemma_key_order_auto, lemma_key_lt_transitive;

    let ghost s0 = s@;
    let ghost k = key@;
    let ghost v = value;
    let p = lower_bound(s, key.as_str());
    let ghost m = pairs_map(s0).insert(k, v);
    let replace = p < s.len() && matches!(compare_keys(s[p].0.as_str(), key.as_str()), Ordering::Equal);
    if replace {
        s.set(p, (key, value));
        assert forall|i: int| 0 <= i < s@.len() implies m.contains_key(#[trigger] s@[i].0@)
            && m[s@[i].0@] == s@[i].1 by {
            if i != p {
                lemma_pairs_map_index(s0, i);
            }
        }
        assert forall|k2: Seq<char>| m.contains_key(k2) implies has_key(s@, k2) by {
            if k2 == k {
                assert(s@[p as int].0@ == k2);
            } else {
                let j = index_of(s0, k2);
                assert(s@[j].0@ == k2);
            }
        }
    } else {
        s.insert(p, (key, value));
        assert(strictly_ascending(s@)) by {
            assert forall|i: int, j: int| 0 <= i < j < s@.len() implies key_lt(
                #[trigger] s@[i].0@,
                #[trigger] s@[j].0@,
            ) by {
                if j < p {
                    assert(s@[i] == s0[i] && s@[j] == s0[j]);
                } else if j == p {
                    assert(s@[i] == s0[i]);
                } else if i == p {
                    assert(s@[j] == s0[j - 1]);
                } else if i < p {
                    assert(s@[i] == s0[i] && s@[j] == s0[j - 1]);
                    assert(key_lt(s0[i].0@, k));
                } else {
                    assert(s@[i] == s0[i - 1] && s@[j] == s0[j - 1]);
                }
            }
        }
        assert forall|i: int| 0 <= i < s@.len() implies m.contains_key(#[trigger] s@[i].0@)
            && m[s@[i].0@] == s@[i].1 by {
            if i < p {
                assert(s@[i] == s0[i]);
                lemma_pairs_map_index(s0, i);
            } else if i > p {
                assert(s@[i] == s0[i - 1]);
                lemma_pairs_map_index(s0, i - 1);
            }
        }
        assert forall|k2: Seq<char>| m.contains_key(k2) implies has_key(s@, k2) by {
            if k2 == k {
                assert(s@[p as int].0@ == k2);
            } else {
                let j = index_of(s0, k2);
                if j < p {
                    assert(s@[j].0@ == k2);
                } else {
                    assert(s@[j + 1].0@ == k2);
                }
            }
        }
    }
    proof {
        lemma_pairs_map_ext(s@, m);
    }
}

} // verus!
