//! An opened segment: its bytes, with a Bloom filter over its keys and a
//! sparse index of every fourth entry.
use vstd::prelude::*;
use std::cmp::Ordering;
use bloom::{BloomFilter, ASMS};
use crate::error::Error;
use crate::keys::{compare_keys, key_lt, lemma_key_lt_transitive, lemma_key_order_auto};
use crate::segment::{
    decode_entries, decodes_to, encode_entries, keys_ascending, lemma_decode_unique,
    lemma_encode_take_step, lemma_entry_at_offset, lemma_entry_at_unique, lemma_lookup_index,
    lemma_offset_end, lemma_offsets_ascend, lookup, offset_of, read_entry, views, Entry, EntryView,
};
use crate::sparse_index::{is_ceiling, is_floor, SparseIndex};

verus! {

#[verifier::external_type_specification]
#[verifier::external_body]
#[verifier::reject_recursive_types(R)]
#[verifier::reject_recursive_types(S)]
pub struct ExBloomFilter<R, S>(BloomFilter<R, S>);

/// The keys that have been inserted into a Bloom filter.
pub uninterp spec fn bloom_members(f: BloomFilter) -> Set<Seq<char>>;

/// The number of bits of a Bloom filter.
pub uninterp spec fn bloom_bits(f: BloomFilter) -> nat;

/// Relies on `bloom::BloomFilter::with_size`: an empty filter of `num_bits`
/// bits, probed by `num_hashes` hash functions.
#[verifier::external_body]
fn new_bloom_filter(num_bits: usize, num_hashes: u32) -> (r: BloomFilter)
    ensures
        bloom_members(r) == Set::<Seq<char>>::empty(),
        bloom_bits(r) == num_bits,
{
    BloomFilter::with_size(num_bits, num_hashes)
}

/// Relies on `bloom::ASMS::insert` of `BloomFilter`: the key becomes a member,
/// and the filter keeps its bits. The filter reduces each hash modulo its
/// number of bits, which must therefore not be zero.
#[verifier::external_body]
fn bloom_insert(f: &mut BloomFilter, key: &str)
    requires
        bloom_bits(*old(f)) > 0,
    ensures
        bloom_members(*final(f)) == bloom_members(*old(f)).insert(key@),
        bloom_bits(*final(f)) == bloom_bits(*old(f)),
{
    f.insert(&key);
}

/// Relies on `bloom::ASMS::contains` of `BloomFilter`: it answers true for
/// every member (it may also answer true for others).
#[verifier::external_body]
fn bloom_contains(f: &BloomFilter, key: &str) -> (r: bool)
    requires
        bloom_bits(*f) > 0,
    ensures
        bloom_members(*f).contains(key@) ==> r,
{
    f.contains(&key)
}

/// Every fourth entry of a segment is indexed.
pub const SPARSE_INDEX_RANGE_SIZE: usize = 4;

/// Bits of Bloom filter per key, and hash functions per probe: with these the
/// false-positive rate stays below one in ten thousand.
pub const BLOOM_BITS_PER_KEY: usize = 20;

pub const BLOOM_NUM_HASHES: u32 = 14;

/// The sparse index `idx` maps the key of every fourth entry of `es` to that
/// entry's byte offset, and holds no other key.
pub open spec fn indexes(idx: Map<Seq<char>, u64>, es: Seq<EntryView>) -> bool {
    &&& forall|i: int|
        0 <= i < es.len() && i % 4 == 0 ==> idx.contains_key(#[trigger] es[i].key()) && idx[es[i].key()]
            == offset_of(es, i)
    &&& forall|k: Seq<char>|
        #[trigger] idx.contains_key(k) ==> exists|i: int|
            0 <= i < es.len() && i % 4 == 0 && #[trigger] es[i].key() == k
}

/// The views of a lookup's result.
pub open spec fn found_view(r: Option<Option<String>>) -> Option<Option<Seq<char>>> {
    match r {
        None => None,
        Some(None) => Some(None),
        Some(Some(v)) => Some(Some(v@)),
    }
}

/// Bytes whose entries have two keys out of order decode to no run of
/// ascending keys.
proof fn lemma_out_of_order(data: Seq<u8>, es: Seq<EntryView>, i: int)
    requires
        decodes_to(data, es),
        0 <= i < i + 1 < es.len(),
        !key_lt(es[i].key(), es[i + 1].key()),
    ensures
        forall|es2: Seq<EntryView>| !(decodes_to(data, es2) && keys_ascending(es2)),
{
    assert forall|es2: Seq<EntryView>| !(decodes_to(data, es2) && keys_ascending(es2)) by {
        if decodes_to(data, es2) {
            lemma_decode_unique(data, es, es2);
        }
    }
}

/// Indexing entry `n` extends an index of the entries before it.
proof fn lemma_index_extend(
    m0: Map<Seq<char>, u64>,
    m1: Map<Seq<char>, u64>,
    es: Seq<EntryView>,
    n: int,
)
    requires
        0 <= n < es.len(),
        indexes(m0, es.take(n)),
        n % 4 == 0 ==> forall|i: int| 0 <= i < n ==> key_lt(#[trigger] es[i].key(), es[n].key()),
        m1 == (if n % 4 == 0 {
            m0.insert(es[n].key(), offset_of(es, n) as u64)
        } else {
            m0
        }),
        offset_of(es, n) <= u64::MAX,
    ensures
        indexes(m1, es.take(n + 1)),
{
    broadcast use lemma_key_order_auto;

    let t = es.take(n + 1);
    let t0 = es.take(n);
    assert forall|i: int| 0 <= i < t.len() && i % 4 == 0 implies m1.contains_key(
        #[trigger] t[i].key(),
    ) && m1[t[i].key()] == offset_of(t, i) by {
        assert(t.take(i) =~= es.take(i));
        if i < n {
            assert(t0.take(i) =~= es.take(i));
            assert(t[i] == t0[i]);
        }
    }
    assert forall|k: Seq<char>| #[trigger] m1.contains_key(k) implies exists|i: int|
        0 <= i < t.len() && i % 4 == 0 && #[trigger] t[i].key() == k by {
        if m0.contains_key(k) {
            let i = choose|i: int| 0 <= i < t0.len() && i % 4 == 0 && #[trigger] t0[i].key() == k;
            assert(t[i] == t0[i]);
        } else {
            assert(t[n].key() == k);
        }
    }
}

/// Where the scan for `key` may start: the entry at the range's start, before
/// which no entry has the key.
proof fn lemma_start_index(
    idx: Map<Seq<char>, u64>,
    es: Seq<EntryView>,
    key: Seq<char>,
    start: Option<u64>,
) -> (js: int)
    requires
        indexes(idx, es),
        keys_ascending(es),
        start == crate::sparse_index::byte_range_of(idx, key).0,
    ensures
        0 <= js <= es.len(),
        start matches Some(s) ==> s == offset_of(es, js),
        start is None ==> js == 0,
        forall|i: int| 0 <= i < js ==> (#[trigger] es[i]).key() != key,
{
    broadcast use lemma_key_order_auto, lemma_key_lt_transitive;

    if start is Some {
        let k = choose|k: Seq<char>| is_floor(idx, key, k);
        assert(idx.contains_key(k));
        let i0 = choose|i: int| 0 <= i < es.len() && i % 4 == 0 && #[trigger] es[i].key() == k;
        assert forall|i: int| 0 <= i < i0 implies (#[trigger] es[i]).key() != key by {
            assert(key_lt(es[i].key(), es[i0].key()));
        }
        i0
    } else {
        0
    }
}

/// Where the scan for `key` may stop: the entry at the range's end, from
/// which on no entry has the key.
proof fn lemma_end_index(
    idx: Map<Seq<char>, u64>,
    es: Seq<EntryView>,
    key: Seq<char>,
    end: Option<u64>,
) -> (ie: int)
    requires
        indexes(idx, es),
        keys_ascending(es),
        end == crate::sparse_index::byte_range_of(idx, key).1,
    ensures
        end matches Some(e) ==> 0 <= ie < es.len() && e == offset_of(es, ie) && forall|i: int|
            ie <= i < es.len() ==> (#[trigger] es[i]).key() != key,
{
    broadcast use lemma_key_order_auto, lemma_key_lt_transitive;

    if end is Some {
        let k = choose|k: Seq<char>| is_ceiling(idx, key, k);
        assert(idx.contains_key(k));
        let ie = choose|i: int| 0 <= i < es.len() && i % 4 == 0 && #[trigger] es[i].key() == k;
        assert forall|i: int| ie <= i < es.len() implies (#[trigger] es[i]).key() != key by {
            if i > ie {
                assert(key_lt(es[ie].key(), es[i].key()));
            }
        }
        ie
    } else {
        0
    }
}

/// An opened segment.
pub struct SegmentHandle {
    data: Vec<u8>,
    bloom_filter: BloomFilter,
    sparse_index: SparseIndex,
    entries: Ghost<Seq<EntryView>>,
}

impl SegmentHandle {
    /// The entries of the segment, in order.
    pub closed spec fn entries(&self) -> Seq<EntryView> {
        self.entries@
    }

    /// The bytes of the segment.
    pub closed spec fn bytes(&self) -> Seq<u8> {
        self.data@
    }

    /// The bytes are the entries' encoding, and their keys strictly ascend.
    pub open spec fn wf(&self) -> bool {
        &&& decodes_to(self.bytes(), self.entries())
        &&& keys_ascending(self.entries())
        &&& self.inner_wf()
    }

    /// Besides, the Bloom filter holds every key, and the sparse index
    /// indexes every fourth entry.
    pub closed spec fn inner_wf(&self) -> bool {
        &&& bloom_bits(self.bloom_filter) > 0
        &&& forall|i: int|
            0 <= i < self.entries@.len() ==> bloom_members(self.bloom_filter).contains(
                (#[trigger] self.entries@[i]).key(),
            )
        &&& self.sparse_index.wf()
        &&& indexes(self.sparse_index@, self.entries@)
    }

    /// The byte range that the sparse index gives for a key of the segment
    /// holds that key's entry: it starts at or before the entry (at 0 when
    /// the range has no start) and, when bounded, ends after the entry's start.
    pub proof fn lemma_range_covers(&self, i: int)
        requires
            self.wf(),
            0 <= i < self.entries().len(),
        ensures
            ({
                let (start, end) = self.index_range(self.entries()[i].key());
                &&& match start {
                    Some(s) => s <= offset_of(self.entries(), i),
                    None => 0 <= offset_of(self.entries(), i),
                }
                &&& end matches Some(e) ==> offset_of(self.entries(), i) < e
            }),
    {
        let es = self.entries();
        let k = es[i].key();
        let (start, end) = self.index_range(k);
        let js = lemma_start_index(self.sparse_index@, es, k, start);
        let ie = lemma_end_index(self.sparse_index@, es, k, end);
        if js < i {
            lemma_offsets_ascend(es, js, i);
        }
        if end is Some {
            lemma_offsets_ascend(es, i, ie);
        }
    }

    /// The bytes of the segment.
    pub fn bytes_slice(&self) -> (r: &[u8])
        ensures
            r@ == self.bytes(),
    {
        self.data.as_slice()
    }

    /// Every key of the segment is a member of its Bloom filter.
    pub proof fn lemma_bloom_complete(&self, k: Seq<char>)
        requires
            self.wf(),
            exists|i: int| 0 <= i < self.entries().len() && #[trigger] self.entries()[i].key() == k,
        ensures
            self.bloom_has(k),
    {
    }

    /// The Bloom filter has `k` as a member.
    pub closed spec fn bloom_has(&self, k: Seq<char>) -> bool {
        bloom_members(self.bloom_filter).contains(k)
    }

    /// The byte range that the sparse index gives for `k`, as offsets.
    pub closed spec fn index_range(&self, k: Seq<char>) -> (Option<u64>, Option<u64>) {
        crate::sparse_index::byte_range_of(self.sparse_index@, k)
    }

    /// Opens the segment held in `data`: decodes it, checks that its keys
    /// strictly ascend, and builds the Bloom filter and the sparse index.
    pub fn open(data: Vec<u8>) -> (r: Result<Self, Error>)
        ensures
            r matches Ok(h) ==> h.wf() && h.bytes() == data@ && decodes_to(data@, h.entries()),
            r is Err <==> forall|es: Seq<EntryView>| !(decodes_to(data@, es) && keys_ascending(es)),
            r matches Err(e) ==> e is Malformed,
    {
        let entries = match decode_entries(data.as_slice()) {
            Ok(v) => v,
            Err(e) => {
                return Err(e);
            },
        };
        let ghost es = views(entries@);
        let size = entries.len();
        let num_bits = if size == 0 {
            1
        } else if size > usize::MAX / BLOOM_BITS_PER_KEY {
            usize::MAX
        } else {
            size * BLOOM_BITS_PER_KEY
        };
        let mut bloom_filter = new_bloom_filter(num_bits, BLOOM_NUM_HASHES);
        let mut sparse_index = SparseIndex::new();
        let mut elapsed: usize = 0;
        let mut idx: usize = 0;
        let len = data.len();
        proof {
            assert(es.take(0) =~= Seq::<EntryView>::empty());
            assert(encode_entries(es.take(0)) =~= Seq::<u8>::empty());
        }
        while idx < size
            invariant
                size == entries@.len(),
                es == views(entries@),
                decodes_to(data@, es),
                len == data@.len(),
                idx <= size,
                elapsed == offset_of(es, idx as int),
                bloom_bits(bloom_filter) > 0,
                forall|i: int| 0 <= i < idx ==> bloom_members(bloom_filter).contains(
                    (#[trigger] es[i]).key(),
                ),
                sparse_index.wf(),
                indexes(sparse_index@, es.take(idx as int)),
                forall|i: int, j: int|
                    0 <= i < j < idx ==> key_lt(#[trigger] es[i].key(), #[trigger] es[j].key()),
            decreases size - idx,
        {
            let entry = &entries[idx];
            let key = entry.key().as_str();
            proof {
                lemma_encode_take_step(es, idx as int);
                crate::segment::lemma_encode_take_prefix(es, idx + 1);
                lemma_offset_end(es);
            }
            if idx > 0 {
                let previous = entries[idx - 1].key().as_str();
                if !matches!(compare_keys(previous, key), Ordering::Less) {
                    proof {
                        lemma_out_of_order(data@, es, idx - 1);
                    }
                    return Err(Error::Malformed(elapsed));
                }
            }
            bloom_insert(&mut bloom_filter, key);
            let ghost idx_before = sparse_index@;
            if idx % SPARSE_INDEX_RANGE_SIZE == 0 {
                proof {
                    broadcast use lemma_key_lt_transitive;

                    assert forall|i: int| 0 <= i < idx implies key_lt(#[trigger] es[i].key(), es[idx as int].key()) by {
                        if i < idx - 1 {
                            assert(key_lt(es[i].key(), es[idx - 1].key()));
                        }
                    }
                }
                sparse_index.insert(key, elapsed as u64);
            }
            proof {
                broadcast use lemma_key_lt_transitive;

                lemma_index_extend(idx_before, sparse_index@, es, idx as int);
                assert(entries@[idx as int]@ == es[idx as int]);
                assert forall|i: int, j: int|
                    0 <= i < j < idx + 1 implies key_lt(#[trigger] es[i].key(), #[trigger] es[j].key()) by {
                    if j == idx && i < idx - 1 {
                        assert(key_lt(es[i].key(), es[idx - 1].key()));
                    }
                }
                assert(es[idx as int].encodable());
                lemma_entry_at_offset(es, idx as int);
            }
            elapsed = elapsed + entry.stride();
            idx = idx + 1;
        }
        proof {
            assert(es.take(size as int) =~= es);
            assert(keys_ascending(es));
        }
        Ok(SegmentHandle { data, bloom_filter, sparse_index, entries: Ghost(es) })
    }

    /// Whether the Bloom filter lets `key` through: true for every key of the
    /// segment, and for few others.
    pub fn may_contain(&self, key: &str) -> (r: bool)
        requires
            self.wf(),
        ensures
            (exists|i: int| 0 <= i < self.entries().len() && #[trigger] self.entries()[i].key() == key@) ==> r,
    {
        bloom_contains(&self.bloom_filter, key)
    }

    /// Looks `key` up: `None` when the segment has no entry for it,
    /// `Some(None)` for a tombstone, `Some(Some(value))` for an assignment.
    /// The Bloom filter turns most absent keys away, and the sparse index
    /// bounds the bytes that are scanned.
    pub fn get(&self, key: &str) -> (r: Option<Option<String>>)
        requires
            self.wf(),
        ensures
            found_view(r) == lookup(self.entries(), key@),
    {
        let ghost es = self.entries@;
        let len = self.data.len();
        proof {
            lemma_lookup_index(es, key@);
            lemma_offset_end(es);
        }
        if !self.may_contain(key) {
            return None;
        }
        let (byte_start, byte_end) = self.sparse_index.get_byte_range(key);
        let ghost js = lemma_start_index(self.sparse_index@, es, key@, byte_start);
        let ghost ie = lemma_end_index(self.sparse_index@, es, key@, byte_end);
        proof {
            if js < es.len() {
                lemma_offsets_ascend(es, js, es.len() as int);
            }
        }
        let mut pos: usize = match byte_start {
            Some(s) => s as usize,
            None => 0,
        };
        let ghost mut j = js;
        proof {
            assert(es.take(0) =~= Seq::<EntryView>::empty());
        }
        loop
            invariant
                es == self.entries@,
                len == self.data@.len(),
                decodes_to(self.data@, es),
                keys_ascending(es),
                0 <= j <= es.len(),
                pos == offset_of(es, j),
                offset_of(es, es.len() as int) == len,
                forall|i: int| 0 <= i < j ==> (#[trigger] es[i]).key() != key@,
                byte_end matches Some(e) ==> 0 <= ie < es.len() && e == offset_of(es, ie) && forall|
                    i: int,
                | ie <= i < es.len() ==> (#[trigger] es[i]).key() != key@,
            decreases es.len() - j,
        {
            proof {
                lemma_lookup_index(es, key@);
            }
            if let Some(end) = byte_end {
                if pos as u64 >= end {
                    proof {
                        if j < ie {
                            lemma_offsets_ascend(es, j, ie);
                        }
                    }
                    return None;
                }
            }
            proof {
                if j < es.len() {
                    lemma_entry_at_offset(es, j);
                    lemma_offsets_ascend(es, j, es.len() as int);
                    crate::segment::lemma_encode_take_prefix(es, j + 1);
                    lemma_encode_take_step(es, j);
                }
            }
            match read_entry(self.data.as_slice(), pos) {
                Ok(Some((entry, n))) => {
                    proof {
                        lemma_entry_at_unique(self.data@, pos as int, entry@, es[j]);
                    }
                    if matches!(compare_keys(entry.key().as_str(), key), Ordering::Equal) {
                        return match entry {
                            Entry::Assignment { value, .. } => Some(Some(value)),
                            Entry::Tombstone { .. } => Some(None),
                        };
                    }
                    pos = pos + n;
                    proof {
                        j = j + 1;
                    }
                },
                _ => {
                    return None;
                },
            }
        }
    }
}

} // verus!
