//! The segment file format: a concatenation of framed entries.
//!
//! Each entry starts with an indicator byte (0 for an assignment, 1 for a
//! tombstone), then the key's length as a big-endian `u32` and the key's
//! bytes; an assignment then holds the value's length and bytes the same way.
use vstd::prelude::*;
use vstd::utf8::*;
use vstd::string::*;
use crate::error::{Error, PairComponent};
use crate::keys::{key_lt, lemma_key_order_auto};

verus! {

broadcast use group_utf8_lib;

pub const U32_MAX_LEN: usize = 4294967295;

/// What an entry of a segment, or of the write-ahead log, holds.
pub enum EntryView {
    Assignment { key: Seq<char>, value: Seq<char> },
    Tombstone { key: Seq<char> },
}

impl EntryView {
    pub open spec fn key(self) -> Seq<char> {
        match self {
            EntryView::Assignment { key, .. } => key,
            EntryView::Tombstone { key } => key,
        }
    }

    /// The value the entry gives its key: `None` for a tombstone.
    pub open spec fn value(self) -> Option<Seq<char>> {
        match self {
            EntryView::Assignment { value, .. } => Some(value),
            EntryView::Tombstone { .. } => None,
        }
    }

    /// Every length prefix fits in a `u32`.
    pub open spec fn encodable(self) -> bool {
        &&& encode_utf8(self.key()).len() <= U32_MAX_LEN
        &&& match self {
            EntryView::Assignment { value, .. } => encode_utf8(value).len() <= U32_MAX_LEN,
            EntryView::Tombstone { .. } => true,
        }
    }
}

/// A length prefix: the four bytes of `n`, most significant first.
pub open spec fn be32(n: u32) -> Seq<u8> {
    seq![(n >> 24u32) as u8, (n >> 16u32) as u8, (n >> 8u32) as u8, n as u8]
}

/// A byte string framed by its length.
pub open spec fn framed(b: Seq<u8>) -> Seq<u8> {
    be32(b.len() as u32) + b
}

/// The bytes of one entry.
pub open spec fn encode_entry(e: EntryView) -> Seq<u8> {
    match e {
        EntryView::Assignment { key, value } => seq![0u8] + framed(encode_utf8(key)) + framed(
            encode_utf8(value),
        ),
        EntryView::Tombstone { key } => seq![1u8] + framed(encode_utf8(key)),
    }
}

/// The bytes of a sequence of entries: their encodings, one after another.
pub open spec fn encode_entries(es: Seq<EntryView>) -> Seq<u8>
    decreases es.len(),
{
    if es.len() == 0 {
        Seq::empty()
    } else {
        encode_entries(es.drop_last()) + encode_entry(es.last())
    }
}

/// `data` holds the encoding of `e` at byte `pos`.
pub open spec fn entry_at(data: Seq<u8>, pos: int, e: EntryView) -> bool {
    &&& e.encodable()
    &&& 0 <= pos
    &&& pos + encode_entry(e).len() <= data.len()
    &&& data.subrange(pos, pos + encode_entry(e).len()) == encode_entry(e)
}

/// An entry of a segment or of the write-ahead log.
#[derive(Debug, PartialEq, Eq)]
pub enum Entry {
    Assignment { key: String, value: String },
    Tombstone { key: String },
}

impl View for Entry {
    type V = EntryView;

    open spec fn view(&self) -> EntryView {
        match self {
            Entry::Assignment { key, value } => EntryView::Assignment { key: key@, value: value@ },
            Entry::Tombstone { key } => EntryView::Tombstone { key: key@ },
        }
    }
}

impl Entry {
    pub fn key(&self) -> (r: &String)
        ensures
            r@ == self@.key(),
    {
        match self {
            Entry::Assignment { key, .. } => key,
            Entry::Tombstone { key } => key,
        }
    }

    /// The number of bytes the entry takes in a segment.
    pub fn stride(&self) -> (r: usize)
        requires
            encode_entry(self@).len() <= usize::MAX,
        ensures
            r == encode_entry(self@).len(),
    {
        match self {
            Entry::Assignment { key, value } => {
                key.as_str().as_bytes().len() + value.as_str().as_bytes().len() + 8 + 1
            },
            Entry::Tombstone { key } => key.as_str().as_bytes().len() + 4 + 1,
        }
    }

    /// Appends the entry's bytes to `out`.
    pub fn write(&self, out: &mut Vec<u8>) -> (r: Result<(), Error>)
        ensures
            r is Ok <==> self@.encodable(),
            r is Ok ==> final(out)@ == old(out)@ + encode_entry(self@),
            r is Err ==> final(out)@ == old(out)@,
            r is Err ==> r == Err::<(), Error>(
                Error::TooLarge(
                    if encode_utf8(self@.key()).len() > U32_MAX_LEN {
                        PairComponent::Key
                    } else {
                        PairComponent::Value
                    },
                    if encode_utf8(self@.key()).len() > U32_MAX_LEN {
                        encode_utf8(self@.key()).len() as usize
                    } else {
                        encode_utf8(self@.value().unwrap()).len() as usize
                    },
                    U32_MAX_LEN,
                ),
            ),
    {
        match self {
            Entry::Assignment { key, value } => write(out, key.as_str(), value.as_str()),
            Entry::Tombstone { key } => tombstone(out, key.as_str()),
        }
    }
}

/// The indicator byte that opens an entry.
pub enum EntryIndicator {
    Assignment,
    Tombstone,
}

impl EntryIndicator {
    pub fn from_u8_opt(num: u8) -> (r: Option<Self>)
        ensures
            num == 0 <==> r matches Some(EntryIndicator::Assignment),
            num == 1 <==> r matches Some(EntryIndicator::Tombstone),
            r is None <==> num > 1,
    {
        match num {
            0 => Some(EntryIndicator::Assignment),
            1 => Some(EntryIndicator::Tombstone),
            _ => None,
        }
    }
}

fn push_be32(out: &mut Vec<u8>, n: u32)
    ensures
        final(out)@ == old(out)@ + be32(n),
{
    out.push((n >> 24u32) as u8);
    out.push((n >> 16u32) as u8);
    out.push((n >> 8u32) as u8);
    out.push(n as u8);
    assert(final(out)@ =~= old(out)@ + be32(n));
}

fn push_bytes(out: &mut Vec<u8>, b: &[u8])
    ensures
        final(out)@ == old(out)@ + b@,
{
    let ghost start = out@;
    let mut i: usize = 0;
    while i < b.len()
        invariant
            i <= b@.len(),
            out@ == start + b@.subrange(0, i as int),
        decreases b.len() - i,
    {
        out.push(b[i]);
        assert(b@.subrange(0, i + 1) =~= b@.subrange(0, i as int).push(b@[i as int]));
        i = i + 1;
    }
    assert(b@.subrange(0, i as int) =~= b@);
}

/// Appends `b` framed by its length.
pub(crate) fn push_field(out: &mut Vec<u8>, b: &[u8])
    requires
        b@.len() <= U32_MAX_LEN,
    ensures
        final(out)@ == old(out)@ + be32(b@.len() as u32) + b@,
{
    let ghost start = out@;
    push_be32(out, b.len() as u32);
    push_bytes(out, b);
    assert(out@ =~= start + be32(b@.len() as u32) + b@);
}

/// Appends an assignment of `value` to `key` to `out`.
pub fn write(out: &mut Vec<u8>, key: &str, value: &str) -> (r: Result<(), Error>)
    ensures
        ({
            let e = EntryView::Assignment { key: key@, value: value@ };
            &&& r is Ok <==> e.encodable()
            &&& r is Ok ==> final(out)@ == old(out)@ + encode_entry(e)
            &&& r is Err ==> final(out)@ == old(out)@
            &&& encode_utf8(key@).len() > U32_MAX_LEN ==> r == Err::<(), Error>(
                Error::TooLarge(PairComponent::Key, encode_utf8(key@).len() as usize, U32_MAX_LEN),
            )
            &&& encode_utf8(key@).len() <= U32_MAX_LEN < encode_utf8(value@).len() ==> r == Err::<
                (),
                Error,
            >(
                Error::TooLarge(
                    PairComponent::Value,
                    encode_utf8(value@).len() as usize,
                    U32_MAX_LEN,
                ),
            )
        }),
{
    let key_bytes = key.as_bytes();
    let value_bytes = value.as_bytes();
    if key_bytes.len() > U32_MAX_LEN {
        return Err(Error::TooLarge(PairComponent::Key, key_bytes.len(), U32_MAX_LEN));
    }
    if value_bytes.len() > U32_MAX_LEN {
        return Err(Error::TooLarge(PairComponent::Value, value_bytes.len(), U32_MAX_LEN));
    }
    let ghost start = out@;
    out.push(0u8);
    push_be32(out, key_bytes.len() as u32);
    push_bytes(out, key_bytes);
    push_be32(out, value_bytes.len() as u32);
    push_bytes(out, value_bytes);
    assert(out@ =~= start + encode_entry(EntryView::Assignment { key: key@, value: value@ }));
    Ok(())
}

/// Appends a tombstone for `key` to `out`.
pub fn tombstone(out: &mut Vec<u8>, key: &str) -> (r: Result<(), Error>)
    ensures
        ({
            let e = EntryView::Tombstone { key: key@ };
            &&& r is Ok <==> e.encodable()
            &&& r is Ok ==> final(out)@ == old(out)@ + encode_entry(e)
            &&& r is Err ==> final(out)@ == old(out)@
            &&& r is Err ==> r == Err::<(), Error>(
                Error::TooLarge(PairComponent::Key, encode_utf8(key@).len() as usize, U32_MAX_LEN),
            )
        }),
{
    let key_bytes = key.as_bytes();
    if key_bytes.len() > U32_MAX_LEN {
        return Err(Error::TooLarge(PairComponent::Key, key_bytes.len(), U32_MAX_LEN));
    }
    let ghost start = out@;
    out.push(1u8);
    push_be32(out, key_bytes.len() as u32);
    push_bytes(out, key_bytes);
    assert(out@ =~= start + encode_entry(EntryView::Tombstone { key: key@ }));
    Ok(())
}


/// The keys of the entries strictly ascend.
pub open spec fn keys_ascending(es: Seq<EntryView>) -> bool {
    forall|i: int, j: int|
        0 <= i < j < es.len() ==> key_lt(#[trigger] es[i].key(), #[trigger] es[j].key())
}

/// What a sequence of entries says of `k`: `None` where no entry has that key,
/// otherwise the value of the first entry that has it (`None` for a
/// tombstone).
pub open spec fn lookup(es: Seq<EntryView>, k: Seq<char>) -> Option<Option<Seq<char>>>
    decreases es.len(),
{
    if es.len() == 0 {
        None
    } else if es[0].key() == k {
        Some(es[0].value())
    } else {
        lookup(es.drop_first(), k)
    }
}

/// A lookup finds the entry with the key, or nothing when no entry has it.
pub proof fn lemma_lookup_index(es: Seq<EntryView>, k: Seq<char>)
    requires
        keys_ascending(es),
    ensures
        lookup(es, k) is None <==> forall|i: int| 0 <= i < es.len() ==> (#[trigger] es[i]).key() != k,
        forall|i: int|
            0 <= i < es.len() && (#[trigger] es[i]).key() == k ==> lookup(es, k) == Some(
                es[i].value(),
            ),
    decreases es.len(),
{
    broadcast use lemma_key_order_auto;

    if es.len() > 0 {
        let t = es.drop_first();
        assert(keys_ascending(t)) by {
            assert forall|i: int, j: int| 0 <= i < j < t.len() implies key_lt(
                #[trigger] t[i].key(),
                #[trigger] t[j].key(),
            ) by {
                assert(t[i] == es[i + 1] && t[j] == es[j + 1]);
            }
        }
        lemma_lookup_index(t, k);
        assert forall|i: int| 0 <= i < es.len() && (#[trigger] es[i]).key() == k implies lookup(
            es,
            k,
        ) == Some(es[i].value()) by {
            if i > 0 {
                assert(key_lt(es[0].key(), es[i].key()));
                assert(t[i - 1] == es[i]);
            }
        }
        if es[0].key() != k {
            assert forall|i: int| 0 <= i < es.len() && lookup(es, k) is None implies (
            #[trigger] es[i]).key() != k by {
                if i > 0 {
                    assert(t[i - 1] == es[i]);
                }
            }
        }
    }
}

/// The views of a vector of entries.
pub open spec fn views(v: Seq<Entry>) -> Seq<EntryView> {
    v.map_values(|e: Entry| e@)
}

/// `data` is the encoding of the entries `es`.
pub open spec fn decodes_to(data: Seq<u8>, es: Seq<EntryView>) -> bool {
    &&& forall|i: int| 0 <= i < es.len() ==> (#[trigger] es[i]).encodable()
    &&& encode_entries(es) == data
}

/// The byte offset at which entry `j` of `es` starts.
pub open spec fn offset_of(es: Seq<EntryView>, j: int) -> int {
    encode_entries(es.take(j)).len() as int
}

pub proof fn lemma_encode_take_step(es: Seq<EntryView>, j: int)
    requires
        0 <= j < es.len(),
    ensures
        encode_entries(es.take(j + 1)) == encode_entries(es.take(j)) + encode_entry(es[j]),
        offset_of(es, j + 1) == offset_of(es, j) + encode_entry(es[j]).len(),
{
    assert(es.take(j + 1).drop_last() =~= es.take(j));
}

/// The encoding of the first entries is a prefix of the whole encoding.
pub proof fn lemma_encode_take_prefix(es: Seq<EntryView>, j: int)
    requires
        0 <= j <= es.len(),
    ensures
        encode_entries(es).subrange(0, offset_of(es, j)) == encode_entries(es.take(j)),
        offset_of(es, j) <= encode_entries(es).len(),
    decreases es.len(),
{
    if j == es.len() {
        assert(es.take(j) =~= es);
        assert(encode_entries(es).subrange(0, offset_of(es, j)) =~= encode_entries(es));
    } else {
        let d = es.drop_last();
        lemma_encode_take_prefix(d, j);
        assert(d.take(j) =~= es.take(j));
        assert(encode_entries(es).subrange(0, offset_of(es, j)) =~= encode_entries(d).subrange(
            0,
            offset_of(es, j),
        ));
    }
}

pub proof fn lemma_encode_entry_len(e: EntryView)
    ensures
        encode_entry(e).len() >= 5,
{
}

/// Entry `j` of `es` stands at its offset in the encoding of `es`.
pub proof fn lemma_entry_at_offset(es: Seq<EntryView>, j: int)
    requires
        0 <= j < es.len(),
        es[j].encodable(),
    ensures
        entry_at(encode_entries(es), offset_of(es, j), es[j]),
{
    lemma_encode_take_step(es, j);
    lemma_encode_take_prefix(es, j + 1);
    let data = encode_entries(es);
    let p = offset_of(es, j);
    let q = offset_of(es, j + 1);
    assert(data.subrange(p, q) =~= encode_entries(es.take(j + 1)).subrange(p, q));
    assert(encode_entries(es.take(j + 1)).subrange(p, q) =~= encode_entry(es[j]));
}

/// Entries decoded from the start of `data` are the first entries of any
/// decoding of `data`.
pub proof fn lemma_decode_prefix(data: Seq<u8>, es: Seq<EntryView>, es0: Seq<EntryView>, p: int)
    requires
        decodes_to(data, es),
        0 <= p <= data.len(),
        decodes_to(data.subrange(0, p), es0),
    ensures
        es0.len() <= es.len(),
        es0 == es.take(es0.len() as int),
        p == offset_of(es, es0.len() as int),
    decreases es0.len(),
{
    if es0.len() == 0 {
        assert(es.take(0) =~= es0);
        assert(encode_entries(es.take(0)) =~= Seq::<u8>::empty());
    } else {
        let init = es0.drop_last();
        let x = es0.last();
        let q = p - encode_entry(x).len();
        assert(encode_entries(es0) == encode_entries(init) + encode_entry(x));
        assert(q == encode_entries(init).len());
        assert(data.subrange(0, q) =~= data.subrange(0, p).subrange(0, q));
        assert((encode_entries(init) + encode_entry(x)).subrange(0, q) =~= encode_entries(init));
        assert((encode_entries(init) + encode_entry(x)).subrange(q, p) =~= encode_entry(x));
        assert(decodes_to(data.subrange(0, q), init)) by {
            assert forall|i: int| 0 <= i < init.len() implies (#[trigger] init[i]).encodable() by {
                assert(init[i] == es0[i]);
            }
        }
        lemma_decode_prefix(data, es, init, q);
        let m = init.len() as int;
        assert(data.subrange(q, p) =~= data.subrange(0, p).subrange(q, p));
        assert(entry_at(data, q, x)) by {
            assert(es0[es0.len() - 1] == x);
        }
        lemma_encode_take_prefix(es, m);
        if m == es.len() {
            assert(es.take(m) =~= es);
            lemma_encode_entry_len(x);
        } else {
            lemma_entry_at_offset(es, m);
            lemma_entry_at_unique(data, q, x, es[m]);
            lemma_encode_take_step(es, m);
            assert(es0 =~= es.take(m + 1));
        }
    }
}

/// Entries start at strictly ascending offsets.
pub proof fn lemma_offsets_ascend(es: Seq<EntryView>, i: int, j: int)
    requires
        0 <= i < j <= es.len(),
    ensures
        offset_of(es, i) < offset_of(es, j),
    decreases j - i,
{
    lemma_encode_take_step(es, j - 1);
    lemma_encode_entry_len(es[j - 1]);
    if i < j - 1 {
        lemma_offsets_ascend(es, i, j - 1);
    }
}

/// The offset past the last entry is the length of the encoding.
pub proof fn lemma_offset_end(es: Seq<EntryView>)
    ensures
        offset_of(es, es.len() as int) == encode_entries(es).len(),
{
    assert(es.take(es.len() as int) =~= es);
}

/// Bytes decode to at most one sequence of entries.
pub proof fn lemma_decode_unique(data: Seq<u8>, es1: Seq<EntryView>, es2: Seq<EntryView>)
    requires
        decodes_to(data, es1),
        decodes_to(data, es2),
    ensures
        es1 == es2,
{
    assert(data.subrange(0, data.len() as int) =~= data);
    lemma_decode_prefix(data, es1, es2, data.len() as int);
    lemma_decode_prefix(data, es2, es1, data.len() as int);
    assert(es1 =~= es2);
}

/// Decodes all the entries of `data`, in order.
pub fn decode_entries(data: &[u8]) -> (r: Result<Vec<Entry>, Error>)
    ensures
        r matches Ok(v) ==> decodes_to(data@, views(v@)),
        r is Err <==> forall|es: Seq<EntryView>| !decodes_to(data@, es),
        r is Err ==> exists|p: usize| r == Err::<Vec<Entry>, Error>(Error::Malformed(p)),
{
    let mut out: Vec<Entry> = Vec::new();
    let mut pos: usize = 0;
    let len = data.len();
    assert(encode_entries(views(out@)) =~= data@.subrange(0, 0));
    loop
        invariant
            len == data@.len(),
            pos <= data@.len(),
            decodes_to(data@.subrange(0, pos as int), views(out@)),
        decreases data@.len() - pos,
    {
        match read_entry(data, pos) {
            Ok(None) => {
                assert(data@.subrange(0, pos as int) =~= data@);
                return Ok(out);
            },
            Ok(Some((e, n))) => {
                let ghost before = views(out@);
                let ghost ev = e@;
                out.push(e);
                proof {
                    lemma_encode_entry_len(ev);
                    assert(views(out@) =~= before.push(ev));
                    assert(views(out@).drop_last() =~= before);
                    assert(data@.subrange(0, pos + n) =~= data@.subrange(0, pos as int)
                        + data@.subrange(pos as int, pos + n));
                    assert forall|i: int| 0 <= i < views(out@).len() implies (#[trigger] views(
                        out@,
                    )[i]).encodable() by {
                        if i < before.len() {
                            assert(views(out@)[i] == before[i]);
                        }
                    }
                }
                pos = pos + n;
            },
            Err(err) => {
                proof {
                    assert forall|es: Seq<EntryView>| !decodes_to(data@, es) by {
                        if decodes_to(data@, es) {
                            let es0 = views(out@);
                            lemma_decode_prefix(data@, es, es0, pos as int);
                            let m = es0.len() as int;
                            if m == es.len() {
                                assert(es.take(m) =~= es);
                            } else {
                                lemma_entry_at_offset(es, m);
                            }
                        }
                    }
                }
                return Err(err);
            },
        }
    }
}

/// Relies on `String::from_utf8`: it succeeds exactly on UTF-8 input, and the
/// string then holds those bytes.
#[verifier::external_body]
fn string_from_utf8(bytes: Vec<u8>) -> (r: Option<String>)
    ensures
        r is Some <==> valid_utf8(bytes@),
        r matches Some(s) ==> encode_utf8(s@) == bytes@,
{
    String::from_utf8(bytes).ok()
}

proof fn lemma_be32_bytes(b0: u8, b1: u8, b2: u8, b3: u8, n: u32)
    requires
        n == ((b0 as u32) << 24u32) | ((b1 as u32) << 16u32) | ((b2 as u32) << 8u32) | (b3 as u32),
    ensures
        (n >> 24u32) as u8 == b0,
        (n >> 16u32) as u8 == b1,
        (n >> 8u32) as u8 == b2,
        n as u8 == b3,
{
    assert((n >> 24u32) as u8 == b0) by (bit_vector)
        requires
            n == ((b0 as u32) << 24u32) | ((b1 as u32) << 16u32) | ((b2 as u32) << 8u32) | (
            b3 as u32),
    ;
    assert((n >> 16u32) as u8 == b1) by (bit_vector)
        requires
            n == ((b0 as u32) << 24u32) | ((b1 as u32) << 16u32) | ((b2 as u32) << 8u32) | (
            b3 as u32),
    ;
    assert((n >> 8u32) as u8 == b2) by (bit_vector)
        requires
            n == ((b0 as u32) << 24u32) | ((b1 as u32) << 16u32) | ((b2 as u32) << 8u32) | (
            b3 as u32),
    ;
    assert(n as u8 == b3) by (bit_vector)
        requires
            n == ((b0 as u32) << 24u32) | ((b1 as u32) << 16u32) | ((b2 as u32) << 8u32) | (
            b3 as u32),
    ;
}

/// Two lengths with the same prefix bytes are equal.
pub proof fn lemma_be32_injective(a: u32, b: u32)
    requires
        be32(a) == be32(b),
    ensures
        a == b,
{
    assert(be32(a)[0] == be32(b)[0] && be32(a)[1] == be32(b)[1] && be32(a)[2] == be32(b)[2]
        && be32(a)[3] == be32(b)[3]);
    assert(a == b) by (bit_vector)
        requires
            (a >> 24u32) as u8 == (b >> 24u32) as u8,
            (a >> 16u32) as u8 == (b >> 16u32) as u8,
            (a >> 8u32) as u8 == (b >> 8u32) as u8,
            a as u8 == b as u8,
    ;
}

fn read_be32(data: &[u8], pos: usize) -> (r: u32)
    requires
        pos + 4 <= data@.len(),
    ensures
        be32(r) == data@.subrange(pos as int, pos + 4),
{
    let b0 = data[pos];
    let b1 = data[pos + 1];
    let b2 = data[pos + 2];
    let b3 = data[pos + 3];
    let r = ((b0 as u32) << 24u32) | ((b1 as u32) << 16u32) | ((b2 as u32) << 8u32) | (b3 as u32);
    proof {
        lemma_be32_bytes(b0, b1, b2, b3, r);
        assert(be32(r) =~= data@.subrange(pos as int, pos + 4));
    }
    r
}

/// The parts of an entry found at `pos`.
pub proof fn lemma_entry_at_parts(data: Seq<u8>, pos: int, x: EntryView)
    requires
        entry_at(data, pos, x),
    ensures
        data[pos] == (if x is Assignment {
            0u8
        } else {
            1u8
        }),
        data.subrange(pos + 1, pos + 5) == be32(encode_utf8(x.key()).len() as u32),
        data.subrange(pos + 5, pos + 5 + encode_utf8(x.key()).len()) == encode_utf8(x.key()),
        x is Assignment ==> ({
            let k = encode_utf8(x.key()).len();
            let vb = encode_utf8(x.value().unwrap());
            &&& data.subrange(pos + 5 + k, pos + 9 + k) == be32(vb.len() as u32)
            &&& data.subrange(pos + 9 + k, pos + 9 + k + vb.len()) == vb
        }),
        encode_entry(x).len() == (if x is Assignment {
            9 + encode_utf8(x.key()).len() + encode_utf8(x.value().unwrap()).len()
        } else {
            5 + encode_utf8(x.key()).len()
        }),
{
    let enc = encode_entry(x);
    let kb = encode_utf8(x.key());
    let k = kb.len() as int;
    assert(data[pos] == data.subrange(pos, pos + enc.len())[0]);
    assert(data.subrange(pos + 1, pos + 5) =~= enc.subrange(1, 5));
    assert(data.subrange(pos + 5, pos + 5 + k) =~= enc.subrange(5, 5 + k));
    match x {
        EntryView::Assignment { key, value } => {
            let vb = encode_utf8(value);
            let vl = vb.len() as int;
            assert(data.subrange(pos + 5 + k, pos + 9 + k) =~= enc.subrange(5 + k, 9 + k));
            assert(data.subrange(pos + 9 + k, pos + 9 + k + vl) =~= enc.subrange(9 + k, 9 + k + vl));
        },
        EntryView::Tombstone { .. } => {},
    }
}

/// At most one entry stands at a given position.
pub proof fn lemma_entry_at_unique(data: Seq<u8>, pos: int, x: EntryView, y: EntryView)
    requires
        entry_at(data, pos, x),
        entry_at(data, pos, y),
    ensures
        x == y,
{
    lemma_entry_at_parts(data, pos, x);
    lemma_entry_at_parts(data, pos, y);
    let kx = encode_utf8(x.key());
    let ky = encode_utf8(y.key());
    lemma_be32_injective(kx.len() as u32, ky.len() as u32);
    assert(kx == ky);
    encode_utf8_decode_utf8(x.key());
    encode_utf8_decode_utf8(y.key());
    if x is Assignment {
        let k = kx.len();
        let vx = encode_utf8(x.value().unwrap());
        let vy = encode_utf8(y.value().unwrap());
        lemma_be32_injective(vx.len() as u32, vy.len() as u32);
        assert(vx == vy);
        encode_utf8_decode_utf8(x.value().unwrap());
        encode_utf8_decode_utf8(y.value().unwrap());
    }
}

fn read_string(data: &[u8], start: usize, len: usize) -> (r: Option<String>)
    requires
        start + len <= data@.len(),
    ensures
        r is Some <==> valid_utf8(data@.subrange(start as int, start + len)),
        r matches Some(s) ==> encode_utf8(s@) == data@.subrange(start as int, start + len),
{
    let n = data.len();
    let bytes = vstd::slice::slice_to_vec(&data[start..start + len]);
    string_from_utf8(bytes)
}

proof fn lemma_no_entry_header(data: Seq<u8>, pos: int)
    requires
        0 <= pos < data.len(),
        data[pos] > 1 || data.len() - pos < 5,
    ensures
        forall|x: EntryView| !entry_at(data, pos, x),
{
    assert forall|x: EntryView| !entry_at(data, pos, x) by {
        if entry_at(data, pos, x) {
            lemma_entry_at_parts(data, pos, x);
        }
    }
}

proof fn lemma_no_entry_key(data: Seq<u8>, pos: int, key_len: u32)
    requires
        0 <= pos,
        pos + 5 <= data.len(),
        be32(key_len) == data.subrange(pos + 1, pos + 5),
        data.len() < pos + 5 + key_len || !valid_utf8(
            data.subrange(pos + 5, pos + 5 + key_len),
        ),
    ensures
        forall|x: EntryView| !entry_at(data, pos, x),
{
    assert forall|x: EntryView| !entry_at(data, pos, x) by {
        if entry_at(data, pos, x) {
            lemma_entry_at_parts(data, pos, x);
            lemma_be32_injective(key_len, encode_utf8(x.key()).len() as u32);
        }
    }
}

proof fn lemma_no_entry_value(data: Seq<u8>, pos: int, key_len: u32, value_len: u32)
    requires
        0 <= pos,
        pos + 5 + key_len <= data.len(),
        data[pos] == 0,
        be32(key_len) == data.subrange(pos + 1, pos + 5),
        data.len() < pos + 9 + key_len || {
            &&& be32(value_len) == data.subrange(pos + 5 + key_len, pos + 9 + key_len)
            &&& (data.len() < pos + 9 + key_len + value_len || !valid_utf8(
                data.subrange(pos + 9 + key_len, pos + 9 + key_len + value_len),
            ))
        },
    ensures
        forall|x: EntryView| !entry_at(data, pos, x),
{
    assert forall|x: EntryView| !entry_at(data, pos, x) by {
        if entry_at(data, pos, x) {
            lemma_entry_at_parts(data, pos, x);
            lemma_be32_injective(key_len, encode_utf8(x.key()).len() as u32);
            if x is Assignment && pos + 9 + key_len <= data.len() {
                lemma_be32_injective(value_len, encode_utf8(x.value().unwrap()).len() as u32);
            }
        }
    }
}

/// Reads the entry at byte `pos` of `data`: `None` at the end of the data,
/// and an error where no well-formed entry starts at `pos`.
pub fn read_entry(data: &[u8], pos: usize) -> (r: Result<Option<(Entry, usize)>, Error>)
    requires
        pos <= data@.len(),
    ensures
        r matches Ok(None) <==> pos == data@.len(),
        r matches Ok(Some((e, n))) ==> entry_at(data@, pos as int, e@) && n == encode_entry(
            e@,
        ).len(),
        r is Err ==> r == Err::<Option<(Entry, usize)>, Error>(Error::Malformed(pos)),
        r is Err <==> pos < data@.len() && forall|x: EntryView| !entry_at(data@, pos as int, x),
{
    let len = data.len();
    if pos == len {
        return Ok(None);
    }
    let indicator = data[pos];
    let kind = EntryIndicator::from_u8_opt(indicator);
    if kind.is_none() || len - pos < 5 {
        proof {
            lemma_no_entry_header(data@, pos as int);
        }
        return Err(Error::Malformed(pos));
    }
    let key_len32 = read_be32(data, pos + 1);
    let key_len = key_len32 as usize;
    if len - pos - 5 < key_len {
        proof {
            lemma_no_entry_key(data@, pos as int, key_len32);
        }
        return Err(Error::Malformed(pos));
    }
    let key_start = pos + 5;
    let key = match read_string(data, key_start, key_len) {
        Some(key) => key,
        None => {
            proof {
                lemma_no_entry_key(data@, pos as int, key_len32);
            }
            return Err(Error::Malformed(pos));
        },
    };
    let key_end = key_start + key_len;
    match kind {
        Some(EntryIndicator::Tombstone) => {
            let e = Entry::Tombstone { key };
            proof {
                assert(data@.subrange(pos as int, key_end as int) =~= seq![1u8] + data@.subrange(
                    pos + 1,
                    pos + 5,
                ) + data@.subrange(pos + 5, key_end as int));
                assert(data@.subrange(pos as int, key_end as int) =~= encode_entry(e@));
                assert(entry_at(data@, pos as int, e@));
            }
            Ok(Some((e, key_end - pos)))
        },
        _ => read_assignment_rest(data, pos, key_len32, key),
    }
}

fn read_assignment_rest(data: &[u8], pos: usize, key_len32: u32, key: String) -> (r: Result<
    Option<(Entry, usize)>,
    Error,
>)
    requires
        pos + 5 + key_len32 <= data@.len(),
        data@[pos as int] == 0,
        be32(key_len32) == data@.subrange(pos + 1, pos + 5),
        encode_utf8(key@) == data@.subrange(pos + 5, pos + 5 + key_len32),
    ensures
        r matches Ok(Some((e, n))) ==> entry_at(data@, pos as int, e@) && n == encode_entry(
            e@,
        ).len(),
        r is Err ==> r == Err::<Option<(Entry, usize)>, Error>(Error::Malformed(pos)),
        r is Err <==> forall|x: EntryView| !entry_at(data@, pos as int, x),
        !(r matches Ok(None)),
{
    let len = data.len();
    let key_end = pos + 5 + key_len32 as usize;
    if len - key_end < 4 {
        proof {
            lemma_no_entry_value(data@, pos as int, key_len32, 0);
        }
        return Err(Error::Malformed(pos));
    }
    let value_len32 = read_be32(data, key_end);
    let value_len = value_len32 as usize;
    if len - key_end - 4 < value_len {
        proof {
            lemma_no_entry_value(data@, pos as int, key_len32, value_len32);
        }
        return Err(Error::Malformed(pos));
    }
    let value_start = key_end + 4;
    let value = match read_string(data, value_start, value_len) {
        Some(value) => value,
        None => {
            proof {
                lemma_no_entry_value(data@, pos as int, key_len32, value_len32);
            }
            return Err(Error::Malformed(pos));
        },
    };
    let value_end = value_start + value_len;
    let e = Entry::Assignment { key, value };
    proof {
        assert(data@.subrange(pos as int, value_end as int) =~= seq![0u8] + data@.subrange(
            pos + 1,
            pos + 5,
        ) + data@.subrange(pos + 5, key_end as int) + data@.subrange(key_end as int, key_end + 4)
            + data@.subrange(value_start as int, value_end as int));
        assert(data@.subrange(pos as int, value_end as int) =~= encode_entry(e@));
        assert(entry_at(data@, pos as int, e@));
    }
    Ok(Some((e, value_end - pos)))
}


pub open spec fn is_digit(c: char) -> bool {
    '0' <= c <= '9'
}

pub open spec fn digit_value(c: char) -> nat {
    (c as int - '0' as int) as nat
}

/// The number that a string of decimal digits spells.
pub open spec fn digits_value(s: Seq<char>) -> nat
    decreases s.len(),
{
    if s.len() == 0 {
        0
    } else {
        digits_value(s.drop_last()) * 10 + digit_value(s.last())
    }
}

/// The digits of a number, after an optional `+`.
pub open spec fn unsigned_digits(s: Seq<char>) -> Seq<char> {
    if s.len() > 0 && s[0] == '+' {
        s.drop_first()
    } else {
        s
    }
}

pub open spec fn all_digits(d: Seq<char>) -> bool {
    forall|i: int| 0 <= i < d.len() ==> is_digit(#[trigger] d[i])
}

/// What `str::parse` accepts for an unsigned integer type whose largest
/// value is `max`: an optional `+`, then at least one decimal digit,
/// spelling a number no greater than `max`.
pub open spec fn parse_uint_of(s: Seq<char>, max: nat) -> Option<nat> {
    let d = unsigned_digits(s);
    if d.len() > 0 && all_digits(d) && digits_value(d) <= max {
        Some(digits_value(d))
    } else {
        None
    }
}

/// What `str::parse::<u32>` accepts.
pub open spec fn parse_u32_of(s: Seq<char>) -> Option<u32> {
    match parse_uint_of(s, u32::MAX as nat) {
        Some(v) => Some(v as u32),
        None => None,
    }
}

/// The id in a file name of the form `segment-<id>.dat`.
pub open spec fn segment_number_of(name: Seq<char>) -> Option<u32> {
    if name.len() >= 12 && name.subrange(0, 8) == "segment-"@ && name.subrange(
        name.len() - 4,
        name.len() as int,
    ) == ".dat"@ {
        parse_u32_of(name.subrange(8, name.len() - 4))
    } else {
        None
    }
}

/// Whether `s` holds `lit` at character position `at`.
fn holds_at(s: &str, at: usize, lit: &str) -> (r: bool)
    requires
        at + lit@.len() <= s@.len(),
    ensures
        r == (s@.subrange(at as int, at + lit@.len()) == lit@),
{
    let n = lit.unicode_len();
    let sn = s.unicode_len();
    let mut i: usize = 0;
    while i < n
        invariant
            n == lit@.len(),
            sn == s@.len(),
            at + n <= s@.len(),
            i <= n,
            s@.subrange(at as int, at + i) == lit@.subrange(0, i as int),
        decreases n - i,
    {
        if s.get_char(at + i) != lit.get_char(i) {
            assert(s@.subrange(at as int, at + n)[i as int] != lit@[i as int]);
            return false;
        }
        assert(s@.subrange(at as int, at + i + 1) =~= s@.subrange(at as int, at + i).push(
            s@[at + i],
        ));
        assert(lit@.subrange(0, i + 1) =~= lit@.subrange(0, i as int).push(lit@[i as int]));
        i = i + 1;
    }
    assert(lit@.subrange(0, n as int) =~= lit@);
    true
}

/// Parses the characters `from..to` of `s` as `str::parse` does for an
/// unsigned integer type whose largest value is `max`.
pub fn parse_uint_range(s: &str, from: usize, to: usize, max: u64) -> (r: Option<u64>)
    requires
        from <= to <= s@.len(),
    ensures
        match r {
            Some(v) => parse_uint_of(s@.subrange(from as int, to as int), max as nat) == Some(
                v as nat,
            ),
            None => parse_uint_of(s@.subrange(from as int, to as int), max as nat) is None,
        },
{
    let ghost t = s@.subrange(from as int, to as int);
    let mut i = from;
    if i < to && s.get_char(i) == '+' {
        i = i + 1;
    }
    let ghost d = s@.subrange(i as int, to as int);
    assert(d == unsigned_digits(t));
    if i == to {
        return None;
    }
    let start = i;
    let mut value: u64 = 0;
    while i < to
        invariant
            start <= i <= to <= s@.len(),
            start < to,
            t == s@.subrange(from as int, to as int),
            d == s@.subrange(start as int, to as int),
            d == unsigned_digits(t),
            forall|j: int| 0 <= j < i - start ==> is_digit(#[trigger] d[j]),
            value == digits_value(s@.subrange(start as int, i as int)),
            value <= max,
        decreases to - i,
    {
        let c = s.get_char(i);
        assert(d[i - start] == c);
        if !('0' <= c && c <= '9') {
            assert(!is_digit(d[i - start]));
            assert(!all_digits(d));
            return None;
        }
        let dg = c as u64 - '0' as u64;
        assert(s@.subrange(start as int, i + 1).drop_last() =~= s@.subrange(start as int, i as int));
        assert(s@.subrange(start as int, i + 1).last() == c);
        if dg > max || value > (max - dg) / 10 {
            proof {
                assert(value * 10 + dg > max) by (nonlinear_arith)
                    requires
                        dg > max || value > (max - dg) / 10,
                        value <= max,
                ;
                assert(d.subrange(0, i + 1 - start) =~= s@.subrange(start as int, i + 1));
                if all_digits(d) {
                    lemma_digits_value_prefix(d, i + 1 - start);
                }
            }
            return None;
        }
        proof {
            assert(value * 10 + dg <= max) by (nonlinear_arith)
                requires
                    dg <= max,
                    value <= (max - dg) / 10,
            ;
        }
        let next = value * 10 + dg;
        assert(next == digits_value(s@.subrange(start as int, i + 1)));
        value = next;
        i = i + 1;
    }
    assert(s@.subrange(start as int, i as int) =~= d);
    Some(value)
}

/// A number spelled by digits is at least the number its prefix spells.
proof fn lemma_digits_value_prefix(d: Seq<char>, n: int)
    requires
        0 <= n <= d.len(),
        forall|j: int| 0 <= j < d.len() ==> is_digit(#[trigger] d[j]),
    ensures
        digits_value(d.subrange(0, n)) <= digits_value(d),
    decreases d.len(),
{
    if n < d.len() {
        assert(d.drop_last().subrange(0, n) =~= d.subrange(0, n));
        lemma_digits_value_prefix(d.drop_last(), n);
    } else {
        assert(d.subrange(0, n) =~= d);
    }
}

/// The id of a segment file named `segment-<id>.dat`, or `None` for any
/// other name.
pub fn segment_file_number(name: &str) -> (r: Option<u32>)
    ensures
        r == segment_number_of(name@),
{
    let n = name.unicode_len();
    if n < 12 {
        return None;
    }
    proof {
        reveal_strlit("segment-");
        reveal_strlit(".dat");
    }
    if !holds_at(name, 0, "segment-") || !holds_at(name, n - 4, ".dat") {
        return None;
    }
    match parse_uint_range(name, 8, n - 4, u32::MAX as u64) {
        Some(v) => Some(v as u32),
        None => None,
    }
}

/// The canonical decimal spelling of `n`.
pub open spec fn decimal_of(n: nat) -> Seq<char>
    decreases n,
{
    if n < 10 {
        seq![seq!['0', '1', '2', '3', '4', '5', '6', '7', '8', '9'][n as int]]
    } else {
        decimal_of(n / 10).push(seq!['0', '1', '2', '3', '4', '5', '6', '7', '8', '9'][(n % 10) as int])
    }
}

/// The canonical decimal spelling of `n`, as the `Display` of integers
/// writes it.
fn decimal_string(n: u32) -> (r: String)
    ensures
        r@ == decimal_of(n as nat),
    decreases n,
{
    let table = "0123456789";
    proof {
        reveal_strlit("0123456789");
    }
    let d = (n % 10) as usize;
    let last = table.substring_char(d, d + 1);
    assert(last@ =~= seq![seq!['0', '1', '2', '3', '4', '5', '6', '7', '8', '9'][d as int]]);
    if n < 10 {
        String::from_str(last)
    } else {
        let mut digits = decimal_string(n / 10);
        digits.append(last);
        assert(digits@ =~= decimal_of((n / 10) as nat).push(
            seq!['0', '1', '2', '3', '4', '5', '6', '7', '8', '9'][(n % 10) as int],
        ));
        digits
    }
}

/// The file name of the segment with id `number`.
pub fn segment_filename(number: u32) -> (r: String)
    ensures
        r@ == "segment-"@ + decimal_of(number as nat) + ".dat"@,
{
    let mut name = String::from_str("segment-");
    let digits = decimal_string(number);
    name.append(digits.as_str());
    name.append(".dat");
    name
}

/// Whether a file name is that of a segment: `segment-<id>.dat`, with a
/// `u32` id.
pub fn is_segment_filename(filename: &str) -> (r: bool)
    ensures
        r == segment_number_of(filename@) is Some,
{
    segment_file_number(filename).is_some()
}

} // verus!
