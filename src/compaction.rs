//! Compaction: merging two segments into one, the newer winning on equal keys.
use vstd::prelude::*;
use std::cmp::Ordering;
use crate::error::Error;
use crate::keys::{compare_keys, key_lt, lemma_key_lt_transitive, lemma_key_order_auto};
use crate::segment::{
    decode_entries, decodes_to, lemma_decode_unique, keys_ascending, lookup, views,
    EntryView,
};

verus! {

broadcast use lemma_key_order_auto, lemma_key_lt_transitive;

/// The two-way merge of an older run `a` and a newer run `b`: the entry with
/// the lesser key goes first, and of two entries with one key only `b`'s stays.
pub open spec fn merge(a: Seq<EntryView>, b: Seq<EntryView>) -> Seq<EntryView>
    decreases a.len() + b.len(),
{
    if a.len() == 0 {
        b
    } else if b.len() == 0 {
        a
    } else if key_lt(a[0].key(), b[0].key()) {
        seq![a[0]] + merge(a.drop_first(), b)
    } else if key_lt(b[0].key(), a[0].key()) {
        seq![b[0]] + merge(a, b.drop_first())
    } else {
        seq![b[0]] + merge(a.drop_first(), b.drop_first())
    }
}

/// What a lookup through a list of runs, newest first, finds: the newer run's
/// entry for `k` if it has one, else the older run's.
pub open spec fn lookup_newest_first(a: Seq<EntryView>, b: Seq<EntryView>, k: Seq<char>) -> Option<
    Option<Seq<char>>,
> {
    if lookup(b, k) is Some {
        lookup(b, k)
    } else {
        lookup(a, k)
    }
}

pub open spec fn all_above(es: Seq<EntryView>, k: Seq<char>) -> bool {
    forall|i: int| 0 <= i < es.len() ==> key_lt(k, #[trigger] es[i].key())
}

proof fn lemma_ascending_tail(es: Seq<EntryView>)
    requires
        keys_ascending(es),
        es.len() > 0,
    ensures
        keys_ascending(es.drop_first()),
        all_above(es.drop_first(), es[0].key()),
{
    let t = es.drop_first();
    assert forall|i: int, j: int| 0 <= i < j < t.len() implies key_lt(
        #[trigger] t[i].key(),
        #[trigger] t[j].key(),
    ) by {
        assert(t[i] == es[i + 1] && t[j] == es[j + 1]);
    }
    assert forall|i: int| 0 <= i < t.len() implies key_lt(es[0].key(), #[trigger] t[i].key()) by {
        assert(t[i] == es[i + 1]);
    }
}

proof fn lemma_ascending_cons(x: EntryView, es: Seq<EntryView>)
    requires
        keys_ascending(es),
        all_above(es, x.key()),
    ensures
        keys_ascending(seq![x] + es),
{
    let s = seq![x] + es;
    assert forall|i: int, j: int| 0 <= i < j < s.len() implies key_lt(
        #[trigger] s[i].key(),
        #[trigger] s[j].key(),
    ) by {
        if i == 0 {
            assert(s[j] == es[j - 1]);
        } else {
            assert(s[i] == es[i - 1] && s[j] == es[j - 1]);
        }
    }
}

proof fn lemma_lookup_below(es: Seq<EntryView>, k: Seq<char>)
    requires
        all_above(es, k),
    ensures
        lookup(es, k) is None,
    decreases es.len(),
{
    if es.len() > 0 {
        assert(key_lt(k, es[0].key()));
        let t = es.drop_first();
        assert forall|i: int| 0 <= i < t.len() implies key_lt(k, #[trigger] t[i].key()) by {
            assert(t[i] == es[i + 1]);
        }
        lemma_lookup_below(t, k);
    }
}

proof fn lemma_merge_above(a: Seq<EntryView>, b: Seq<EntryView>, k: Seq<char>)
    requires
        all_above(a, k),
        all_above(b, k),
    ensures
        all_above(merge(a, b), k),
    decreases a.len() + b.len(),
{
    if a.len() > 0 && b.len() > 0 {
        let m = merge(a, b);
        assert(key_lt(k, a[0].key()) && key_lt(k, b[0].key()));
        let (a2, b2, x) = if key_lt(a[0].key(), b[0].key()) {
            (a.drop_first(), b, a[0])
        } else if key_lt(b[0].key(), a[0].key()) {
            (a, b.drop_first(), b[0])
        } else {
            (a.drop_first(), b.drop_first(), b[0])
        };
        assert(all_above(a2, k)) by {
            assert forall|i: int| 0 <= i < a2.len() implies key_lt(k, #[trigger] a2[i].key()) by {
                if a2.len() < a.len() {
                    assert(a2[i] == a[i + 1]);
                }
            }
        }
        assert(all_above(b2, k)) by {
            assert forall|i: int| 0 <= i < b2.len() implies key_lt(k, #[trigger] b2[i].key()) by {
                if b2.len() < b.len() {
                    assert(b2[i] == b[i + 1]);
                }
            }
        }
        lemma_merge_above(a2, b2, k);
        assert(m == seq![x] + merge(a2, b2));
        assert forall|i: int| 0 <= i < m.len() implies key_lt(k, #[trigger] m[i].key()) by {
            if i > 0 {
                assert(m[i] == merge(a2, b2)[i - 1]);
            }
        }
    }
}

/// Merging two runs with ascending keys gives a run with ascending keys, and a
/// lookup in it finds what a lookup through the two runs, newest first, finds.
pub proof fn lemma_merge_law(a: Seq<EntryView>, b: Seq<EntryView>)
    requires
        keys_ascending(a),
        keys_ascending(b),
    ensures
        keys_ascending(merge(a, b)),
        forall|k: Seq<char>| #[trigger] lookup(merge(a, b), k) == lookup_newest_first(a, b, k),
    decreases a.len() + b.len(),
{
    if a.len() == 0 {
        assert forall|k: Seq<char>| #[trigger] lookup(merge(a, b), k) == lookup_newest_first(
            a,
            b,
            k,
        ) by {}
    } else if b.len() == 0 {
        assert forall|k: Seq<char>| #[trigger] lookup(merge(a, b), k) == lookup_newest_first(
            a,
            b,
            k,
        ) by {}
    } else {
        lemma_ascending_tail(a);
        lemma_ascending_tail(b);
        let a1 = a.drop_first();
        let b1 = b.drop_first();
        if key_lt(a[0].key(), b[0].key()) {
            lemma_merge_law(a1, b);
            assert(all_above(b, a[0].key())) by {
                assert forall|i: int| 0 <= i < b.len() implies key_lt(
                    a[0].key(),
                    #[trigger] b[i].key(),
                ) by {
                    if i > 0 {
                        assert(key_lt(b[0].key(), b[i].key()));
                    }
                }
            }
            lemma_merge_above(a1, b, a[0].key());
            lemma_ascending_cons(a[0], merge(a1, b));
            lemma_lookup_below(b, a[0].key());
            assert forall|k: Seq<char>| #[trigger] lookup(merge(a, b), k) == lookup_newest_first(
                a,
                b,
                k,
            ) by {
                assert((seq![a[0]] + merge(a1, b)).drop_first() =~= merge(a1, b));
                assert(lookup(merge(a1, b), k) == lookup_newest_first(a1, b, k));
            }
        } else if key_lt(b[0].key(), a[0].key()) {
            lemma_merge_law(a, b1);
            assert(all_above(a, b[0].key())) by {
                assert forall|i: int| 0 <= i < a.len() implies key_lt(
                    b[0].key(),
                    #[trigger] a[i].key(),
                ) by {
                    if i > 0 {
                        assert(key_lt(a[0].key(), a[i].key()));
                    }
                }
            }
            lemma_merge_above(a, b1, b[0].key());
            lemma_ascending_cons(b[0], merge(a, b1));
            lemma_lookup_below(a, b[0].key());
            assert forall|k: Seq<char>| #[trigger] lookup(merge(a, b), k) == lookup_newest_first(
                a,
                b,
                k,
            ) by {
                assert((seq![b[0]] + merge(a, b1)).drop_first() =~= merge(a, b1));
                assert(lookup(merge(a, b1), k) == lookup_newest_first(a, b1, k));
            }
        } else {
            assert(a[0].key() == b[0].key());
            lemma_merge_law(a1, b1);
            lemma_merge_above(a1, b1, b[0].key());
            lemma_ascending_cons(b[0], merge(a1, b1));
            assert forall|k: Seq<char>| #[trigger] lookup(merge(a, b), k) == lookup_newest_first(
                a,
                b,
                k,
            ) by {
                assert((seq![b[0]] + merge(a1, b1)).drop_first() =~= merge(a1, b1));
                assert(lookup(merge(a1, b1), k) == lookup_newest_first(a1, b1, k));
            }
        }
    }
}


/// Merges the segment `first` with the newer segment `second` into the bytes
/// of one segment: entries in key order, and of two entries with one key the
/// one from `second`. Fails where either segment is malformed.
pub fn compact(first: &[u8], second: &[u8]) -> (r: Result<Vec<u8>, Error>)
    ensures
        r is Err <==> (forall|a: Seq<EntryView>| !decodes_to(first@, a)) || (forall|
            b: Seq<EntryView>,
        | !decodes_to(second@, b)),
        forall|a: Seq<EntryView>, b: Seq<EntryView>|
            #![trigger decodes_to(first@, a), decodes_to(second@, b)]
            decodes_to(first@, a) && decodes_to(second@, b) ==> (r matches Ok(out) && decodes_to(
                out@,
                merge(a, b),
            )),
        r matches Err(e) ==> e is Malformed,
{
    let va = match decode_entries(first) {
        Ok(v) => v,
        Err(e) => {
            return Err(e);
        },
    };
    let vb = match decode_entries(second) {
        Ok(v) => v,
        Err(e) => {
            return Err(e);
        },
    };
    let ghost a = views(va@);
    let ghost b = views(vb@);
    let mut out: Vec<u8> = Vec::new();
    let ghost mut done: Seq<EntryView> = Seq::empty();
    let mut i: usize = 0;
    let mut j: usize = 0;
    assert(a.skip(0) =~= a);
    assert(b.skip(0) =~= b);
    assert(done + merge(a, b) =~= merge(a, b));
    while i < va.len() || j < vb.len()
        invariant
            a == views(va@),
            b == views(vb@),
            decodes_to(first@, a),
            decodes_to(second@, b),
            i <= va@.len(),
            j <= vb@.len(),
            done + merge(a.skip(i as int), b.skip(j as int)) == merge(a, b),
            decodes_to(out@, done),
        decreases va@.len() - i + vb@.len() - j,
    {
        let ghost rest_a = a.skip(i as int);
        let ghost rest_b = b.skip(j as int);
        let take_first;
        let take_second;
        if i == va.len() {
            take_first = false;
            take_second = true;
        } else if j == vb.len() {
            take_first = true;
            take_second = false;
        } else {
            match compare_keys(va[i].key().as_str(), vb[j].key().as_str()) {
                Ordering::Less => {
                    take_first = true;
                    take_second = false;
                },
                Ordering::Greater => {
                    take_first = false;
                    take_second = true;
                },
                Ordering::Equal => {
                    take_first = true;
                    take_second = true;
                },
            }
        }
        let ghost x: EntryView;
        if take_second {
            proof {
                x = b[j as int];
                assert(x.encodable());
            }
            let _ = vb[j].write(&mut out);
        } else {
            proof {
                x = a[i as int];
                assert(x.encodable());
            }
            let _ = va[i].write(&mut out);
        }
        proof {
            let next_a = if take_first { a.skip(i + 1) } else { rest_a };
            let next_b = if take_second { b.skip(j + 1) } else { rest_b };
            if take_first {
                assert(rest_a.drop_first() =~= next_a);
                assert(rest_a[0] == a[i as int]);
            }
            if take_second {
                assert(rest_b.drop_first() =~= next_b);
                assert(rest_b[0] == b[j as int]);
            }
            if i == va.len() {
                assert(rest_a.len() == 0);
                assert(merge(rest_a, rest_b) == rest_b);
                assert(rest_b =~= seq![x] + next_b);
            } else if j == vb.len() {
                assert(rest_b.len() == 0);
                assert(merge(rest_a, rest_b) == rest_a);
                assert(rest_a =~= seq![x] + next_a);
            } else {
                assert(merge(rest_a, rest_b) == seq![x] + merge(next_a, next_b));
            }
            if i == va.len() || j == vb.len() {
                if i == va.len() {
                    assert(next_a.len() == 0);
                } else {
                    assert(next_b.len() == 0);
                }
                assert(merge(rest_a, rest_b) == seq![x] + merge(next_a, next_b));
            }
            let done2 = done.push(x);
            assert(done2 + merge(next_a, next_b) =~= done + (seq![x] + merge(next_a, next_b)));
            assert(done2.drop_last() =~= done);
            assert forall|k: int| 0 <= k < done2.len() implies (#[trigger] done2[k]).encodable() by {
                if k < done.len() {
                    assert(done2[k] == done[k]);
                }
            }
            done = done2;
        }
        if take_first {
            i = i + 1;
        }
        if take_second {
            j = j + 1;
        }
    }
    proof {
        assert(a.skip(i as int) =~= Seq::<EntryView>::empty());
        assert(b.skip(j as int) =~= Seq::<EntryView>::empty());
        assert(done =~= merge(a, b));
        assert forall|a2: Seq<EntryView>, b2: Seq<EntryView>|
            decodes_to(first@, a2) && decodes_to(second@, b2) implies decodes_to(
            out@,
            merge(a2, b2),
        ) by {
            lemma_decode_unique(first@, a, a2);
            lemma_decode_unique(second@, b, b2);
        }
    }
    Ok(out)
}

/// What the background compactor does at a tick.
#[derive(Debug, Clone, Copy, PartialEq, Eq, Structural)]
pub enum Tick {
    /// Shutdown was asked for: stop.
    Stop,
    /// The interval has passed: attempt one compaction step.
    Compact,
    /// Sleep until the next tick.
    Wait,
}

/// The compactor's decision at a tick: stop once shutdown is asked for, else
/// compact once `interval_seconds` have passed since the last step.
pub fn compaction_tick(shutdown: bool, elapsed_seconds: u64, interval_seconds: u64) -> (r: Tick)
    ensures
        shutdown ==> r == Tick::Stop,
        !shutdown && elapsed_seconds >= interval_seconds ==> r == Tick::Compact,
        !shutdown && elapsed_seconds < interval_seconds ==> r == Tick::Wait,
{
    if shutdown {
        Tick::Stop
    } else if elapsed_seconds >= interval_seconds {
        Tick::Compact
    } else {
        Tick::Wait
    }
}

} // verus!
