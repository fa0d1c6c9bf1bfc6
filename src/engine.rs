//! The engine: a memtable in front of the segments, with the write-ahead log's
//! contents tracked so that a restart can rebuild the memtable.
//!
//! The engine holds no files. A caller appends each write's log record (see
//! `segment::write` and `segment::tombstone`) before applying the write here,
//! writes out a segment when a write reports a flush, and starts the engine
//! again from the segments' and the log's bytes.
use vstd::prelude::*;
use vstd::utf8::encode_utf8;
use crate::error::{Error, PairComponent};
use crate::compaction::merge;
use crate::memtable::{apply_entries, entry_of, Memtable, MemtableArgs};
use crate::segment::{decodes_to, keys_ascending, lookup, EntryView, U32_MAX_LEN};
use crate::segment_handle::SegmentHandle;
use crate::store::{encode_memtable, ids_ascending, lookup_runs, replay_wal, SegmentList, StoreArgs};

verus! {

/// What the engine answers for `k`: the memtable's value or tombstone where it
/// has one, else what the segments say, newest first; `None` where nothing
/// holds a value.
pub open spec fn resolve(
    memtable: Map<Seq<char>, Option<Seq<char>>>,
    runs: Seq<Seq<EntryView>>,
    k: Seq<char>,
) -> Option<Seq<char>> {
    if memtable.contains_key(k) {
        memtable[k]
    } else {
        match lookup_runs(runs, k) {
            Some(v) => v,
            None => None,
        }
    }
}

/// `data` holds a segment: entries whose keys strictly ascend.
pub open spec fn is_segment(data: Seq<u8>) -> bool {
    exists|es: Seq<EntryView>| decodes_to(data, es) && keys_ascending(es)
}

/// The ids of segments given with their bytes.
pub open spec fn ids_of(segments: Seq<(u32, Vec<u8>)>) -> Seq<u32> {
    segments.map_values(|s: (u32, Vec<u8>)| s.0)
}

/// `run` holds exactly the pairs of the memtable `m`: its keys strictly
/// ascend, and a lookup in it finds what `m` holds of each key.
pub open spec fn holds_memtable(run: Seq<EntryView>, m: Map<Seq<char>, Option<Seq<char>>>) -> bool {
    &&& keys_ascending(run)
    &&& forall|k: Seq<char>|
        #[trigger] lookup(run, k) == (if m.contains_key(k) {
            Some(m[k])
        } else {
            None
        })
}

/// The id of the next flushed segment: one above the newest, or 1.
pub open spec fn next_id_of(ids: Seq<u32>) -> int {
    if ids.len() == 0 {
        1
    } else {
        ids.last() + 1
    }
}

/// `after` is `before` with the memtable `m` flushed into a new, newest
/// segment with id `id`, and with an empty memtable and log.
pub open spec fn flushed(before: Engine, m: Map<Seq<char>, Option<Seq<char>>>, id: u32, after: Engine) -> bool {
    &&& after.runs().len() == before.runs().len() + 1
    &&& after.runs().drop_last() == before.runs()
    &&& holds_memtable(after.runs().last(), m)
    &&& id == next_id_of(before.ids())
    &&& after.ids() == before.ids().push(id)
    &&& after.wal() == Seq::<EntryView>::empty()
    &&& after.memtable_view() == Map::<Seq<char>, Option<Seq<char>>>::empty()
}

/// The error for a key or value too long for its length prefix, the key
/// checked first; `None` when both fit.
pub open spec fn too_large(key: Seq<char>, value: Option<Seq<char>>) -> Option<Error> {
    if encode_utf8(key).len() > U32_MAX_LEN {
        Some(Error::TooLarge(PairComponent::Key, encode_utf8(key).len() as usize, U32_MAX_LEN))
    } else if value is Some && encode_utf8(value.unwrap()).len() > U32_MAX_LEN {
        Some(
            Error::TooLarge(
                PairComponent::Value,
                encode_utf8(value.unwrap()).len() as usize,
                U32_MAX_LEN,
            ),
        )
    } else {
        None
    }
}

pub struct EngineArgs {
    pub memtable: MemtableArgs,
    pub store: StoreArgs,
}

impl Default for EngineArgs {
    fn default() -> (r: Self)
        ensures
            r.memtable.capacity == crate::memtable::DEFAULT_CAPACITY,
            r.store.compaction_enabled,
            r.store.compaction_interval_seconds == crate::store::DEFAULT_COMPACTION_INTERVAL_SECONDS,
    {
        EngineArgs { memtable: MemtableArgs::default(), store: StoreArgs::default() }
    }
}

pub struct Engine {
    memtable: Memtable,
    segments: SegmentList,
    wal: Ghost<Seq<EntryView>>,
}

impl Engine {
    pub closed spec fn memtable_view(&self) -> Map<Seq<char>, Option<Seq<char>>> {
        self.memtable@
    }

    /// The entries of each segment, oldest first.
    pub closed spec fn runs(&self) -> Seq<Seq<EntryView>> {
        self.segments.runs()
    }

    /// The ids of the segments, oldest first.
    pub closed spec fn ids(&self) -> Seq<u32> {
        self.segments.ids()
    }

    /// The writes since the last flush, in order: what the write-ahead log
    /// holds.
    pub closed spec fn wal(&self) -> Seq<EntryView> {
        self.wal@
    }

    pub closed spec fn spec_capacity(&self) -> usize {
        self.memtable.spec_capacity()
    }

    /// What a `get` of `k` returns.
    pub open spec fn answer(&self, k: Seq<char>) -> Option<Seq<char>> {
        resolve(self.memtable_view(), self.runs(), k)
    }

    /// The memtable is what the log's writes make of an empty one, and every
    /// write fits its length prefixes.
    pub closed spec fn wf(&self) -> bool {
        &&& self.memtable.wf()
        &&& self.segments.wf()
        &&& self.memtable@ == apply_entries(Map::empty(), self.wal@)
        &&& forall|i: int| 0 <= i < self.wal@.len() ==> (#[trigger] self.wal@[i]).encodable()
        &&& forall|k: Seq<char>| #[trigger] self.memtable@.contains_key(k) ==> entry_of(k, self.memtable@[k]).encodable()
    }

    /// Starts the engine from the segments on disk, each with its id, oldest
    /// first, and from the bytes of the write-ahead log, which it replays.
    pub fn with_args(args: EngineArgs, segments: Vec<(u32, Vec<u8>)>, wal: Vec<u8>) -> (r: Result<Self, Error>)
        ensures
            r matches Ok(e) ==> {
                &&& e.wf()
                &&& e.spec_capacity() == args.memtable.capacity
                &&& e.ids() == ids_of(segments@)
                &&& e.runs().len() == segments@.len()
                &&& forall|i: int| 0 <= i < segments@.len() ==> decodes_to(#[trigger] segments@[i].1@, e.runs()[i])
                &&& decodes_to(wal@, e.wal())
                &&& e.memtable_view() == apply_entries(Map::empty(), e.wal())
            },
            r is Ok <==> {
                &&& ids_ascending(ids_of(segments@))
                &&& forall|i: int| 0 <= i < segments@.len() ==> is_segment(#[trigger] segments@[i].1@)
                &&& exists|es: Seq<EntryView>| decodes_to(wal@, es)
            },
            r matches Err(e) ==> e is Malformed || e is Io,
    {
        let mut list = SegmentList::new();
        let ghost all = segments@;
        let mut rest = segments;
        let mut i: usize = 0;
        let n = rest.len();
        assert(rest@ =~= all.skip(0));
        while i < n
            invariant
                all == segments@,
                n == all.len(),
                i <= n,
                rest@ == all.skip(i as int),
                list.wf(),
                list.ids() == ids_of(all.take(i as int)),
                list.runs().len() == i,
                forall|j: int| 0 <= j < i ==> decodes_to(#[trigger] all[j].1@, list.runs()[j]),
            decreases n - i,
        {
            let (id, data) = rest.remove(0);
            proof {
                assert(rest@ =~= all.skip(i + 1));
            }
            let ghost bytes = data@;
            let handle = match SegmentHandle::open(data) {
                Ok(h) => h,
                Err(e) => {
                    proof {
                        assert(all[i as int].1@ == bytes);
                        assert(!is_segment(all[i as int].1@));
                    }
                    return Err(e);
                },
            };
            let count = list.len();
            if id == 0 || (count > 0 && list.id(count - 1) >= id) {
                proof {
                    list.lemma_ids();
                    let ids = ids_of(all);
                    assert(ids[i as int] == id);
                    if count > 0 {
                        assert(list.ids()[count - 1] == ids_of(all.take(i as int))[count - 1]);
                        assert(list.ids()[count - 1] == ids[count - 1]);
                        assert(ids[count - 1] >= ids[i as int]);
                    }
                    assert(!ids_ascending(ids));
                }
                return Err(Error::Io(String::from_str("segment ids are not ascending")));
            }
            let ghost before = list.runs();
            list.push(id, handle);
            proof {
                assert(ids_of(all.take(i + 1)) =~= ids_of(all.take(i as int)).push(id));
                assert forall|j: int| 0 <= j < i + 1 implies decodes_to(#[trigger] all[j].1@, list.runs()[j]) by {
                    if j < i {
                        assert(list.runs()[j] == before[j]);
                    }
                }
            }
            i = i + 1;
        }
        proof {
            list.lemma_ids();
            assert(all.take(n as int) =~= all);
            assert(ids_of(all.take(n as int)) =~= ids_of(all));
        }
        let mut memtable = Memtable::new(args.memtable);
        match replay_wal(wal.as_slice(), &mut memtable) {
            Ok(()) => {},
            Err(e) => {
                return Err(e);
            },
        }
        let ghost wal_entries = choose|es: Seq<EntryView>| decodes_to(wal@, es);
        proof {
            assert(ids_ascending(ids_of(segments@)));
            list.lemma_runs_ascending();
            assert forall|j: int| 0 <= j < segments@.len() implies is_segment(#[trigger] segments@[j].1@) by {
                assert(decodes_to(all[j].1@, list.runs()[j]));
                assert(keys_ascending(list.runs()[j]));
            }
            assert(exists|es: Seq<EntryView>| decodes_to(wal@, es));
            lemma_apply_encodable(Map::empty(), wal_entries);
        }
        Ok(Engine { memtable, segments: list, wal: Ghost(wal_entries) })
    }

    /// Sets `key` to `value`. When the memtable is then full, it is flushed
    /// into a new segment, whose id is returned. Fails, changing nothing, when
    /// the key or the value is too long for a length prefix.
    pub fn set(&mut self, key: &str, value: &str) -> (r: Result<Option<u32>, Error>)
        requires
            old(self).wf(),
        ensures
            final(self).wf(),
            final(self).spec_capacity() == old(self).spec_capacity(),
            match too_large(key@, Some(value@)) {
                Some(e) => r == Err::<Option<u32>, Error>(e) && *final(self) == *old(self),
                None => r is Ok,
            },
            r is Ok ==> write_step(*old(self), EntryView::Assignment { key: key@, value: value@ }, *final(self)),
            r matches Ok(f) ==> (f is Some <==> old(self).memtable_view().insert(key@, Some(value@)).len()
                >= old(self).spec_capacity() && (old(self).ids().len() == 0 || old(self).ids().last()
                < u32::MAX)),
            r matches Ok(None) ==> {
                &&& final(self).runs() == old(self).runs()
                &&& final(self).ids() == old(self).ids()
                &&& final(self).memtable_view() == old(self).memtable_view().insert(key@, Some(value@))
                &&& final(self).wal() == old(self).wal().push(EntryView::Assignment { key: key@, value: value@ })
            },
            r matches Ok(Some(id)) ==> flushed(
                *old(self),
                old(self).memtable_view().insert(key@, Some(value@)),
                id,
                *final(self),
            ),
    {
        let key_len = key.as_bytes().len();
        let value_len = value.as_bytes().len();
        if key_len > U32_MAX_LEN {
            return Err(Error::TooLarge(PairComponent::Key, key_len, U32_MAX_LEN));
        }
        if value_len > U32_MAX_LEN {
            return Err(Error::TooLarge(PairComponent::Value, value_len, U32_MAX_LEN));
        }
        let ghost e = EntryView::Assignment { key: key@, value: value@ };
        let ghost before = *self;
        self.memtable.set(key, value);
        proof {
            self.wal@ = self.wal@.push(e);
            assert(self.wal@.drop_last() =~= before.wal@);
            assert forall|i: int| 0 <= i < self.wal@.len() implies (#[trigger] self.wal@[i]).encodable() by {
                if i < before.wal@.len() {
                    assert(self.wal@[i] == before.wal@[i]);
                }
            }
        }
        if self.memtable.full() {
            let flushed = self.flush();
            return Ok(flushed);
        }
        Ok(None)
    }

    /// Deletes `key`, with a tombstone in the memtable. When the memtable is
    /// then full, it is flushed into a new segment, whose id is returned.
    /// Fails, changing nothing, when the key is too long for a length prefix.
    pub fn delete(&mut self, key: &str) -> (r: Result<Option<u32>, Error>)
        requires
            old(self).wf(),
        ensures
            final(self).wf(),
            final(self).spec_capacity() == old(self).spec_capacity(),
            match too_large(key@, None) {
                Some(e) => r == Err::<Option<u32>, Error>(e) && *final(self) == *old(self),
                None => r is Ok,
            },
            r is Ok ==> write_step(*old(self), EntryView::Tombstone { key: key@ }, *final(self)),
            r matches Ok(f) ==> (f is Some <==> old(self).memtable_view().insert(key@, None).len()
                >= old(self).spec_capacity() && (old(self).ids().len() == 0 || old(self).ids().last()
                < u32::MAX)),
            r matches Ok(None) ==> {
                &&& final(self).runs() == old(self).runs()
                &&& final(self).ids() == old(self).ids()
                &&& final(self).memtable_view() == old(self).memtable_view().insert(key@, None)
                &&& final(self).wal() == old(self).wal().push(EntryView::Tombstone { key: key@ })
            },
            r matches Ok(Some(id)) ==> flushed(*old(self), old(self).memtable_view().insert(key@, None), id, *final(self)),
    {
        let key_len = key.as_bytes().len();
        if key_len > U32_MAX_LEN {
            return Err(Error::TooLarge(PairComponent::Key, key_len, U32_MAX_LEN));
        }
        let ghost e = EntryView::Tombstone { key: key@ };
        let ghost before = *self;
        self.memtable.delete(key);
        proof {
            self.wal@ = self.wal@.push(e);
            assert(self.wal@.drop_last() =~= before.wal@);
            assert forall|i: int| 0 <= i < self.wal@.len() implies (#[trigger] self.wal@[i]).encodable() by {
                if i < before.wal@.len() {
                    assert(self.wal@[i] == before.wal@[i]);
                }
            }
        }
        if self.memtable.full() {
            let flushed = self.flush();
            return Ok(flushed);
        }
        Ok(None)
    }

    /// The live value of `key`: the memtable first, then the segments, newest
    /// first.
    pub fn get(&self, key: &str) -> (r: Option<String>)
        requires
            self.wf(),
        ensures
            match r {
                Some(v) => self.answer(key@) == Some(v@),
                None => self.answer(key@) is None,
            },
    {
        match self.memtable.get(key) {
            Some(value) => value,
            None => match self.segments.get(key) {
                Some(value) => value,
                None => None,
            },
        }
    }

    /// Writes the memtable into a new, newest segment and empties it, and the
    /// log with it. Returns the new segment's id; `None`, changing nothing,
    /// when the newest id is already `u32::MAX`.
    pub fn flush(&mut self) -> (r: Option<u32>)
        requires
            old(self).wf(),
        ensures
            final(self).wf(),
            final(self).spec_capacity() == old(self).spec_capacity(),
            forall|k: Seq<char>| #[trigger] final(self).answer(k) == old(self).answer(k),
            keeps_answers(*old(self), *final(self)),
            r is None <==> old(self).ids().len() > 0 && old(self).ids().last() == u32::MAX,
            r is None ==> *final(self) == *old(self),
            r matches Some(id) ==> flushed(*old(self), old(self).memtable_view(), id, *final(self)),
    {
        let id = match self.segments.next_id() {
            Some(id) => id,
            None => {
                return None;
            },
        };
        proof {
            self.memtable.lemma_entries_encodable();
            self.memtable.lemma_entries();
        }
        let bytes = match encode_memtable(&self.memtable) {
            Ok(bytes) => bytes,
            Err(_) => {
                return None;
            },
        };
        let ghost es = self.memtable.entries();
        let ghost before = *self;
        let handle = match SegmentHandle::open(bytes) {
            Ok(h) => h,
            Err(_) => {
                return None;
            },
        };
        proof {
            crate::segment::lemma_decode_unique(handle.bytes(), handle.entries(), es);
        }
        self.segments.push(id, handle);
        self.memtable.reset();
        proof {
            self.wal@ = Seq::empty();
            assert(self.runs().last() == es);
            assert(self.runs().drop_last() =~= before.runs());
            assert(holds_memtable(es, before.memtable@));
            assert forall|k: Seq<char>| #[trigger] self.answer(k) == before.answer(k) by {
                assert(lookup(es, k) == (if before.memtable@.contains_key(k) {
                    Some(before.memtable@[k])
                } else {
                    None
                }));
            }
        }
        Some(id)
    }

    /// Merges the two oldest segments, the merged one taking the newer one's
    /// id and place. Returns the ids of the segment that is gone and of the
    /// merged one; `None` when there are fewer than two segments.
    pub fn compact(&mut self) -> (r: Option<(u32, u32)>)
        requires
            old(self).wf(),
        ensures
            final(self).wf(),
            final(self).spec_capacity() == old(self).spec_capacity(),
            forall|k: Seq<char>| #[trigger] final(self).answer(k) == old(self).answer(k),
            keeps_answers(*old(self), *final(self)),
            final(self).wal() == old(self).wal(),
            old(self).runs().len() < 2 <==> r is None,
            r is None ==> final(self).runs() == old(self).runs() && final(self).ids() == old(self).ids(),
            r is Some ==> final(self).ids() == old(self).ids().drop_first() && r == Some(
                (old(self).ids()[0], old(self).ids()[1]),
            ),
            r is Some ==> final(self).runs() == seq![merge(old(self).runs()[0], old(self).runs()[1])]
                + old(self).runs().skip(2),
    {
        let r = self.segments.compact_oldest();
        proof {
            assert forall|k: Seq<char>| #[trigger] self.answer(k) == old(self).answer(k) by {
                assert(lookup_runs(self.runs(), k) == lookup_runs(old(self).runs(), k));
            }
        }
        r
    }

    /// The number of segments.
    pub fn segment_count(&self) -> (r: usize)
        requires
            self.wf(),
        ensures
            r == self.runs().len(),
    {
        self.segments.len()
    }

    /// The id of the segment at `i`, oldest first.
    pub fn segment_id(&self, i: usize) -> (r: u32)
        requires
            self.wf(),
            i < self.runs().len(),
        ensures
            r == self.ids()[i as int],
    {
        self.segments.id(i)
    }

    /// The bytes of the segment at `i`, oldest first.
    pub fn segment_bytes(&self, i: usize) -> (r: &[u8])
        requires
            self.wf(),
            i < self.runs().len(),
        ensures
            decodes_to(r@, self.runs()[i as int]),
    {
        self.segments.bytes(i)
    }

    /// The memtable.
    pub fn memtable(&self) -> (r: &Memtable)
        ensures
            r@ == self.memtable_view(),
    {
        &self.memtable
    }
}

/// What the last write to `k` among `ws` left: its value for a set, `None`
/// for a delete, and `None` where no write touched `k`.
pub open spec fn last_value(ws: Seq<EntryView>, k: Seq<char>) -> Option<Seq<char>>
    decreases ws.len(),
{
    if ws.len() == 0 {
        None
    } else if ws.last().key() == k {
        ws.last().value()
    } else {
        last_value(ws.drop_last(), k)
    }
}

/// `after` answers as `before` does, but for the key of the write `w`, which
/// it answers with the write's value: what `set` and `delete` ensure.
pub open spec fn write_step(before: Engine, w: EntryView, after: Engine) -> bool {
    forall|k: Seq<char>| #[trigger] after.answer(k) == if k == w.key() {
        w.value()
    } else {
        before.answer(k)
    }
}

/// Last write wins, for engines: starting from an engine that answers `None`
/// for every key, after the writes `ws` (each a `set` or a `delete`, with
/// flushes and compactions in between, which keep every answer) the engine
/// answers for each key the value of the last write to it, and `None` where
/// that write was a delete or no write touched it.
pub proof fn lemma_engine_last_write_wins(states: Seq<Engine>, ws: Seq<EntryView>, k: Seq<char>)
    requires
        states.len() == ws.len() + 1,
        forall|key: Seq<char>| #[trigger] states[0].answer(key) is None,
        forall|i: int| 0 <= i < ws.len() ==> write_step(states[i], #[trigger] ws[i], states[i + 1]),
    ensures
        states.last().answer(k) == last_value(ws, k),
    decreases ws.len(),
{
    if ws.len() > 0 {
        let n = ws.len() as int;
        lemma_engine_last_write_wins(states.drop_last(), ws.drop_last(), k);
        assert(write_step(states[n - 1], ws[n - 1], states[n]));
        assert(states.drop_last().last() == states[n - 1]);
        assert(ws.drop_last().len() == n - 1);
        assert(states.last().answer(k) == if k == ws.last().key() {
            ws.last().value()
        } else {
            states[n - 1].answer(k)
        });
    }
}

/// Recovery: the segments and the log's writes, replayed into an empty
/// memtable, answer every key as the engine does.
pub proof fn lemma_recovery(e: &Engine)
    requires
        e.wf(),
    ensures
        forall|k: Seq<char>|
            #[trigger] resolve(apply_entries(Map::empty(), e.wal()), e.runs(), k) == e.answer(k),
{
}

/// The log's bytes: the encoding of each write since the last flush, in
/// order, as the caller appends them.
pub proof fn lemma_wal_bytes(e: &Engine)
    requires
        e.wf(),
    ensures
        decodes_to(crate::segment::encode_entries(e.wal()), e.wal()),
{
}

/// Restart: an engine started from the bytes of another's segments and log
/// answers every key as that one does.
pub proof fn lemma_restart(e: &Engine, restarted: &Engine, segments: Seq<Seq<u8>>, wal: Seq<u8>)
    requires
        e.wf(),
        restarted.wf(),
        segments.len() == e.runs().len(),
        restarted.runs().len() == e.runs().len(),
        forall|i: int|
            0 <= i < segments.len() ==> decodes_to(#[trigger] segments[i], e.runs()[i])
                && decodes_to(segments[i], restarted.runs()[i]),
        decodes_to(wal, e.wal()),
        decodes_to(wal, restarted.wal()),
        restarted.memtable_view() == apply_entries(Map::empty(), restarted.wal()),
    ensures
        forall|k: Seq<char>| #[trigger] restarted.answer(k) == e.answer(k),
{
    crate::segment::lemma_decode_unique(wal, e.wal(), restarted.wal());
    assert forall|i: int| 0 <= i < e.runs().len() implies #[trigger] restarted.runs()[i] == e.runs()[i] by {
        crate::segment::lemma_decode_unique(segments[i], e.runs()[i], restarted.runs()[i]);
    }
    assert(restarted.runs() =~= e.runs());
}

/// The segment ids of an engine are positive and strictly ascend, one for
/// each segment: the bytes of its segments, with their ids, start it again.
pub proof fn lemma_ids_ascending(e: &Engine)
    requires
        e.wf(),
    ensures
        ids_ascending(e.ids()),
        e.ids().len() == e.runs().len(),
{
    e.segments.lemma_ids();
}

/// `after` answers every key as `before` does: what `flush` and `compact`
/// ensure.
pub open spec fn keeps_answers(before: Engine, after: Engine) -> bool {
    forall|k: Seq<char>| #[trigger] after.answer(k) == before.answer(k)
}

/// One step of a run of an engine: a write (`Some`) as `set` or `delete`
/// makes it, or a flush or compaction (`None`), which keeps every answer.
pub open spec fn engine_step(before: Engine, op: Option<EntryView>, after: Engine) -> bool {
    match op {
        Some(w) => write_step(before, w, after),
        None => keeps_answers(before, after),
    }
}

/// The value of the last write to `k` among the writes of `ops`.
pub open spec fn last_written(ops: Seq<Option<EntryView>>, k: Seq<char>) -> Option<Seq<char>>
    decreases ops.len(),
{
    if ops.len() == 0 {
        None
    } else if ops.last() is Some && ops.last().unwrap().key() == k {
        ops.last().unwrap().value()
    } else {
        last_written(ops.drop_last(), k)
    }
}

/// Last write wins through flushes and compactions: from an engine that
/// answers `None` for every key, after writes interleaved with flushes and
/// compactions, every key, deleted and never written ones included, is
/// answered with the value of its last write, or `None`.
pub proof fn lemma_writes_and_compactions(states: Seq<Engine>, ops: Seq<Option<EntryView>>, k: Seq<char>)
    requires
        states.len() == ops.len() + 1,
        forall|key: Seq<char>| #[trigger] states[0].answer(key) is None,
        forall|i: int| 0 <= i < ops.len() ==> engine_step(states[i], #[trigger] ops[i], states[i + 1]),
    ensures
        states.last().answer(k) == last_written(ops, k),
    decreases ops.len(),
{
    if ops.len() > 0 {
        let n = ops.len() as int;
        lemma_writes_and_compactions(states.drop_last(), ops.drop_last(), k);
        assert(engine_step(states[n - 1], ops[n - 1], states[n]));
        assert(states.drop_last().last() == states[n - 1]);
        assert(states.last().answer(k) == match ops.last() {
            Some(w) => if k == w.key() {
                w.value()
            } else {
                states[n - 1].answer(k)
            },
            None => states[n - 1].answer(k),
        });
    }
}

/// The keys of every segment strictly ascend.
pub proof fn lemma_segments_ascending(e: &Engine)
    requires
        e.wf(),
    ensures
        forall|i: int| 0 <= i < e.runs().len() ==> keys_ascending(#[trigger] e.runs()[i]),
{
    e.segments.lemma_runs_ascending();
}

/// Applying writes that fit their length prefixes gives a map whose pairs fit
/// them too.
proof fn lemma_apply_encodable(m: Map<Seq<char>, Option<Seq<char>>>, es: Seq<EntryView>)
    requires
        m == Map::<Seq<char>, Option<Seq<char>>>::empty(),
        forall|i: int| 0 <= i < es.len() ==> (#[trigger] es[i]).encodable(),
    ensures
        forall|k: Seq<char>| #[trigger] apply_entries(m, es).contains_key(k) ==> entry_of(k, apply_entries(m, es)[k]).encodable(),
    decreases es.len(),
{
    if es.len() > 0 {
        let d = es.drop_last();
        assert forall|i: int| 0 <= i < d.len() implies (#[trigger] d[i]).encodable() by {
            assert(d[i] == es[i]);
        }
        lemma_apply_encodable(m, d);
        assert(es[es.len() - 1].encodable());
    }
}

} // verus!
