use std::collections::HashMap;

use crunch::compaction::compact;
use crunch::engine::{Engine, EngineArgs};
use crunch::error::Error;
use crunch::memtable::{Memtable, MemtableArgs};
use crunch::segment::{decode_entries, tombstone, Entry};
use crunch::store::{encode_memtable, replay_wal, StoreArgs};
use rand::seq::SliceRandom;
use rand::Rng;

fn args(capacity: usize) -> EngineArgs {
    EngineArgs {
        memtable: MemtableArgs { capacity },
        store: StoreArgs { compaction_enabled: false, compaction_interval_seconds: 0 },
    }
}

fn fresh(capacity: usize) -> Engine {
    Engine::with_args(args(capacity), Vec::new(), Vec::new()).unwrap()
}

fn segment_of(pairs: &[(&str, &str)]) -> Vec<u8> {
    let mut out = Vec::new();
    for (key, value) in pairs {
        crunch::segment::write(&mut out, key, value).unwrap();
    }
    out
}

fn assignments(pairs: &[(&str, &str)]) -> Vec<Entry> {
    pairs
        .iter()
        .map(|(key, value)| Entry::Assignment { key: key.to_string(), value: value.to_string() })
        .collect()
}

#[test]
fn compaction() {
    let file1 = segment_of(&[("a", "1"), ("c", "3"), ("e", "5")]);
    let file2 = segment_of(&[("b", "2"), ("d", "4"), ("f", "6")]);
    let file3 = segment_of(&[("a", "7"), ("d", "9"), ("e", "8")]);
    let new1 = compact(&file1, &file2).unwrap();
    assert_eq!(
        decode_entries(&new1).unwrap(),
        assignments(&[("a", "1"), ("b", "2"), ("c", "3"), ("d", "4"), ("e", "5"), ("f", "6")])
    );
    let new2 = compact(&new1, &file3).unwrap();
    assert_eq!(
        decode_entries(&new2).unwrap(),
        assignments(&[("a", "7"), ("b", "2"), ("c", "3"), ("d", "9"), ("e", "8"), ("f", "6")])
    );
}

#[test]
fn compaction_keeps_tombstones_of_the_newer_segment() {
    let older = segment_of(&[("a", "1"), ("b", "2")]);
    let mut newer = Vec::new();
    tombstone(&mut newer, "a").unwrap();
    let merged = compact(&older, &newer).unwrap();
    assert_eq!(
        decode_entries(&merged).unwrap(),
        vec![
            Entry::Tombstone { key: "a".to_string() },
            Entry::Assignment { key: "b".to_string(), value: "2".to_string() },
        ]
    );
}

#[test]
fn compaction_of_malformed_segment_fails() {
    let good = segment_of(&[("a", "1")]);
    assert_eq!(compact(&good, &[5]), Err(Error::Malformed(0)));
}

#[test]
fn flush_ordering() {
    let mut engine = fresh(3);
    assert_eq!(engine.set("a", "1"), Ok(None));
    assert_eq!(engine.set("b", "2"), Ok(None));
    assert_eq!(engine.set("c", "3"), Ok(Some(1)));
    assert_eq!(engine.segment_count(), 1);
    assert_eq!(engine.segment_id(0), 1);
    assert_eq!(engine.segment_bytes(0).to_vec(), segment_of(&[("a", "1"), ("b", "2"), ("c", "3")]));
    assert!(engine.memtable().iter().is_empty());
    assert_eq!(engine.get("b"), Some("2".to_string()));
}

#[test]
fn two_segment_merge() {
    let mut engine = fresh(3);
    for (key, value) in [("a", "1"), ("c", "3"), ("e", "5"), ("b", "2"), ("d", "4"), ("f", "6")] {
        engine.set(key, value).unwrap();
    }
    assert_eq!(engine.segment_count(), 2);
    assert_eq!(engine.compact(), Some((1, 2)));
    assert_eq!(engine.segment_count(), 1);
    assert_eq!(engine.segment_id(0), 2);
    assert_eq!(
        decode_entries(engine.segment_bytes(0)).unwrap(),
        assignments(&[("a", "1"), ("b", "2"), ("c", "3"), ("d", "4"), ("e", "5"), ("f", "6")])
    );
    assert_eq!(engine.compact(), None);
}

#[test]
fn overwrite_via_merge() {
    let segments = vec![
        (1, segment_of(&[("a", "1"), ("c", "3"), ("e", "5")])),
        (2, segment_of(&[("b", "2"), ("d", "4"), ("f", "6")])),
        (3, segment_of(&[("a", "7"), ("d", "9"), ("e", "8")])),
    ];
    let mut engine = Engine::with_args(args(10), segments, Vec::new()).unwrap();
    assert_eq!(engine.get("a"), Some("7".to_string()));
    assert_eq!(engine.compact(), Some((1, 2)));
    assert_eq!(
        decode_entries(engine.segment_bytes(0)).unwrap(),
        assignments(&[("a", "1"), ("b", "2"), ("c", "3"), ("d", "4"), ("e", "5"), ("f", "6")])
    );
    assert_eq!(engine.compact(), Some((2, 3)));
    assert_eq!(
        decode_entries(engine.segment_bytes(0)).unwrap(),
        assignments(&[("a", "7"), ("b", "2"), ("c", "3"), ("d", "9"), ("e", "8"), ("f", "6")])
    );
    assert_eq!(engine.segment_id(0), 3);
}

#[test]
fn tombstone_shadowing() {
    let mut engine = fresh(2);
    assert_eq!(engine.set("k", "v"), Ok(None));
    assert_eq!(engine.set("x", "y"), Ok(Some(1)));
    assert_eq!(engine.delete("k"), Ok(None));
    assert_eq!(engine.get("k"), None);
    assert_eq!(engine.flush(), Some(2));
    assert_eq!(engine.get("k"), None);
    assert_eq!(engine.compact(), Some((1, 2)));
    assert_eq!(engine.get("k"), None);
    assert_eq!(engine.get("x"), Some("y".to_string()));
    assert_eq!(
        decode_entries(engine.segment_bytes(0)).unwrap(),
        vec![
            Entry::Tombstone { key: "k".to_string() },
            Entry::Assignment { key: "x".to_string(), value: "y".to_string() },
        ]
    );
}

#[test]
fn delete_flushes_when_full() {
    let mut engine = fresh(2);
    assert_eq!(engine.set("a", "1"), Ok(None));
    assert_eq!(engine.delete("b"), Ok(Some(1)));
    assert!(engine.memtable().iter().is_empty());
    let mut expected = segment_of(&[("a", "1")]);
    tombstone(&mut expected, "b").unwrap();
    assert_eq!(engine.segment_bytes(0).to_vec(), expected);
    assert_eq!(engine.get("a"), Some("1".to_string()));
    assert_eq!(engine.get("b"), None);
}

#[test]
fn last_write_wins() {
    let mut engine = fresh(100);
    engine.set("k", "1").unwrap();
    engine.set("k", "2").unwrap();
    assert_eq!(engine.get("k"), Some("2".to_string()));
    engine.delete("k").unwrap();
    assert_eq!(engine.get("k"), None);
    engine.set("k", "3").unwrap();
    assert_eq!(engine.get("k"), Some("3".to_string()));
    assert_eq!(engine.get("never"), None);
    engine.delete("never").unwrap();
    assert_eq!(engine.get("never"), None);
}

#[test]
fn recovery_from_segments_and_log() {
    let mut engine = fresh(2);
    let mut wal = Vec::new();
    let writes: [(&str, Option<&str>); 5] =
        [("a", Some("1")), ("b", Some("2")), ("a", None), ("c", Some("3")), ("b", Some("4"))];
    for (key, value) in writes {
        match value {
            Some(value) => {
                crunch::segment::write(&mut wal, key, value).unwrap();
                if engine.set(key, value).unwrap().is_some() {
                    wal.clear();
                }
            },
            None => {
                tombstone(&mut wal, key).unwrap();
                if engine.delete(key).unwrap().is_some() {
                    wal.clear();
                }
            },
        }
    }
    let segments: Vec<(u32, Vec<u8>)> = (0..engine.segment_count())
        .map(|i| (engine.segment_id(i), engine.segment_bytes(i).to_vec()))
        .collect();
    let restarted = Engine::with_args(args(2), segments, wal).unwrap();
    for key in ["a", "b", "c", "d"] {
        assert_eq!(restarted.get(key), engine.get(key));
    }
    assert_eq!(restarted.get("a"), None);
    assert_eq!(restarted.get("b"), Some("4".to_string()));
    assert_eq!(restarted.get("c"), Some("3".to_string()));
}

#[test]
fn recovery_refuses_bad_input() {
    let segments = vec![(2, segment_of(&[("a", "1")])), (1, segment_of(&[("b", "1")]))];
    assert!(matches!(Engine::with_args(args(2), segments, Vec::new()), Err(Error::Io(_))));
    let malformed = vec![(1, vec![3u8])];
    assert!(matches!(
        Engine::with_args(args(2), malformed, Vec::new()),
        Err(Error::Malformed(0))
    ));
    assert!(matches!(Engine::with_args(args(2), Vec::new(), vec![0, 0]), Err(Error::Malformed(0))));
}

#[test]
fn memtable_operations() {
    let mut memtable = Memtable::new(MemtableArgs { capacity: 2 });
    assert_eq!(memtable.get("a"), None);
    memtable.set("b", "2");
    memtable.delete("a");
    assert_eq!(memtable.get("a"), Some(None));
    assert_eq!(memtable.get("b"), Some(Some("2".to_string())));
    assert!(memtable.full());
    assert_eq!(memtable.capacity(), 2);
    let keys: Vec<&str> = memtable.iter().iter().map(|(key, _)| key.as_str()).collect();
    assert_eq!(keys, vec!["a", "b"]);
    let mut expected = Vec::new();
    tombstone(&mut expected, "a").unwrap();
    crunch::segment::write(&mut expected, "b", "2").unwrap();
    assert_eq!(encode_memtable(&memtable).unwrap(), expected);
    memtable.reset();
    assert_eq!(memtable.get("b"), None);
    assert!(!memtable.full());
}

#[test]
fn wal_replay() {
    let mut wal = Vec::new();
    crunch::segment::write(&mut wal, "a", "1").unwrap();
    crunch::segment::write(&mut wal, "b", "2").unwrap();
    tombstone(&mut wal, "a").unwrap();
    crunch::segment::write(&mut wal, "b", "3").unwrap();
    let mut memtable = Memtable::new(MemtableArgs::default());
    replay_wal(&wal, &mut memtable).unwrap();
    assert_eq!(memtable.get("a"), Some(None));
    assert_eq!(memtable.get("b"), Some(Some("3".to_string())));
    let mut other = Memtable::new(MemtableArgs::default());
    assert_eq!(replay_wal(&[1, 0], &mut other), Err(Error::Malformed(0)));
}

#[test]
fn sledgehammer() {
    let keys: Vec<String> = (0..26).map(|n| char::from_u32(n + 97).unwrap().to_string()).collect();
    let mut map: HashMap<String, String> = HashMap::new();
    let mut engine = fresh(10);
    let mut rng = rand::thread_rng();
    for step in 0..200 {
        let key = keys.choose(&mut rng).unwrap();
        match rng.gen_range(0..=2) {
            0 => {
                map.remove(key);
                engine.delete(key).unwrap();
            },
            1 => {
                let value = rng.gen_range(0..1_000_000).to_string();
                engine.set(key, &value).unwrap();
                map.insert(key.clone(), value);
            },
            _ => {
                assert_eq!(map.get(key), engine.get(key).as_ref());
            },
        }
        if step % 15 == 0 {
            engine.compact();
        }
    }
    while engine.compact().is_some() {}
    assert!(engine.segment_count() <= 1);
    for key in &keys {
        assert_eq!(map.get(key), engine.get(key).as_ref());
    }
}
