use crunch::error::{Error, PairComponent};
use crunch::segment::{
    decode_entries, is_segment_filename, read_entry, segment_file_number, segment_filename,
    tombstone, Entry, EntryIndicator,
};
use crunch::segment_handle::SegmentHandle;

fn assignment_bytes(key: &str, value: &str) -> Vec<u8> {
    let mut out = Vec::new();
    crunch::segment::write(&mut out, key, value).unwrap();
    out
}

fn segment_of(pairs: &[(&str, &str)]) -> Vec<u8> {
    let mut out = Vec::new();
    for (key, value) in pairs {
        crunch::segment::write(&mut out, key, value).unwrap();
    }
    out
}

#[test]
fn assignment_encoding() {
    assert_eq!(
        assignment_bytes("ab", "xyz"),
        vec![0, 0, 0, 0, 2, b'a', b'b', 0, 0, 0, 3, b'x', b'y', b'z']
    );
}

#[test]
fn tombstone_encoding() {
    let mut out = vec![7u8];
    tombstone(&mut out, "k").unwrap();
    assert_eq!(out, vec![7, 1, 0, 0, 0, 1, b'k']);
}

#[test]
fn long_length_prefix_is_big_endian() {
    let value = "v".repeat(300);
    let bytes = assignment_bytes("k", &value);
    assert_eq!(&bytes[6..10], &[0, 0, 1, 44]);
    assert_eq!(bytes.len(), 1 + 4 + 1 + 4 + 300);
}

#[test]
fn entry_write_and_stride() {
    let entry = Entry::Assignment { key: "key".to_string(), value: "value".to_string() };
    let mut out = Vec::new();
    entry.write(&mut out).unwrap();
    assert_eq!(out.len(), 1 + 4 + 3 + 4 + 5);
    assert_eq!(entry.stride(), 17);
    let tomb = Entry::Tombstone { key: "key".to_string() };
    assert_eq!(tomb.stride(), 8);
    assert_eq!(tomb.key(), "key");
}

#[test]
fn read_entry_round_trip() {
    let mut data = assignment_bytes("a", "1");
    tombstone(&mut data, "b").unwrap();
    let (first, n) = read_entry(&data, 0).unwrap().unwrap();
    assert_eq!(first, Entry::Assignment { key: "a".to_string(), value: "1".to_string() });
    assert_eq!(n, 11);
    let (second, m) = read_entry(&data, n).unwrap().unwrap();
    assert_eq!(second, Entry::Tombstone { key: "b".to_string() });
    assert_eq!(m, 6);
    assert!(read_entry(&data, n + m).unwrap().is_none());
}

#[test]
fn unknown_indicator_is_malformed() {
    let mut data = assignment_bytes("a", "1");
    data.push(9);
    assert_eq!(read_entry(&data, 11), Err(Error::Malformed(11)));
    assert_eq!(decode_entries(&data), Err(Error::Malformed(11)));
}

#[test]
fn truncated_entry_is_malformed() {
    let data = assignment_bytes("abc", "123");
    let truncated = &data[..data.len() - 1];
    assert_eq!(read_entry(truncated, 0), Err(Error::Malformed(0)));
    assert_eq!(read_entry(&[0, 0, 0], 0), Err(Error::Malformed(0)));
}

#[test]
fn invalid_utf8_is_malformed() {
    let data = vec![1, 0, 0, 0, 1, 0xff];
    assert_eq!(read_entry(&data, 0), Err(Error::Malformed(0)));
}

#[test]
fn decode_all_entries() {
    let data = segment_of(&[("a", "1"), ("b", "2")]);
    let entries = decode_entries(&data).unwrap();
    assert_eq!(
        entries,
        vec![
            Entry::Assignment { key: "a".to_string(), value: "1".to_string() },
            Entry::Assignment { key: "b".to_string(), value: "2".to_string() },
        ]
    );
    assert_eq!(decode_entries(&[]).unwrap(), vec![]);
}

#[test]
fn indicator_bytes() {
    assert!(matches!(EntryIndicator::from_u8_opt(0), Some(EntryIndicator::Assignment)));
    assert!(matches!(EntryIndicator::from_u8_opt(1), Some(EntryIndicator::Tombstone)));
    assert!(EntryIndicator::from_u8_opt(2).is_none());
}

#[test]
fn segment_file_names() {
    assert_eq!(segment_filename(7), "segment-7.dat");
    assert_eq!(segment_filename(4294967295), "segment-4294967295.dat");
    assert_eq!(segment_file_number("segment-7.dat"), Some(7));
    assert_eq!(segment_file_number("segment-007.dat"), Some(7));
    assert_eq!(segment_file_number("segment-+12.dat"), Some(12));
    assert_eq!(segment_file_number("segment-4294967295.dat"), Some(4294967295));
    assert_eq!(segment_file_number("segment-4294967296.dat"), None);
    assert_eq!(segment_file_number("segment-.dat"), None);
    assert_eq!(segment_file_number("segment-1a.dat"), None);
    assert_eq!(segment_file_number("segment-1.txt"), None);
    assert_eq!(segment_file_number("wal.dat"), None);
    assert!(is_segment_filename("segment-1.dat"));
    assert!(!is_segment_filename("segments"));
    assert!(!is_segment_filename("segment-x.dat"));
    assert!(!is_segment_filename("new-segment.dat"));
    assert!(!is_segment_filename("seg"));
}

#[test]
fn segment_ids_of_names() {
    let names: Vec<String> = ["wal.dat", "segment-10.dat", "segment-2.dat", "new-segment.dat", "segment-02.dat", "segment-x.dat"]
        .iter()
        .map(|n| n.to_string())
        .collect();
    assert_eq!(crunch::store::segment_ids(&names), vec![2, 10]);
    assert_eq!(crunch::store::segment_ids(&Vec::new()), Vec::<u32>::new());
}

#[test]
fn segment_handle_lookups() {
    let pairs: Vec<(String, String)> =
        (0..10).map(|i| (format!("key{i:02}"), format!("value{i}"))).collect();
    let mut data = Vec::new();
    for (key, value) in &pairs {
        crunch::segment::write(&mut data, key, value).unwrap();
    }
    tombstone(&mut data, "zz").unwrap();
    let handle = SegmentHandle::open(data).unwrap();
    for (key, value) in &pairs {
        assert_eq!(handle.get(key), Some(Some(value.clone())));
    }
    assert_eq!(handle.get("zz"), Some(None));
    for (key, _) in &pairs {
        assert!(handle.may_contain(key));
    }
    assert_eq!(handle.get("key05x"), None);
    assert_eq!(handle.get("a"), None);
    assert_eq!(handle.get("zzz"), None);
}

#[test]
fn segment_handle_refuses_unsorted_keys() {
    let data = segment_of(&[("b", "1"), ("a", "2")]);
    assert_eq!(SegmentHandle::open(data).err(), Some(Error::Malformed(11)));
    let duplicate = segment_of(&[("a", "1"), ("a", "2")]);
    assert!(SegmentHandle::open(duplicate).is_err());
}

#[test]
fn pair_component_names() {
    assert_eq!(PairComponent::Key.name(), "key");
    assert_eq!(PairComponent::Value.name(), "value");
}
