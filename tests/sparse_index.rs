use crunch::sparse_index::SparseIndex;

#[test]
fn empty_index() {
    assert_eq!(SparseIndex::new().get_byte_range("a"), (None, None));
}

#[test]
fn before_min_key() {
    let mut index = SparseIndex::new();
    index.insert("hello", 0);
    index.insert("world", 1);
    let range = index.get_byte_range("asdf");
    assert_eq!(range, (None, Some(0)));
}

#[test]
fn between_keys() {
    let mut index = SparseIndex::new();
    index.insert("hello", 0);
    index.insert("world", 1);
    let range = index.get_byte_range("middle");
    assert_eq!(range, (Some(0), Some(1)));
}

#[test]
fn equal_to_key() {
    let mut index = SparseIndex::new();
    index.insert("hello", 0);
    index.insert("thiskey", 1);
    index.insert("world", 2);
    let range = index.get_byte_range("thiskey");
    assert_eq!(range, (Some(1), Some(2)));
}

#[test]
fn after_max_key() {
    let mut index = SparseIndex::new();
    index.insert("hello", 0);
    index.insert("world", 1);
    let range = index.get_byte_range("zebra");
    assert_eq!(range, (Some(1), None));
}

#[test]
fn insert_replaces_offset_and_keeps_order() {
    let mut index = SparseIndex::new();
    index.insert("m", 10);
    index.insert("c", 3);
    index.insert("x", 20);
    index.insert("m", 11);
    let pairs: Vec<(String, u64)> = index.inner().clone();
    assert_eq!(
        pairs,
        vec![("c".to_string(), 3), ("m".to_string(), 11), ("x".to_string(), 20)]
    );
    assert_eq!(index.get_byte_range("m"), (Some(11), Some(20)));
    assert_eq!(index.get_byte_range("d"), (Some(3), Some(11)));
}

#[test]
fn range_orders_keys_by_bytes() {
    let mut index = SparseIndex::new();
    index.insert("Z", 1);
    index.insert("a", 2);
    index.insert("\u{e9}", 3);
    // 'Z' (0x5a) < 'a' (0x61) < 'é' (0xc3 0xa9)
    assert_eq!(index.get_byte_range("b"), (Some(2), Some(3)));
    assert_eq!(index.get_byte_range("A"), (None, Some(1)));
    assert_eq!(index.get_byte_range("\u{ff}"), (Some(3), None));
}
