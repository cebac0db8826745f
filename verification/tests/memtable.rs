use janql::MemTable;

#[test]
fn test_memtable_set_get_del() {
    let mut mt = MemTable::new();
    assert_eq!(mt.len(), 0);
    assert_eq!(mt.get("k"), None);

    mt.set("k".to_string(), "v".to_string());
    assert_eq!(mt.get("k"), Some(Some("v".to_string())));
    assert_eq!(mt.len(), 1);

    mt.del("k".to_string());
    // the tombstone is retained, not erased
    assert_eq!(mt.get("k"), Some(None));
    assert_eq!(mt.len(), 1);
}

#[test]
fn test_memtable_iter_sorted() {
    let mut mt = MemTable::new();
    mt.set("b".to_string(), "2".to_string());
    mt.set("a".to_string(), "1".to_string());
    mt.del("c".to_string());
    let entries = mt.iter();
    assert_eq!(entries.len(), 3);
    assert_eq!(entries[0], ("a".to_string(), Some("1".to_string())));
    assert_eq!(entries[1], ("b".to_string(), Some("2".to_string())));
    assert_eq!(entries[2], ("c".to_string(), None));
}

#[test]
fn test_memtable_size_accounting() {
    let mut mt = MemTable::new();
    mt.set("key".to_string(), "value".to_string());
    // first insertion counts key and value lengths
    assert_eq!(mt.size_bytes(), 3 + 5);
    mt.set("key".to_string(), "xy".to_string());
    // a replace swaps the value length
    assert_eq!(mt.size_bytes(), 3 + 2);
    mt.del("key".to_string());
    // deleting keeps the sizes already counted
    assert_eq!(mt.size_bytes(), 3 + 2);
    mt.del("gone".to_string());
    // a fresh tombstone counts only its key
    assert_eq!(mt.size_bytes(), 3 + 2 + 4);
    mt.clear();
    assert_eq!(mt.size_bytes(), 0);
    assert_eq!(mt.len(), 0);
}
