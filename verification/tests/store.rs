use janql::{CompactionPolicy, Database, SstFile, WALIterator};

#[test]
fn test_set_and_get() {
    let mut db = Database::new();
    db.set("key1".to_string(), "value1".to_string());
    assert_eq!(db.get("key1"), Some("value1".to_string()));
}

#[test]
fn test_get_non_existent_key() {
    let db = Database::new();
    assert_eq!(db.get("non_existent"), None);
}

#[test]
fn test_delete_key() {
    let mut db = Database::new();
    db.set("key1".to_string(), "value1".to_string());
    db.del("key1");
    assert_eq!(db.get("key1"), None);
}

#[test]
fn test_delete_non_existent_key() {
    // Should not fail
    let mut db = Database::new();
    db.del("non_existent");
    assert_eq!(db.get("non_existent"), None);
}

#[test]
fn test_log_append() {
    let mut db = Database::new();
    let initial_size = db.wal_image().len();

    db.set("key1".to_string(), "value1".to_string());
    let size_after_set = db.wal_image().len();
    assert!(size_after_set > initial_size);

    db.del("key1");
    let size_after_del = db.wal_image().len();
    assert!(size_after_del > size_after_set);

    // Verify content by loading
    let loaded_db = Database::load(db.wal_image(), db.sst_files()).expect("load should succeed");
    assert_eq!(loaded_db.get("key1"), None);
}

#[test]
fn test_flush_truncates_log() {
    let mut db = Database::new();
    db.set("key1".to_string(), "value1".to_string());
    db.set("key2".to_string(), "value2".to_string());
    db.del("key1");

    let size_before = db.wal_image().len();
    assert!(size_before > 0);

    db.flush();
    assert_eq!(db.wal_image().len(), 0);

    let loaded_db = Database::load(db.wal_image(), db.sst_files()).expect("load should succeed");
    assert_eq!(loaded_db.get("key2"), Some("value2".to_string()));
    assert_eq!(loaded_db.get("key1"), None);
}

#[test]
fn test_persistence() {
    // set("k","v"); close; reopen; the value survives through the log
    let mut db = Database::new();
    db.set("k".to_string(), "v".to_string());
    let wal = db.wal_image();
    let files = db.sst_files();
    drop(db);
    let loaded = Database::load(wal, files).expect("load should succeed");
    assert_eq!(loaded.get("k"), Some("v".to_string()));
}

#[test]
fn test_persistence_deleted_key() {
    let mut db = Database::new();
    db.set("key1".to_string(), "value1".to_string());
    db.del("key1");
    let loaded = Database::load(db.wal_image(), db.sst_files()).expect("load should succeed");
    assert_eq!(loaded.get("key1"), None);
}

#[test]
fn test_persistence_across_flush_and_compact() {
    let mut db = Database::new();
    db.set("a".to_string(), "1".to_string());
    db.flush();
    db.set("b".to_string(), "2".to_string());
    db.flush();
    db.del("a");
    db.compact().unwrap();
    db.set("c".to_string(), "3".to_string());

    let loaded = Database::load(db.wal_image(), db.sst_files()).expect("load should succeed");
    assert_eq!(loaded.get("a"), None);
    assert_eq!(loaded.get("b"), Some("2".to_string()));
    assert_eq!(loaded.get("c"), Some("3".to_string()));
    assert_eq!(loaded.sstable_count(), db.sstable_count());
}

#[test]
fn test_basic_round_trip() {
    // set("key1","val1"); set("key2","val2"); read back; delete one
    let mut db = Database::new();
    db.set("key1".to_string(), "val1".to_string());
    db.set("key2".to_string(), "val2".to_string());
    assert_eq!(db.get("key1"), Some("val1".to_string()));
    db.del("key1");
    assert_eq!(db.get("key1"), None);
    assert_eq!(db.get("key2"), Some("val2".to_string()));
}

#[test]
fn test_update_across_flushes() {
    let mut db = Database::new();
    db.set("k".to_string(), "v1".to_string());
    db.flush();
    db.set("k".to_string(), "v2".to_string());
    db.flush();
    db.set("j".to_string(), "w".to_string());
    db.flush();
    assert!(db.sstable_count() >= 3);
    assert_eq!(db.get("k"), Some("v2".to_string()));
    db.compact().unwrap();
    assert_eq!(db.sstable_count(), 1);
    assert_eq!(db.get("k"), Some("v2".to_string()));
    assert_eq!(db.get("j"), Some("w".to_string()));
}

#[test]
fn test_prefix_scan_across_tiers() {
    let mut db = Database::new();
    db.set("ab".to_string(), "1".to_string());
    db.flush();
    db.set("ac".to_string(), "2".to_string());
    db.set("ad".to_string(), "3".to_string());
    db.del("ab");
    assert_eq!(db.get_by_prefix("a"), vec!["2".to_string(), "3".to_string()]);
}

#[test]
fn test_prefix_scan_memtable_only() {
    let mut db = Database::new();
    db.set("apple".to_string(), "1".to_string());
    db.set("apricot".to_string(), "2".to_string());
    db.set("banana".to_string(), "3".to_string());
    assert_eq!(db.get_by_prefix("ap"), vec!["1".to_string(), "2".to_string()]);
    assert_eq!(db.get_by_prefix(""), vec!["1".to_string(), "2".to_string(), "3".to_string()]);
    assert_eq!(db.get_by_prefix("z"), Vec::<String>::new());
}

#[test]
fn test_prefix_scan_newer_table_wins() {
    let mut db = Database::new();
    db.set("pa".to_string(), "old".to_string());
    db.flush();
    db.set("pa".to_string(), "new".to_string());
    db.set("pb".to_string(), "x".to_string());
    db.flush();
    assert_eq!(db.get_by_prefix("p"), vec!["new".to_string(), "x".to_string()]);
}

#[test]
fn test_flush_idempotent() {
    let mut db = Database::new();
    db.set("k".to_string(), "v".to_string());
    db.flush();
    let count_after_one = db.sstable_count();
    let wal_after_one = db.wal_image();
    let eff = db.flush();
    assert_eq!(eff.len(), 0);
    assert_eq!(db.sstable_count(), count_after_one);
    assert_eq!(db.wal_image(), wal_after_one);
    assert_eq!(db.get("k"), Some("v".to_string()));
}

#[test]
fn test_recency_last_write_wins() {
    let mut db = Database::new();
    db.set("k".to_string(), "v1".to_string());
    db.set("k".to_string(), "v2".to_string());
    db.del("k");
    db.set("k".to_string(), "v3".to_string());
    assert_eq!(db.get("k"), Some("v3".to_string()));
}

#[test]
fn test_batch_set() {
    let mut db = Database::new();
    db.set("a".to_string(), "0".to_string());
    db.batch_set(vec![
        ("a".to_string(), "1".to_string()),
        ("b".to_string(), "2".to_string()),
        ("a".to_string(), "3".to_string()),
    ]);
    assert_eq!(db.get("a"), Some("3".to_string()));
    assert_eq!(db.get("b"), Some("2".to_string()));
}

#[test]
fn test_empty_key_and_value() {
    let mut db = Database::new();
    db.set("".to_string(), "".to_string());
    assert_eq!(db.get(""), Some("".to_string()));
    db.flush();
    assert_eq!(db.get(""), Some("".to_string()));
}

#[test]
fn test_load_tail_lossy_log() {
    let mut db = Database::new();
    db.set("k".to_string(), "v".to_string());
    let mut wal = db.wal_image();
    // a torn record at the tail loses only the tail
    wal.push(1);
    wal.push(9);
    let loaded = Database::load(wal, Vec::new()).expect("load should succeed");
    assert_eq!(loaded.get("k"), Some("v".to_string()));
}

#[test]
fn test_load_rejects_damaged_table() {
    let file = SstFile { name: "sstable_7.sst".to_string(), bytes: vec![0, 1, 2] };
    assert!(Database::load(Vec::new(), vec![file]).is_err());
}

#[test]
fn test_load_rejects_mangled_table_name() {
    // the table extension with a name outside the naming scheme is damage
    let file = SstFile { name: "sstable_07.sst".to_string(), bytes: vec![0u8; 8] };
    assert!(Database::load(Vec::new(), vec![file]).is_err());
}

#[test]
fn test_load_ignores_other_files() {
    let file = SstFile { name: "notes.txt".to_string(), bytes: vec![0, 1, 2] };
    let loaded = Database::load(Vec::new(), vec![file]).expect("load should succeed");
    assert_eq!(loaded.sstable_count(), 0);
}

#[test]
fn test_load_orders_tables_by_generation() {
    let mut db = Database::new();
    db.set("k".to_string(), "first".to_string());
    db.flush();
    db.set("k".to_string(), "second".to_string());
    db.flush();
    let wal = db.wal_image();
    let mut files = db.sst_files();
    // hand the directory over oldest first; recovery must still prefer
    // the newest table
    files.reverse();
    let loaded = Database::load(wal, files).expect("load should succeed");
    assert_eq!(loaded.get("k"), Some("second".to_string()));
}

#[test]
fn test_wal_iterator_replays_in_order() {
    let mut db = Database::new();
    db.set("a".to_string(), "1".to_string());
    db.del("a");
    db.set("b".to_string(), "2".to_string());
    let mut it = WALIterator::new(db.wal_image());
    assert_eq!(it.next(), Some(Ok(("a".to_string(), Some("1".to_string())))));
    assert_eq!(it.next(), Some(Ok(("a".to_string(), None))));
    assert_eq!(it.next(), Some(Ok(("b".to_string(), Some("2".to_string())))));
    assert_eq!(it.next(), None);
}

#[test]
fn test_wal_iterator_reports_damage() {
    let mut db = Database::new();
    db.set("a".to_string(), "1".to_string());
    // a torn record at the tail
    let mut torn = db.wal_image();
    torn.push(1);
    torn.push(9);
    let mut it = WALIterator::new(torn);
    assert_eq!(it.next(), Some(Ok(("a".to_string(), Some("1".to_string())))));
    assert_eq!(it.next(), Some(Err(janql::DbError::Corruption)));
    // an unknown opcode
    let mut bad_op = db.wal_image();
    bad_op.extend_from_slice(&[7, 0, 0, 0, 0]);
    let mut it2 = WALIterator::new(bad_op);
    assert_eq!(it2.next(), Some(Ok(("a".to_string(), Some("1".to_string())))));
    assert_eq!(it2.next(), Some(Err(janql::DbError::Corruption)));
}

#[test]
fn test_compaction_policy_timing() {
    let mut db = Database::new();
    db.set_compaction_policy(CompactionPolicy::Periodic(1000));
    db.set("k".to_string(), "v".to_string());
    db.flush();
    db.set("k2".to_string(), "v2".to_string());
    db.flush();
    assert_eq!(db.sstable_count(), 2);
    // too early: nothing happens
    let eff = db.maybe_compact(500).unwrap();
    assert_eq!(eff.len(), 0);
    assert_eq!(db.sstable_count(), 2);
    // due: the tables are merged into one
    db.maybe_compact(1000).unwrap();
    assert_eq!(db.sstable_count(), 1);
    assert_eq!(db.get("k"), Some("v".to_string()));
    // disabled: never due
    db.set_compaction_policy(CompactionPolicy::Disabled);
    db.set("k3".to_string(), "v3".to_string());
    db.flush();
    let eff2 = db.maybe_compact(1_000_000).unwrap();
    assert_eq!(eff2.len(), 0);
    assert_eq!(db.sstable_count(), 2);
}

#[test]
fn test_unicode_keys_and_values() {
    let mut db = Database::new();
    db.set("schl\u{00fc}ssel".to_string(), "wert\u{00e9}".to_string());
    db.flush();
    assert_eq!(db.get("schl\u{00fc}ssel"), Some("wert\u{00e9}".to_string()));
    let loaded = Database::load(db.wal_image(), db.sst_files()).expect("load should succeed");
    assert_eq!(loaded.get("schl\u{00fc}ssel"), Some("wert\u{00e9}".to_string()));
}
