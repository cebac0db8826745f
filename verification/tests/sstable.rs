use janql::{SSTableBuilder, SSTableReader, SearchResult};
use std::collections::BTreeMap;

#[test]
fn test_sstable_segmentation() {
    let mut builder = SSTableBuilder::new();

    // Generate data > 4KB
    // 4KB = 4096 bytes.
    // Let's use 100 byte keys+values. 50 entries = 5000 bytes.
    let mut data = BTreeMap::new();
    for i in 0..100 {
        let key = format!("key{:04}", i); // key0000, key0001...
        let value = "v".repeat(100); // 100 chars
        data.insert(key.clone(), value.clone());
        builder.add(&key, &value);
    }

    let bytes = builder.finish();

    // Read back
    let reader = SSTableReader::new(bytes).expect("Failed to open reader");

    // Check index size (should have multiple blocks)
    println!("Index size: {}", reader.index.len());
    assert!(reader.index.len() > 1, "Should have multiple blocks");

    // Verify all keys
    for (key, value) in &data {
        let res = reader.get(key);
        assert_eq!(res, SearchResult::Found(value.clone()));
    }

    // Verify range scan
    let start = "key0010";
    let end = "key0020";
    let range_res = reader.scan(start, end);

    assert_eq!(range_res.len(), 11); // 10 to 20 inclusive
    for (k, v) in range_res {
        assert_eq!(v, *data.get(&k).unwrap());
    }
}

#[test]
fn test_sstable_tombstones_round_trip() {
    let mut builder = SSTableBuilder::new();
    builder.add("alpha", "1");
    builder.delete("beta");
    builder.add("gamma", "3");
    let bytes = builder.finish();

    let reader = SSTableReader::new(bytes).expect("table should open");
    assert_eq!(reader.get("alpha"), SearchResult::Found("1".to_string()));
    assert_eq!(reader.get("beta"), SearchResult::Deleted);
    assert_eq!(reader.get("gamma"), SearchResult::Found("3".to_string()));
    assert_eq!(reader.get("aaaa"), SearchResult::NotFound);
    assert_eq!(reader.get("delta"), SearchResult::NotFound);
    assert_eq!(reader.get("zzzz"), SearchResult::NotFound);

    // scans skip tombstones
    let all = reader.scan("a", "z");
    assert_eq!(all.len(), 2);
    assert_eq!(all[0], ("alpha".to_string(), "1".to_string()));
    assert_eq!(all[1], ("gamma".to_string(), "3".to_string()));
}

#[test]
fn test_sstable_empty_table() {
    let builder = SSTableBuilder::new();
    let bytes = builder.finish();
    assert_eq!(bytes.len(), 8); // footer only
    let reader = SSTableReader::new(bytes).expect("empty table should open");
    assert_eq!(reader.get("anything"), SearchResult::NotFound);
    assert_eq!(reader.scan("a", "z").len(), 0);
}

#[test]
fn test_sstable_iterator_yields_all_entries() {
    let mut builder = SSTableBuilder::new();
    builder.add("a", "1");
    builder.delete("b");
    builder.add("c", "3");
    let bytes = builder.finish();
    let reader = SSTableReader::new(bytes).expect("table should open");
    let mut it = reader.into_iter();
    assert_eq!(it.next(), Some(("a".to_string(), Some("1".to_string()))));
    assert_eq!(it.next(), Some(("b".to_string(), None)));
    assert_eq!(it.next(), Some(("c".to_string(), Some("3".to_string()))));
    assert_eq!(it.next(), None);
}

#[test]
fn test_sstable_rejects_damage() {
    // too short for a footer
    assert!(SSTableReader::new(vec![1, 2, 3]).is_err());
    // footer points past the file
    let mut bytes = vec![0u8; 8];
    bytes[0] = 200;
    assert!(SSTableReader::new(bytes).is_err());
    // a valid table damaged in its data region
    let mut builder = SSTableBuilder::new();
    builder.add("key", "value");
    let mut good = builder.finish();
    good[0] = 0xFF; // key length now runs past the data region
    assert!(SSTableReader::new(good).is_err());
}

#[test]
fn test_sstable_unsorted_input_rejected_on_open() {
    // feeding descending keys produces a malformed table, which the
    // reader refuses
    let mut builder = SSTableBuilder::new();
    builder.add("b", "1");
    let bytes_b = builder.finish();
    let mut builder2 = SSTableBuilder::new();
    builder2.add("a", "2");
    let bytes_a = builder2.finish();
    // splice the two data regions together out of order: b then a
    let data_b = &bytes_b[0..bytes_b.len() - 8];
    let data_a = &bytes_a[0..bytes_a.len() - 8];
    let mut spliced: Vec<u8> = Vec::new();
    spliced.extend_from_slice(data_b);
    spliced.extend_from_slice(data_a);
    let index_start = spliced.len() as u64;
    // index anchor for the first entry
    spliced.extend_from_slice(&1u32.to_le_bytes());
    spliced.push(b'b');
    spliced.extend_from_slice(&0u64.to_le_bytes());
    spliced.extend_from_slice(&index_start.to_le_bytes());
    assert!(SSTableReader::new(spliced).is_err());
}
