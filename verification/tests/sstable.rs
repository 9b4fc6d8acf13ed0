use pebbledb::error::PebbleError;
use pebbledb::keymap::KeyMap;
use pebbledb::sstable::{read_sstable, write_sstable, SSTable, SSTableEntry};
use pebbledb::table::HEADER_SIZE;

#[test]
fn test_sstable_write_read_roundtrip() {
    let mut entries = KeyMap::new();
    entries.insert("apple".into(), SSTableEntry::Value("red".into()));
    entries.insert("banana".into(), SSTableEntry::Value("yellow".into()));
    entries.insert("cherry".into(), SSTableEntry::Tombstone);
    let data = write_sstable(&entries).unwrap();
    let loaded = read_sstable(&data).unwrap();
    assert_eq!(loaded.len(), 3);
    assert_eq!(
        loaded.get("apple"),
        Some(&SSTableEntry::Value("red".into()))
    );
    assert_eq!(
        loaded.get("banana"),
        Some(&SSTableEntry::Value("yellow".into()))
    );
    assert_eq!(loaded.get("cherry"), Some(&SSTableEntry::Tombstone));
}

#[test]
fn test_sstable_empty() {
    let entries: KeyMap<SSTableEntry> = KeyMap::new();
    let data = write_sstable(&entries).unwrap();
    let loaded = read_sstable(&data).unwrap();
    assert_eq!(loaded.len(), 0);
}

#[test]
fn test_sstable_checksum_corruption() {
    let mut entries = KeyMap::new();
    entries.insert("key1".into(), SSTableEntry::Value("val1".into()));
    let mut data = write_sstable(&entries).unwrap();
    data[HEADER_SIZE] ^= 0xFF;
    let result = read_sstable(&data);
    assert!(matches!(result, Err(PebbleError::SSTableCorruption(_))));
}

#[test]
fn test_sstable_load_struct() {
    let mut entries = KeyMap::new();
    entries.insert("key1".into(), SSTableEntry::Value("val1".into()));
    let data = write_sstable(&entries).unwrap();
    let sst = SSTable::load(42, "test.sst".to_string(), data).unwrap();
    assert_eq!(sst.id, 42);
    assert_eq!(sst.record_count(), 1);
    assert_eq!(sst.get("key1"), Some(SSTableEntry::Value("val1".into())));
}
