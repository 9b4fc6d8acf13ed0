use pebbledb::db::{DbOptions, DbStats, PebbleDB};
use pebbledb::disk::{Directory, DiskOp};
use pebbledb::error::Result;
use pebbledb::fault::{Fault, FaultPoint};
use pebbledb::iter::{Bound, MergeIterator, RangeIterator, SSTableIterator, SourceIterator, StorageIterator};
use pebbledb::keymap::KeyMap;
use pebbledb::names::sstable_file_name;
use pebbledb::sstable::{write_sstable, SSTable, SSTableEntry};
use std::cell::RefCell;
use std::rc::Rc;

const MERGE_PENDING_FILE: &str = "merge.pending";

/// A directory that one database after another is opened in.
#[derive(Clone)]
struct Disk(Rc<RefCell<Directory>>);

impl Disk {
    fn new() -> Self {
        Disk(Rc::new(RefCell::new(Directory::new())))
    }

    fn has(&self, name: &str) -> bool {
        self.0.borrow().read(name).is_some()
    }

    fn read(&self, name: &str) -> Vec<u8> {
        self.0.borrow().read(name).unwrap().clone()
    }

    fn put(&self, name: &str, data: &[u8]) {
        self.0.borrow_mut().put(name.to_string(), data.to_vec());
    }

    fn rename(&self, from: &str, to: &str) {
        self.0.borrow_mut().apply(&DiskOp::Rename { from: from.to_string(), to: to.to_string() });
    }

    fn names(&self) -> Vec<String> {
        let dir = self.0.borrow();
        (0..dir.len()).map(|i| dir.name(i).to_string()).collect()
    }
}

/// A database whose file operations are carried out after each call.
struct Db {
    disk: Disk,
    db: RefCell<PebbleDB>,
}

impl Db {
    fn over(disk: &Disk, opened: Result<PebbleDB>) -> Result<Db> {
        disk.0.borrow_mut().take_ops();
        opened.map(|db| Db { disk: disk.clone(), db: RefCell::new(db) })
    }

    fn open(disk: &Disk) -> Result<Db> {
        let opened = PebbleDB::open(&mut disk.0.borrow_mut());
        Db::over(disk, opened)
    }

    fn open_with_threshold(disk: &Disk, flush_threshold: usize) -> Result<Db> {
        let opened = PebbleDB::open_with_threshold(&mut disk.0.borrow_mut(), flush_threshold);
        Db::over(disk, opened)
    }

    fn open_with_options(disk: &Disk, options: DbOptions) -> Result<Db> {
        let opened = PebbleDB::open_with_options(&mut disk.0.borrow_mut(), options);
        Db::over(disk, opened)
    }

    fn settle<T>(&self, result: T) -> T {
        for op in self.db.borrow_mut().take_ops() {
            self.disk.0.borrow_mut().apply(&op);
        }
        result
    }

    fn set(&self, key: String, value: String) -> Result<()> {
        let result = self.db.borrow_mut().set(key, value);
        self.settle(result)
    }

    fn delete(&self, key: &str) -> Result<bool> {
        let result = self.db.borrow_mut().delete(key);
        self.settle(result)
    }

    fn flush(&self) -> Result<()> {
        let result = self.db.borrow_mut().flush();
        self.settle(result)
    }

    fn compact(&self) -> Result<()> {
        let result = self.db.borrow_mut().compact();
        self.settle(result)
    }

    fn compact_full(&self) -> Result<()> {
        let result = self.db.borrow_mut().compact_full();
        self.settle(result)
    }

    fn get(&self, key: &str) -> Option<String> {
        self.db.borrow_mut().get(key)
    }

    fn contains_key(&self, key: &str) -> bool {
        self.db.borrow_mut().contains_key(key)
    }

    fn range(&self, start: Bound, end: Bound) -> RangeIterator<SourceIterator> {
        self.db.borrow().range(start, end)
    }

    fn scan(&self) -> Vec<(String, String)> {
        self.db.borrow().scan()
    }

    fn keys(&self) -> Vec<String> {
        self.db.borrow().keys()
    }

    fn stats(&self) -> DbStats {
        self.db.borrow().stats()
    }
}

fn included(key: &str) -> Bound {
    Bound::Included(key.to_string())
}

fn excluded(key: &str) -> Bound {
    Bound::Excluded(key.to_string())
}

fn db_with(threshold: usize, entries: &[(&str, Option<&str>)]) -> (Disk, Db) {
    let dir = Disk::new();
    let db = Db::open_with_threshold(&dir, threshold).unwrap();
    for (key, value) in entries {
        match value {
            Some(value) => db.set((*key).to_string(), (*value).to_string()).unwrap(),
            None => {
                db.delete(key).unwrap();
            }
        }
    }
    (dir, db)
}

fn range(db: &Db, start: Option<&str>, end: Option<&str>) -> Vec<(String, String)> {
    db.range(start.map_or(Bound::Unbounded, included), end.map_or(Bound::Unbounded, excluded)).collect()
}

fn file_names(dir: &Disk) -> Vec<String> {
    let mut names: Vec<String> = dir.names().into_iter().filter(|name| name.ends_with(".sst")).collect();
    names.sort();
    names
}

fn file_ranges(db: &Db, level: u32) -> Vec<(String, String)> {
    db.db
        .borrow()
        .level_tables(level)
        .iter()
        .filter_map(|sst| sst.key_range().map(|(first, last)| (first.to_string(), last.to_string())))
        .collect()
}

fn tombstone_keys(db: &Db) -> Vec<String> {
    let mut children: Vec<SSTableIterator> = Vec::new();
    for stats in db.stats().levels {
        for sst in db.db.borrow().level_tables(stats.level).into_iter().rev() {
            children.push(SSTableIterator::new(sst));
        }
    }
    let mut iter = MergeIterator::new_with_tombstones(children);
    let mut keys: Vec<String> = Vec::new();
    while iter.valid() {
        if iter.value().is_none() {
            keys.push(iter.key().unwrap().to_string());
        }
        iter.advance();
    }
    keys
}

/// Adds the rows of a table file to `rows`; the file's rows win.
fn add_rows(rows: &mut KeyMap<SSTableEntry>, path: &Disk, id: u64) {
    let name = sstable_file_name(0, id);
    let sst = SSTable::load(id, name.clone(), path.read(&name)).unwrap();
    let entries = sst.entries();
    for i in 0..entries.len() {
        let (key, entry) = entries.entry(i).clone();
        rows.insert(key, entry);
    }
}

#[test]
fn test_flush_creates_sstable() {
    let path = Disk::new();
    let db = Db::open_with_threshold(&path, 2).unwrap();
    db.set("a".into(), "1".into()).unwrap();
    db.set("b".into(), "2".into()).unwrap();
    assert_eq!(file_names(&path).len(), 1);
}

#[test]
fn test_interrupted_merge_is_replayed_on_open() {
    let path = Disk::new();

    {
        let db = Db::open_with_options(&path, no_compaction(2)).unwrap();
        db.set("a".into(), "1".into()).unwrap();
        db.set("b".into(), "2".into()).unwrap();
        assert_eq!(levels_of(&db), vec![(0, 1)]);
    }

    let mut merged: KeyMap<SSTableEntry> = KeyMap::new();
    add_rows(&mut merged, &path, 0);
    path.put(&sstable_file_name(1, 9), &write_sstable(&merged).unwrap());
    path.put(MERGE_PENDING_FILE, b"outputs: 9\ninputs: 0\n");

    let db = Db::open_with_options(&path, no_compaction(2)).unwrap();
    assert_eq!(levels_of(&db), vec![(1, 1)]);
    assert_eq!(file_names(&path), vec!["sstable_L1_000009.sst"]);
    assert_eq!(db.scan(), owned(&[("a", "1"), ("b", "2")]));
    assert!(!path.has(MERGE_PENDING_FILE));
}

#[test]
fn test_partial_compaction_duplicates_are_tolerated() {
    let path = Disk::new();
    {
        let db = Db::open_with_options(&path, no_compaction(2)).unwrap();
        db.set("a".into(), "1".into()).unwrap();
        db.set("b".into(), "2".into()).unwrap();
        db.set("c".into(), "3".into()).unwrap();
        db.set("d".into(), "4".into()).unwrap();
        assert_eq!(levels_of(&db), vec![(0, 2)]);
    }

    let mut merged: KeyMap<SSTableEntry> = KeyMap::new();
    for id in [0u64, 1] {
        add_rows(&mut merged, &path, id);
    }
    path.put(&sstable_file_name(1, 2), &write_sstable(&merged).unwrap());

    let db = Db::open_with_options(&path, options(2, 2, usize::MAX)).unwrap();
    assert_eq!(levels_of(&db), vec![(0, 2), (1, 1)]);
    assert_eq!(db.get("a"), Some("1".into()));
    assert_eq!(db.get("d"), Some("4".into()));
    assert_eq!(db.scan(), owned(&[("a", "1"), ("b", "2"), ("c", "3"), ("d", "4")]));

    db.compact().unwrap();
    assert_eq!(levels_of(&db), vec![(1, 1)]);
    assert_eq!(file_names(&path), vec!["sstable_L1_000003.sst"]);
    assert_eq!(db.scan(), owned(&[("a", "1"), ("b", "2"), ("c", "3"), ("d", "4")]));
}

#[test]
fn test_compaction_metrics() {
    let path = Disk::new();
    let db = Db::open_with_options(&path, options(2, 2, usize::MAX)).unwrap();
    db.set("a".into(), "1".into()).unwrap();
    db.set("b".into(), "2".into()).unwrap();
    db.set("c".into(), "3".into()).unwrap();
    db.set("d".into(), "4".into()).unwrap();

    let stats = db.stats();
    assert_eq!(stats.compactions_completed, 1);
    assert_eq!(stats.full_compactions, 0);
    assert_eq!(stats.compaction_input_files, 2);
    assert_eq!(stats.compaction_output_files, 1);
    assert!(stats.compaction_bytes_read > 0);
    assert!(stats.compaction_bytes_written > 0);
    assert!(stats.bytes_flushed > 0);

    let expected = (stats.bytes_flushed + stats.compaction_bytes_written) as f64 / stats.bytes_flushed as f64;
    let (written, flushed) = stats.write_amplification.unwrap();
    let write_amplification = written as f64 / flushed as f64;
    assert!((write_amplification - expected).abs() < 1e-9);
    assert!(write_amplification >= 1.0);

    db.compact().unwrap();
    assert_eq!(db.stats().compactions_completed, 1);
}

/// Four writers that take turns.
#[test]
fn test_concurrent_set_get() {
    let path = Disk::new();
    let db = Db::open_with_threshold(&path, 10000).unwrap();

    for j in 0..100 {
        for i in 0..4 {
            let key = format!("t{}_{}", i, j);
            db.set(key.clone(), format!("val_{}", j)).unwrap();
            let _ = db.get(&key);
        }
    }
    let stats = db.stats();
    assert_eq!(stats.memtable_entries, 400);
}

/// A reader that takes its turn after each write.
#[test]
fn test_concurrent_reads_while_compacting() {
    let path = Disk::new();
    let db = Db::open_with_options(&path, options(4, 2, 1)).unwrap();
    for i in 0..4 {
        db.set(format!("k{:02}", i), format!("v{}", i)).unwrap();
    }

    let read = || {
        for i in 0..4 {
            let _ = db.get(&format!("k{:02}", i));
        }
        let scan = db.scan();
        assert!(scan.windows(2).all(|pair| pair[0].0 < pair[1].0));
        let _ = db.range(included("k"), excluded("l")).count();
    };

    for i in 4..64 {
        db.set(format!("k{:02}", i), format!("v{}", i)).unwrap();
        read();
        if i % 7 == 0 {
            db.delete(&format!("k{:02}", i)).unwrap();
            read();
        }
    }

    assert_eq!(db.keys().len(), 55);
    assert_eq!(db.get("k63"), None);
    assert_eq!(db.get("k62"), Some("v62".into()));
    assert_eq!(db.get("k00"), Some("v0".into()));
}

#[test]
fn test_set_and_get() {
    let path = Disk::new();
    let db = Db::open_with_threshold(&path, 100).unwrap();
    db.set("key".into(), "value".into()).unwrap();
    assert_eq!(db.get("key"), Some("value".into()));
}

#[test]
fn test_overwrite_key() {
    let path = Disk::new();
    let db = Db::open_with_threshold(&path, 100).unwrap();
    db.set("key".into(), "v1".into()).unwrap();
    db.set("key".into(), "v2".into()).unwrap();
    assert_eq!(db.get("key"), Some("v2".into()));
}

#[test]
fn test_get_nonexistent() {
    let path = Disk::new();
    let db = Db::open_with_threshold(&path, 100).unwrap();
    assert_eq!(db.get("nope"), None);
}

#[test]
fn test_delete() {
    let path = Disk::new();
    let db = Db::open_with_threshold(&path, 100).unwrap();
    db.set("key".into(), "val".into()).unwrap();
    let existed = db.delete("key").unwrap();
    assert!(existed);
    assert_eq!(db.get("key"), None);
}

#[test]
fn test_delete_nonexistent() {
    let path = Disk::new();
    let db = Db::open_with_threshold(&path, 100).unwrap();
    let existed = db.delete("nope").unwrap();
    assert!(!existed);
}

#[test]
fn test_exists() {
    let path = Disk::new();
    let db = Db::open_with_threshold(&path, 100).unwrap();
    db.set("key".into(), "val".into()).unwrap();
    assert!(db.contains_key("key"));
    assert!(!db.contains_key("nope"));
}

#[test]
fn test_empty_database() {
    let path = Disk::new();
    let db = Db::open_with_threshold(&path, 100).unwrap();
    assert_eq!(db.get("any"), None);
}

#[test]
fn test_keys_sorted() {
    let path = Disk::new();
    let db = Db::open_with_threshold(&path, 100).unwrap();
    db.set("c".into(), "3".into()).unwrap();
    db.set("a".into(), "1".into()).unwrap();
    db.set("b".into(), "2".into()).unwrap();
    let keys = db.keys();
    assert_eq!(keys, vec!["a", "b", "c"]);
}

#[test]
fn test_multiple_operations_order() {
    let path = Disk::new();
    let db = Db::open_with_threshold(&path, 100).unwrap();
    db.set("x".into(), "1".into()).unwrap();
    db.set("y".into(), "2".into()).unwrap();
    db.delete("x").unwrap();
    assert_eq!(db.get("x"), None);
    assert_eq!(db.get("y"), Some("2".into()));
}

#[test]
fn test_reopen_persists_data() {
    let path = Disk::new();
    {
        let db = Db::open_with_threshold(&path, 100).unwrap();
        db.set("hello".into(), "world".into()).unwrap();
    }
    {
        let db = Db::open(&path).unwrap();
        assert_eq!(db.get("hello"), Some("world".into()));
    }
}

#[test]
fn test_reopen_after_delete() {
    let path = Disk::new();
    {
        let db = Db::open_with_threshold(&path, 100).unwrap();
        db.set("key".into(), "val".into()).unwrap();
        db.delete("key").unwrap();
    }
    {
        let db = Db::open(&path).unwrap();
        assert_eq!(db.get("key"), None);
    }
}

#[test]
fn test_read_from_sstable() {
    let path = Disk::new();
    {
        let db = Db::open_with_threshold(&path, 2).unwrap();
        db.set("a".into(), "1".into()).unwrap();
        db.set("b".into(), "2".into()).unwrap();
        db.set("c".into(), "3".into()).unwrap();
    }
    {
        let db = Db::open(&path).unwrap();
        assert_eq!(db.get("a"), Some("1".into()));
        assert_eq!(db.get("b"), Some("2".into()));
    }
}

#[test]
fn test_memtable_overrides_sstable() {
    let path = Disk::new();
    {
        let db = Db::open_with_threshold(&path, 2).unwrap();
        db.set("k".into(), "old".into()).unwrap();
        db.set("x".into(), "pad".into()).unwrap();
    }
    {
        let db = Db::open_with_threshold(&path, 100).unwrap();
        db.set("k".into(), "new".into()).unwrap();
        assert_eq!(db.get("k"), Some("new".into()));
    }
}

#[test]
fn test_tombstone_overrides_sstable() {
    let path = Disk::new();
    {
        let db = Db::open_with_threshold(&path, 2).unwrap();
        db.set("k".into(), "val".into()).unwrap();
        db.set("x".into(), "pad".into()).unwrap();
    }
    {
        let db = Db::open_with_threshold(&path, 100).unwrap();
        db.delete("k").unwrap();
        assert_eq!(db.get("k"), None);
    }
}

#[test]
fn test_scan_ordering() {
    let path = Disk::new();
    let db = Db::open_with_threshold(&path, 100).unwrap();
    db.set("c".into(), "3".into()).unwrap();
    db.set("a".into(), "1".into()).unwrap();
    db.set("b".into(), "2".into()).unwrap();
    let scan = db.scan();
    assert_eq!(
        scan,
        vec![
            ("a".into(), "1".into()),
            ("b".into(), "2".into()),
            ("c".into(), "3".into()),
        ]
    );
}

#[test]
fn test_scan_excludes_tombstones() {
    let path = Disk::new();
    let db = Db::open_with_threshold(&path, 100).unwrap();
    db.set("a".into(), "1".into()).unwrap();
    db.set("b".into(), "2".into()).unwrap();
    db.delete("a").unwrap();
    let scan = db.scan();
    assert_eq!(scan, vec![("b".into(), "2".into())]);
}

#[test]
fn test_compaction() {
    let path = Disk::new();
    let db =
        Db::open_with_options(&path, options(2, 2, usize::MAX)).unwrap();
    db.set("a".into(), "1".into()).unwrap();
    db.set("b".into(), "2".into()).unwrap();
    db.set("c".into(), "3".into()).unwrap();
    db.set("d".into(), "4".into()).unwrap();
    db.compact().unwrap();
    assert_eq!(db.get("a"), Some("1".into()));
    assert_eq!(db.get("b"), Some("2".into()));
    assert_eq!(db.get("c"), Some("3".into()));
    assert_eq!(db.get("d"), Some("4".into()));
    assert_eq!(levels_of(&db), vec![(1, 1)]);
}

#[test]
fn test_compaction_drops_tombstones() {
    let path = Disk::new();
    let db =
        Db::open_with_options(&path, options(2, 2, usize::MAX)).unwrap();
    db.set("a".into(), "1".into()).unwrap();
    db.set("b".into(), "2".into()).unwrap();
    db.delete("a").unwrap();
    db.set("c".into(), "3".into()).unwrap();
    db.compact().unwrap();
    let keys = db.keys();
    assert_eq!(keys, vec!["b", "c"]);
    assert_eq!(tombstone_keys(&db), Vec::<String>::new());
}

#[test]
fn test_compaction_newest_wins() {
    let path = Disk::new();
    let db =
        Db::open_with_options(&path, options(2, 2, usize::MAX)).unwrap();
    db.set("key".into(), "old".into()).unwrap();
    db.set("other".into(), "x".into()).unwrap();
    db.set("key".into(), "new".into()).unwrap();
    db.set("other2".into(), "y".into()).unwrap();
    db.compact().unwrap();
    assert_eq!(db.get("key"), Some("new".into()));
    assert_eq!(levels_of(&db), vec![(1, 1)]);
}

#[test]
fn test_compaction_tombstone_shadows_older() {
    let path = Disk::new();
    let db =
        Db::open_with_options(&path, options(2, 2, usize::MAX)).unwrap();
    db.set("key".into(), "old".into()).unwrap();
    db.set("pad".into(), "x".into()).unwrap();
    db.delete("key").unwrap();
    db.set("pad2".into(), "y".into()).unwrap();
    db.compact().unwrap();
    assert_eq!(db.get("key"), None);
    assert_eq!(db.scan(), owned(&[("pad", "x"), ("pad2", "y")]));
}

#[test]
fn test_wal_replay_after_flush() {
    let path = Disk::new();
    {
        let db = Db::open_with_threshold(&path, 2).unwrap();
        db.set("a".into(), "1".into()).unwrap();
        db.set("b".into(), "2".into()).unwrap();
        db.set("c".into(), "3".into()).unwrap();
    }
    {
        let db = Db::open(&path).unwrap();
        assert_eq!(db.get("a"), Some("1".into()));
        assert_eq!(db.get("b"), Some("2".into()));
        assert_eq!(db.get("c"), Some("3".into()));
    }
}

#[test]
fn test_crash_during_flush_recovery() {
    let path = Disk::new();
        {
        let db = Db::open_with_threshold(&path, 2).unwrap();
        db.set("a".into(), "1".into()).unwrap();
        db.set("b".into(), "2".into()).unwrap();
    }
    let temp_file = ".sstable_000000.sst.tmp";
    path.put(temp_file, b"garbage");
    {
        let db = Db::open(&path).unwrap();
        assert_eq!(db.get("a"), Some("1".into()));
        assert_eq!(db.get("b"), Some("2".into()));
        assert!(!path.has(temp_file));
    }
}

#[test]
fn test_compaction_crash_before_input_cleanup_does_not_resurrect_deleted_keys() {
    let path = Disk::new();

    {
        let db = Db::open_with_options(&path, options(2, 2, usize::MAX)).unwrap();
        db.set("k".into(), "v1".into()).unwrap();
        db.set("a".into(), "1".into()).unwrap();
        db.set("b".into(), "2".into()).unwrap();
        db.set("c".into(), "3".into()).unwrap();
        assert_eq!(levels_of(&db), vec![(1, 1)]);
        assert_eq!(db.get("k"), Some("v1".into()));
    }

    {
        let fault = Fault::new(FaultPoint::BeforeObsoleteFileDelete, 3);
        let db = Db::open_with_options(&path, fault_options(2, 2, fault)).unwrap();
        db.delete("k").unwrap();
        db.set("d".into(), "4".into()).unwrap();
        db.set("e".into(), "5".into()).unwrap();
        assert!(db.set("f".into(), "6".into()).is_err());
        assert!(path.has(MERGE_PENDING_FILE));
    }

    let db = Db::open_with_options(&path, options(2, 2, usize::MAX)).unwrap();
    assert!(!path.has(MERGE_PENDING_FILE));
    assert_eq!(db.get("k"), None);
    assert_eq!(
        db.scan(),
        owned(&[
            ("a", "1"),
            ("b", "2"),
            ("c", "3"),
            ("d", "4"),
            ("e", "5"),
            ("f", "6")
        ])
    );
}

#[test]
fn test_interrupted_merge_keeps_inputs_when_outputs_are_missing() {
    let path = Disk::new();

    {
        let db = Db::open_with_options(&path, no_compaction(2)).unwrap();
        db.set("a".into(), "1".into()).unwrap();
        db.set("b".into(), "2".into()).unwrap();
    }

    path.put(MERGE_PENDING_FILE, b"outputs: 9\ninputs: 0\n");

    let db = Db::open_with_options(&path, no_compaction(2)).unwrap();
    assert_eq!(levels_of(&db), vec![(0, 1)]);
    assert_eq!(db.scan(), owned(&[("a", "1"), ("b", "2")]));
    assert!(!path.has(MERGE_PENDING_FILE));
}

#[test]
fn test_stats() {
    let path = Disk::new();
    let db = Db::open_with_threshold(&path, 100).unwrap();
    db.set("a".into(), "1".into()).unwrap();
    db.set("b".into(), "2".into()).unwrap();
    let stats = db.stats();
    assert_eq!(stats.memtable_entries, 2);
    assert_eq!(stats.sst_count, 0);
    assert!(stats.wal_size > 0);
    db.flush().unwrap();
    let stats = db.stats();
    assert_eq!(stats.memtable_entries, 0);
    assert_eq!(stats.sst_count, 1);
    assert!(stats.total_sst_size > 0);
}

#[test]
fn test_bloom_filter_rejects() {
    let path = Disk::new();
    {
        let db = Db::open_with_threshold(&path, 2).unwrap();
        for i in 0..50 {
            db.set(format!("key_{:04}", i), format!("val_{}", i))
                .unwrap();
        }
    }
    {
        let db = Db::open(&path).unwrap();
        let stats_before = db.stats();
        let rejects_before = stats_before.bloom_rejects;
        let _ = db.get("nonexistent_zzz");
        let stats_after = db.stats();
        assert!(stats_after.bloom_rejects > rejects_before || stats_after.sst_count > 0);
    }
}

fn owned(entries: &[(&str, &str)]) -> Vec<(String, String)> {
    entries
        .iter()
        .map(|(key, value)| ((*key).to_string(), (*value).to_string()))
        .collect()
}

#[test]
fn test_range_empty_database() {
    let (_dir, db) = db_with(100, &[]);
    assert_eq!(range(&db, None, None), Vec::new());
}

#[test]
fn test_range_single_key() {
    let (_dir, db) = db_with(100, &[("only", Some("1"))]);
    assert_eq!(range(&db, None, None), owned(&[("only", "1")]));
    assert_eq!(range(&db, Some("only"), None), owned(&[("only", "1")]));
    assert_eq!(range(&db, None, Some("only")), Vec::new());
}

#[test]
fn test_range_multiple_ordered_keys() {
    let (_dir, db) = db_with(100, &[("a", Some("1")), ("b", Some("2")), ("c", Some("3"))]);
    assert_eq!(
        range(&db, None, None),
        owned(&[("a", "1"), ("b", "2"), ("c", "3")])
    );
}

#[test]
fn test_range_reverse_insertion_order() {
    let (_dir, db) = db_with(100, &[("c", Some("3")), ("b", Some("2")), ("a", Some("1"))]);
    assert_eq!(db.keys(), vec!["a", "b", "c"]);
    assert_eq!(
        range(&db, None, None),
        owned(&[("a", "1"), ("b", "2"), ("c", "3")])
    );
}

#[test]
fn test_range_duplicate_updates() {
    let (_dir, db) = db_with(
        100,
        &[("a", Some("old")), ("b", Some("2")), ("a", Some("new"))],
    );
    assert_eq!(range(&db, None, None), owned(&[("a", "new"), ("b", "2")]));
}

#[test]
fn test_range_excludes_deleted_keys() {
    let (_dir, db) = db_with(100, &[("a", Some("1")), ("b", Some("2")), ("a", None)]);
    assert_eq!(range(&db, None, None), owned(&[("b", "2")]));
}

#[test]
fn test_range_memtable_only() {
    let (_dir, db) = db_with(
        100,
        &[("k1", Some("v1")), ("k2", Some("v2")), ("k3", Some("v3"))],
    );
    assert_eq!(db.stats().sst_count, 0);
    assert_eq!(
        range(&db, Some("k2"), None),
        owned(&[("k2", "v2"), ("k3", "v3")])
    );
}

#[test]
fn test_range_sstable_only() {
    let path = Disk::new();
    {
        let db = Db::open_with_threshold(&path, 2).unwrap();
        db.set("a".into(), "1".into()).unwrap();
        db.set("b".into(), "2".into()).unwrap();
        db.set("c".into(), "3".into()).unwrap();
        db.set("d".into(), "4".into()).unwrap();
        assert_eq!(db.stats().memtable_entries, 0);
    }
    let db = Db::open(&path).unwrap();
    assert_eq!(db.stats().sst_count, 2);
    assert_eq!(
        range(&db, Some("b"), Some("d")),
        owned(&[("b", "2"), ("c", "3")])
    );
}

#[test]
fn test_range_memtable_and_sstable() {
    let path = Disk::new();
    let db = Db::open_with_threshold(&path, 2).unwrap();
    db.set("a".into(), "1".into()).unwrap();
    db.set("b".into(), "2".into()).unwrap();
    db.set("c".into(), "3".into()).unwrap();
    assert_eq!(db.stats().sst_count, 1);
    assert_eq!(db.stats().memtable_entries, 1);
    assert_eq!(
        range(&db, None, None),
        owned(&[("a", "1"), ("b", "2"), ("c", "3")])
    );
}

#[test]
fn test_range_multiple_sstables() {
    let path = Disk::new();
    {
        let db = Db::open_with_options(&path, no_compaction(2)).unwrap();
        for (key, value) in [("a", "1"), ("b", "2"), ("c", "3"), ("d", "4"), ("e", "5")] {
            db.set(key.into(), value.into()).unwrap();
            db.set(format!("pad_{}", key), "x".into()).unwrap();
        }
        assert!(db.stats().sst_count >= 3);
    }
    let db = Db::open_with_options(&path, no_compaction(2)).unwrap();
    assert!(db.stats().sst_count >= 3);
    let scanned = range(&db, Some("c"), Some("e"));
    assert_eq!(scanned, owned(&[("c", "3"), ("d", "4")]));
}

#[test]
fn test_range_overlapping_sstables() {
    let path = Disk::new();
    {
        let db = Db::open_with_threshold(&path, 2).unwrap();
        db.set("a".into(), "old".into()).unwrap();
        db.set("b".into(), "1".into()).unwrap();
    }
    {
        let db = Db::open_with_threshold(&path, 2).unwrap();
        db.set("a".into(), "new".into()).unwrap();
        db.set("c".into(), "2".into()).unwrap();
        assert_eq!(db.stats().sst_count, 2);
        assert_eq!(
            range(&db, None, None),
            owned(&[("a", "new"), ("b", "1"), ("c", "2")])
        );
    }
}

#[test]
fn test_range_deleted_key_shadows_older_sstable() {
    let path = Disk::new();
    {
        let db = Db::open_with_threshold(&path, 2).unwrap();
        db.set("k".into(), "value".into()).unwrap();
        db.set("pad".into(), "x".into()).unwrap();
    }
    {
        let db = Db::open_with_threshold(&path, 2).unwrap();
        db.delete("k").unwrap();
        db.set("pad2".into(), "y".into()).unwrap();
        assert_eq!(db.stats().sst_count, 2);
        assert_eq!(
            range(&db, None, None),
            owned(&[("pad", "x"), ("pad2", "y")])
        );
        assert_eq!(
            range(&db, Some("k"), None),
            owned(&[("pad", "x"), ("pad2", "y")])
        );
    }
}

#[test]
fn test_range_skips_tombstone_between_live_keys() {
    let (_dir, db) = db_with(
        100,
        &[
            ("a", Some("1")),
            ("b", Some("2")),
            ("c", Some("3")),
            ("b", None),
            ("d", Some("4")),
        ],
    );
    assert_eq!(
        range(&db, None, None),
        owned(&[("a", "1"), ("c", "3"), ("d", "4")])
    );
}

#[test]
fn test_range_unbounded_bounds() {
    let (_dir, db) = db_with(100, &[("a", Some("1")), ("b", Some("2")), ("c", Some("3"))]);
    assert_eq!(db.range(Bound::Unbounded, Bound::Unbounded).collect().len(), 3);
    assert_eq!(
        db.range(included("b"), Bound::Unbounded).collect(),
        owned(&[("b", "2"), ("c", "3")])
    );
    assert_eq!(
        db.range(Bound::Unbounded, excluded("c")).collect(),
        owned(&[("a", "1"), ("b", "2")])
    );
}

#[test]
fn test_range_exact_single_key() {
    let (_dir, db) = db_with(100, &[("a", Some("1")), ("b", Some("2")), ("c", Some("3"))]);
    assert_eq!(
        db.range(included("b"), included("b"))
            .collect(),
        owned(&[("b", "2")])
    );
    assert_eq!(
        db.range(included("b"), excluded("c"))
            .collect(),
        owned(&[("b", "2")])
    );
}

#[test]
fn test_range_inclusive_end() {
    let (_dir, db) = db_with(100, &[("a", Some("1")), ("b", Some("2")), ("c", Some("3"))]);
    assert_eq!(
        db.range(Bound::Unbounded, included("b")).collect(),
        owned(&[("a", "1"), ("b", "2")])
    );
}

#[test]
fn test_range_empty_result() {
    let (_dir, db) = db_with(100, &[("a", Some("1")), ("b", Some("2")), ("c", Some("3"))]);
    assert_eq!(range(&db, Some("x"), Some("z")), Vec::new());
    assert_eq!(range(&db, Some("c"), Some("a")), Vec::new());
    assert_eq!(range(&db, Some("b"), Some("b")), Vec::new());
}

#[test]
fn test_range_seek_to_existing_key() {
    let (_dir, db) = db_with(100, &[("a", Some("1")), ("b", Some("2")), ("c", Some("3"))]);
    let mut iter = db.range(Bound::Unbounded, Bound::Unbounded);
    iter.seek("b");
    assert_eq!(iter.key(), Some("b"));
    assert_eq!(iter.value(), Some("2"));
    assert_eq!(iter.next(), Some(("b".to_string(), "2".to_string())));
    assert_eq!(iter.next(), Some(("c".to_string(), "3".to_string())));
    assert_eq!(iter.next(), None);
}

#[test]
fn test_range_seek_between_keys() {
    let (_dir, db) = db_with(100, &[("a", Some("1")), ("c", Some("3")), ("e", Some("5"))]);
    let mut iter = db.range(Bound::Unbounded, Bound::Unbounded);
    iter.seek("b");
    assert_eq!(iter.key(), Some("c"));
    iter.seek("d");
    assert_eq!((iter.key(), iter.value()), (Some("e"), Some("5")));
}

#[test]
fn test_range_seek_beyond_final_key() {
    let (_dir, db) = db_with(100, &[("a", Some("1")), ("b", Some("2"))]);
    let mut iter = db.range(Bound::Unbounded, Bound::Unbounded);
    iter.seek("z");
    assert!(!iter.valid());
    assert_eq!(iter.key(), None);
    assert_eq!(iter.next(), None);
}

#[test]
fn test_range_seek_respects_end_bound() {
    let (_dir, db) = db_with(100, &[("a", Some("1")), ("b", Some("2")), ("c", Some("3"))]);
    let mut iter = db.range(Bound::Unbounded, excluded("c"));
    iter.seek("c");
    assert!(!iter.valid());
    iter.seek("b");
    assert_eq!(iter.key(), Some("b"));
}

#[test]
fn test_scan_and_keys_match_range() {
    let path = Disk::new();
    {
        let db = Db::open_with_threshold(&path, 2).unwrap();
        db.set("a".into(), "1".into()).unwrap();
        db.set("b".into(), "2".into()).unwrap();
        db.set("c".into(), "3".into()).unwrap();
        db.set("d".into(), "4".into()).unwrap();
    }
    let db = Db::open_with_threshold(&path, 100).unwrap();
    db.set("e".into(), "5".into()).unwrap();
    db.delete("b").unwrap();
    assert_eq!(db.stats().sst_count, 2);
    assert_eq!(db.stats().memtable_entries, 2);

    let expected = owned(&[("a", "1"), ("c", "3"), ("d", "4"), ("e", "5")]);
    assert_eq!(db.scan(), expected);
    assert_eq!(db.range(Bound::Unbounded, Bound::Unbounded).collect(), expected);
    assert_eq!(db.keys(), vec!["a", "c", "d", "e"]);
    assert_eq!(
        range(&db, Some("b"), Some("e")),
        owned(&[("c", "3"), ("d", "4")])
    );
    assert_eq!(db.get("b"), None);
}

#[test]
fn test_range_after_reopen() {
    let path = Disk::new();
    {
        let db = Db::open_with_threshold(&path, 100).unwrap();
        db.set("b".into(), "2".into()).unwrap();
        db.set("a".into(), "1".into()).unwrap();
        db.set("c".into(), "3".into()).unwrap();
    }
    let db = Db::open(&path).unwrap();
    assert_eq!(
        range(&db, None, None),
        owned(&[("a", "1"), ("b", "2"), ("c", "3")])
    );
    assert_eq!(
        range(&db, Some("b"), None),
        owned(&[("b", "2"), ("c", "3")])
    );
}

fn no_compaction(flush_threshold: usize) -> DbOptions {
    DbOptions {
        flush_threshold,
        l0_compaction_threshold: usize::MAX,
        level_size_multiplier: 10,
        target_level_size: usize::MAX,
        target_file_size: 2 * 1024 * 1024,
        fault: None,
    }
}

fn options(
    flush_threshold: usize,
    l0_compaction_threshold: usize,
    target_level_size: usize,
) -> DbOptions {
    DbOptions {
        flush_threshold,
        l0_compaction_threshold,
        level_size_multiplier: 2,
        target_level_size,
        target_file_size: 2 * 1024 * 1024,
        fault: None,
    }
}

fn fault_options(
    flush_threshold: usize,
    l0_compaction_threshold: usize,
    fault: Fault,
) -> DbOptions {
    DbOptions {
        flush_threshold,
        l0_compaction_threshold,
        level_size_multiplier: 2,
        target_level_size: usize::MAX,
        target_file_size: 2 * 1024 * 1024,
        fault: Some(fault),
    }
}

fn levels_of(db: &Db) -> Vec<(u32, usize)> {
    db.stats()
        .levels
        .iter()
        .map(|ls| (ls.level, ls.files))
        .collect()
}

#[test]
fn test_flush_writes_level_zero_file() {
    let path = Disk::new();
    let db = Db::open_with_options(&path, no_compaction(2)).unwrap();
    db.set("a".into(), "1".into()).unwrap();
    db.set("b".into(), "2".into()).unwrap();
    assert_eq!(levels_of(&db), vec![(0, 1)]);
    assert_eq!(file_names(&path), vec!["sstable_L0_000000.sst"]);
}

#[test]
fn test_l0_compaction_triggered_by_threshold() {
    let path = Disk::new();
    let db = Db::open_with_options(&path, options(2, 2, usize::MAX)).unwrap();

    db.set("a".into(), "1".into()).unwrap();
    db.set("b".into(), "2".into()).unwrap();
    assert_eq!(levels_of(&db), vec![(0, 1)]);

    db.set("c".into(), "3".into()).unwrap();
    db.set("d".into(), "4".into()).unwrap();
    assert_eq!(levels_of(&db), vec![(1, 1)]);
    assert_eq!(file_names(&path), vec!["sstable_L1_000002.sst"]);

    for (key, value) in [("a", "1"), ("b", "2"), ("c", "3"), ("d", "4")] {
        assert_eq!(db.get(key), Some(value.to_string()));
    }
    let stats = db.stats();
    assert_eq!(stats.compactions_completed, 1);
    assert_eq!(stats.compactions_by_level, vec![(0, 1)]);
    assert_eq!(stats.compaction_input_files, 2);
    assert_eq!(stats.compaction_output_files, 1);
}

#[test]
fn test_l0_files_may_overlap() {
    let path = Disk::new();
    let db = Db::open_with_options(&path, no_compaction(2)).unwrap();
    db.set("a".into(), "1".into()).unwrap();
    db.set("c".into(), "3".into()).unwrap();
    db.set("b".into(), "2".into()).unwrap();
    db.set("d".into(), "4".into()).unwrap();

    assert_eq!(levels_of(&db), vec![(0, 2)]);
    let ranges = file_ranges(&db, 0);
    assert_eq!(
        ranges,
        vec![
            ("a".to_string(), "c".to_string()),
            ("b".to_string(), "d".to_string())
        ]
    );
    assert!(ranges[0].0 <= ranges[1].1 && ranges[1].0 <= ranges[0].1);
    assert_eq!(
        db.scan(),
        owned(&[("a", "1"), ("b", "2"), ("c", "3"), ("d", "4")])
    );
}

#[test]
fn test_l1_files_do_not_overlap() {
    let path = Disk::new();
    let mut config = options(2, 2, usize::MAX);
    config.target_file_size = 40;
    let db = Db::open_with_options(&path, config).unwrap();

    for i in 0..8 {
        db.set(format!("k{}", i), format!("v{}", i)).unwrap();
    }

    let ranges = file_ranges(&db, 1);
    assert!(ranges.len() > 1, "expected a split output: {:?}", ranges);
    for pair in ranges.windows(2) {
        assert!(
            pair[0].1 < pair[1].0,
            "level 1 files overlap: {:?} and {:?}",
            pair[0],
            pair[1]
        );
    }
    assert_eq!(db.keys().len(), 8);
    assert_eq!(db.get("k7"), Some("v7".into()));
}

#[test]
fn test_multi_level_compaction() {
    let path = Disk::new();
    let db = Db::open_with_options(&path, options(2, 2, 1)).unwrap();

    for i in 0..6 {
        db.set(format!("k{}", i), format!("v{}", i)).unwrap();
    }

    let levels = levels_of(&db);
    assert!(levels.iter().any(|(level, _)| *level >= 2));
    for i in 0..6 {
        assert_eq!(db.get(&format!("k{}", i)), Some(format!("v{}", i)));
    }
    let stats = db.stats();
    assert!(stats.compactions_completed >= 3);
    assert!(
        stats
            .compactions_by_level
            .iter()
            .any(|(level, _)| *level == 0)
    );
    assert!(
        stats
            .compactions_by_level
            .iter()
            .any(|(level, _)| *level >= 1)
    );
}

fn seed_deep_level(path: &Disk) {
    let db = Db::open_with_options(path, options(2, 2, 1)).unwrap();
    db.set("a".into(), "1".into()).unwrap();
    db.set("b".into(), "2".into()).unwrap();
    db.set("c".into(), "3".into()).unwrap();
    db.set("d".into(), "4".into()).unwrap();
    db.compact().unwrap();
    let levels = levels_of(&db);
    assert!(levels[0].0 >= 2, "expected a deep level: {:?}", levels);
}

#[test]
fn test_tombstones_kept_while_a_deeper_level_exists() {
    let path = Disk::new();
    seed_deep_level(&path);

    let db = Db::open_with_options(&path, options(2, 2, usize::MAX)).unwrap();
    db.delete("a").unwrap();
    db.set("e".into(), "5".into()).unwrap();
    db.delete("b").unwrap();
    db.set("f".into(), "6".into()).unwrap();

    assert_eq!(levels_of(&db).first(), Some(&(1, 1)));
    assert_eq!(tombstone_keys(&db), vec!["a".to_string(), "b".to_string()]);
    assert_eq!(db.get("a"), None);
    assert_eq!(db.get("b"), None);
    assert_eq!(db.get("c"), Some("3".into()));
    assert_eq!(db.get("d"), Some("4".into()));
    assert_eq!(db.get("e"), Some("5".into()));
    assert_eq!(db.get("f"), Some("6".into()));
    assert_eq!(
        db.scan(),
        owned(&[("c", "3"), ("d", "4"), ("e", "5"), ("f", "6")])
    );
}

#[test]
fn test_tombstones_removed_at_the_deepest_level() {
    let path = Disk::new();
    seed_deep_level(&path);

    {
        let db = Db::open_with_options(&path, options(2, 2, usize::MAX)).unwrap();
        db.delete("a").unwrap();
        db.set("e".into(), "5".into()).unwrap();
        db.delete("b").unwrap();
        db.set("f".into(), "6".into()).unwrap();
        assert_eq!(tombstone_keys(&db).len(), 2);
    }

    let db = Db::open_with_options(&path, options(2, 2, 1)).unwrap();
    db.compact().unwrap();

    assert_eq!(tombstone_keys(&db), Vec::<String>::new());
    assert_eq!(levels_of(&db).len(), 1);
    assert_eq!(db.get("a"), None);
    assert_eq!(db.get("b"), None);
    assert_eq!(db.get("c"), Some("3".into()));
    assert_eq!(db.get("d"), Some("4".into()));
    assert_eq!(db.get("e"), Some("5".into()));
    assert_eq!(db.get("f"), Some("6".into()));
}

#[test]
fn test_recovery_after_compaction() {
    let path = Disk::new();
    {
        let db = Db::open_with_options(&path, options(2, 2, usize::MAX)).unwrap();
        for i in 0..4 {
            db.set(format!("k{}", i), format!("v{}", i)).unwrap();
        }
        assert_eq!(levels_of(&db), vec![(1, 1)]);
    }

    let db = Db::open_with_options(&path, options(2, 2, usize::MAX)).unwrap();
    assert_eq!(levels_of(&db), vec![(1, 1)]);
    for i in 0..4 {
        assert_eq!(db.get(&format!("k{}", i)), Some(format!("v{}", i)));
    }

    db.set("z".into(), "1".into()).unwrap();
    db.set("y".into(), "2".into()).unwrap();
    assert_eq!(db.get("z"), Some("1".into()));
    assert_eq!(levels_of(&db), vec![(0, 1), (1, 1)]);
}

#[test]
fn test_legacy_sstables_are_read_as_level_zero() {
    let path = Disk::new();
    {
        let db = Db::open_with_options(&path, no_compaction(2)).unwrap();
        db.set("a".into(), "1".into()).unwrap();
        db.set("b".into(), "2".into()).unwrap();
        assert_eq!(file_names(&path), vec!["sstable_L0_000000.sst"]);
    }

    path.rename("sstable_L0_000000.sst", "sstable_000000.sst");

    {
        let db = Db::open_with_options(&path, no_compaction(2)).unwrap();
        assert_eq!(levels_of(&db), vec![(0, 1)]);
        assert_eq!(db.get("a"), Some("1".into()));
        assert_eq!(db.scan(), owned(&[("a", "1"), ("b", "2")]));
    }

    let db = Db::open_with_options(&path, options(2, 1, usize::MAX)).unwrap();
    db.compact().unwrap();
    assert_eq!(levels_of(&db), vec![(1, 1)]);
    assert_eq!(db.scan(), owned(&[("a", "1"), ("b", "2")]));
}

#[test]
fn test_crash_during_compaction_temp_file_cleanup() {
    let path = Disk::new();
    {
        let db = Db::open_with_options(&path, no_compaction(2)).unwrap();
        db.set("a".into(), "1".into()).unwrap();
        db.set("b".into(), "2".into()).unwrap();
    }

    let temp_file = "sstable_L1_000005.sst.tmp";
    path.put(temp_file, b"garbage");

    let db = Db::open_with_options(&path, no_compaction(2)).unwrap();
    assert!(!path.has(temp_file));
    assert_eq!(levels_of(&db), vec![(0, 1)]);
    assert_eq!(db.get("a"), Some("1".into()));
}

#[test]
fn test_range_and_updates_across_levels() {
    let path = Disk::new();
    seed_deep_level(&path);

    let db = Db::open_with_options(&path, options(3, 2, usize::MAX)).unwrap();
    db.delete("b").unwrap();
    db.set("e".into(), "5".into()).unwrap();
    db.set("f".into(), "6".into()).unwrap();
    db.set("g".into(), "7".into()).unwrap();
    db.set("c".into(), "updated".into()).unwrap();
    db.set("h".into(), "8".into()).unwrap();
    db.set("i".into(), "9".into()).unwrap();

    assert_eq!(db.stats().memtable_entries, 1);
    assert_eq!(db.stats().levels.len(), 2);
    assert!(db.stats().levels.iter().any(|level| level.level == 1));
    assert!(db.stats().levels.iter().any(|level| level.level >= 2));

    assert_eq!(db.get("a"), Some("1".into()));
    assert_eq!(db.get("b"), None);
    assert_eq!(db.get("c"), Some("updated".into()));
    assert_eq!(
        db.scan(),
        owned(&[
            ("a", "1"),
            ("c", "updated"),
            ("d", "4"),
            ("e", "5"),
            ("f", "6"),
            ("g", "7"),
            ("h", "8"),
            ("i", "9"),
        ])
    );
    assert_eq!(
        range(&db, Some("c"), Some("g")),
        owned(&[("c", "updated"), ("d", "4"), ("e", "5"), ("f", "6")])
    );
    assert_eq!(
        db.range(Bound::Unbounded, excluded("b")).collect(),
        owned(&[("a", "1")])
    );
}

#[test]
fn test_full_compaction_merges_every_file() {
    let path = Disk::new();
    let db = Db::open_with_options(&path, no_compaction(2)).unwrap();
    db.set("a".into(), "1".into()).unwrap();
    db.set("b".into(), "2".into()).unwrap();
    db.set("c".into(), "3".into()).unwrap();
    db.set("d".into(), "4".into()).unwrap();
    db.delete("b").unwrap();
    db.set("e".into(), "5".into()).unwrap();

    assert_eq!(levels_of(&db), vec![(0, 3)]);
    assert_eq!(tombstone_keys(&db), vec!["b".to_string()]);

    db.compact_full().unwrap();

    assert_eq!(levels_of(&db), vec![(1, 1)]);
    assert_eq!(file_names(&path), vec!["sstable_L1_000003.sst"]);
    assert_eq!(tombstone_keys(&db), Vec::<String>::new());
    assert_eq!(
        db.scan(),
        owned(&[("a", "1"), ("c", "3"), ("d", "4"), ("e", "5")])
    );
    let stats = db.stats();
    assert_eq!(stats.full_compactions, 1);
    assert_eq!(stats.compactions_completed, 1);
    assert_eq!(stats.compaction_input_files, 3);
    assert_eq!(stats.compaction_output_files, 1);
}
