use pebbledb::db::PebbleDB;
use pebbledb::disk::{Directory, DiskOp};
use pebbledb::error::{PebbleError, Result};
use std::cell::RefCell;
use std::rc::Rc;

/// A directory that one database after another is opened in.
#[derive(Clone)]
struct Disk(Rc<RefCell<Directory>>);

impl Disk {
    fn new() -> Self {
        Disk(Rc::new(RefCell::new(Directory::new())))
    }

    fn read(&self, name: &str) -> Vec<u8> {
        self.0.borrow().read(name).unwrap().clone()
    }

    fn put(&self, name: &str, data: &[u8]) {
        self.0.borrow_mut().put(name.to_string(), data.to_vec());
    }
}

/// A database whose file operations are carried out after each call.
struct Db {
    disk: Disk,
    db: RefCell<PebbleDB>,
}

impl Db {
    fn open(disk: &Disk) -> Result<Db> {
        let opened = PebbleDB::open(&mut disk.0.borrow_mut());
        disk.0.borrow_mut().take_ops();
        opened.map(|db| Db { disk: disk.clone(), db: RefCell::new(db) })
    }

    fn set(&self, key: String, value: String) -> Result<()> {
        let result = self.db.borrow_mut().set(key, value);
        for op in self.db.borrow_mut().take_ops() {
            self.disk.0.borrow_mut().apply(&op);
        }
        result
    }

    fn get(&self, key: &str) -> Option<String> {
        self.db.borrow_mut().get(key)
    }

    fn scan(&self) -> Vec<(String, String)> {
        self.db.borrow().scan()
    }
}

fn seed_database(path: &Disk) -> Vec<(String, String)> {
    let db = Db::open(path).unwrap();
    let entries = vec![
        ("alpha".to_string(), "1".to_string()),
        ("beta".to_string(), "2".to_string()),
        ("gamma".to_string(), "3".to_string()),
    ];
    for (key, value) in &entries {
        db.set(key.clone(), value.clone()).unwrap();
    }
    entries
}

fn append_to_wal(path: &Disk, bytes: &[u8]) {
    path.0.borrow_mut().apply(&DiskOp::Append { name: "wal.log".to_string(), data: bytes.to_vec() });
}

fn assert_entries_present(path: &Disk, entries: &[(String, String)]) {
    let db = Db::open(path).unwrap();
    for (key, value) in entries {
        assert_eq!(db.get(key), Some(value.clone()));
    }
}

#[test]
fn torn_final_record_is_discarded() {
    let path = Disk::new();
    let entries = seed_database(&path);

    let complete_len = path.read("wal.log").len();
    append_to_wal(&path, &[40, 0, 0, 0, 1, 2, 3]);

    assert_entries_present(&path, &entries);
    assert_eq!(path.read("wal.log").len(), complete_len);
}

#[test]
fn partially_written_record_payload_is_discarded() {
    let path = Disk::new();
    let entries = seed_database(&path);

    let complete_len = path.read("wal.log").len();
    append_to_wal(&path, &[100, 0, 0, 0, 1, b'x']);

    assert_entries_present(&path, &entries);
    assert_eq!(path.read("wal.log").len(), complete_len);
}

#[test]
fn garbage_tail_shorter_than_a_record_is_discarded() {
    let path = Disk::new();
    let entries = seed_database(&path);

    let complete_len = path.read("wal.log").len();
    append_to_wal(&path, &[0u8; 10]);

    assert_entries_present(&path, &entries);
    assert_eq!(path.read("wal.log").len(), complete_len);
}

#[test]
fn torn_tail_recovery_is_repeatable_and_accepts_new_writes() {
    let path = Disk::new();
    let entries = seed_database(&path);
    append_to_wal(&path, &[64, 0, 0, 0, 1, 2]);

    assert_entries_present(&path, &entries);
    assert_entries_present(&path, &entries);

    let db = Db::open(&path).unwrap();
    db.set("delta".into(), "4".into()).unwrap();
    drop(db);

    assert_entries_present(&path, &entries);
    let db = Db::open(&path).unwrap();
    assert_eq!(db.get("delta"), Some("4".into()));
}

#[test]
fn corrupted_earlier_record_prevents_recovery() {
    let path = Disk::new();
    seed_database(&path);

    let mut data = path.read("wal.log");
    data[6] ^= 0xFF;
    path.put("wal.log", &data);

    let result = Db::open(&path);
    assert!(matches!(result, Err(PebbleError::WalCorruption(_))));
}

#[test]
fn garbage_tail_with_intact_length_but_bad_checksum_prevents_recovery() {
    let path = Disk::new();
    seed_database(&path);

    append_to_wal(
        &path,
        &[
            18, 0, 0, 0, 1, 4, 0, 0, 0, 5, 0, 0, 0, b'g', b'a', b'r', b'b', b'v', b'a', b'l', b'u',
            b'e', 0, 0, 0, 0,
        ],
    );

    let result = Db::open(&path);
    assert!(matches!(result, Err(PebbleError::WalCorruption(_))));
}

#[test]
fn empty_wal_is_recovered_as_an_empty_database() {
    let path = Disk::new();
    path.put("wal.log", b"");

    let db = Db::open(&path).unwrap();
    assert_eq!(db.scan(), Vec::new());
}

#[test]
fn torn_wal_tail_does_not_block_later_writes() {
    let path = Disk::new();

    let db = Db::open(&path).unwrap();
    db.set("survivor".into(), "value".into()).unwrap();
    drop(db);

    append_to_wal(&path, &[48, 0, 0, 0, 2, 5, 0, 0, 0]);

    let db = Db::open(&path).unwrap();
    assert_eq!(db.get("survivor"), Some("value".into()));
    db.set("next".into(), "value".into()).unwrap();
    drop(db);

    let db = Db::open(&path).unwrap();
    assert_eq!(db.get("survivor"), Some("value".into()));
    assert_eq!(db.get("next"), Some("value".into()));
}
