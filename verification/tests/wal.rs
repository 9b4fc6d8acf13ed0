use pebbledb::disk::{Directory, DiskOp};
use pebbledb::error::{PebbleError, Result};
use pebbledb::wal::{WalReader, WalRecord, WalWriter};
use std::cell::RefCell;

/// A directory that holds one log.
struct Log(RefCell<Directory>);

impl Log {
    fn new() -> Self {
        Log(RefCell::new(Directory::new()))
    }

    fn bytes(&self) -> Vec<u8> {
        self.0.borrow().read("wal.log").unwrap().clone()
    }

    fn len(&self) -> u64 {
        self.bytes().len() as u64
    }

    fn put(&self, data: &[u8]) {
        self.0.borrow_mut().put("wal.log".to_string(), data.to_vec());
    }

    fn append(&self, data: &[u8]) {
        self.0.borrow_mut().apply(&DiskOp::Append { name: "wal.log".to_string(), data: data.to_vec() });
    }

    fn reader(&self) -> WalReader {
        WalReader::open(self.bytes())
    }
}

/// A log writer whose file operations are carried out after each call.
struct Writer<'a> {
    log: &'a Log,
    writer: WalWriter,
}

impl<'a> Writer<'a> {
    fn open(log: &'a Log) -> Self {
        Writer { log, writer: WalWriter::open("wal.log".to_string(), 0) }
    }

    fn write_record(&mut self, record: &WalRecord) -> Result<()> {
        let mut journal = Vec::new();
        self.writer.write_record(record, &mut journal);
        self.settle(journal)
    }

    fn close(self) -> Result<()> {
        let mut journal = Vec::new();
        self.writer.close(&mut journal);
        for op in journal {
            self.log.0.borrow_mut().apply(&op);
        }
        Ok(())
    }

    fn settle(&self, journal: Vec<DiskOp>) -> Result<()> {
        for op in journal {
            self.log.0.borrow_mut().apply(&op);
        }
        Ok(())
    }
}

#[test]
fn test_wal_write_read() {
    let path = Log::new();

    let mut writer = Writer::open(&path);
    writer
        .write_record(&WalRecord::Put {
            key: "key1".into(),
            value: "value1".into(),
        })
        .unwrap();
    writer
        .write_record(&WalRecord::Put {
            key: "key2".into(),
            value: "value2".into(),
        })
        .unwrap();
    writer
        .write_record(&WalRecord::Delete { key: "key1".into() })
        .unwrap();
    writer.close().unwrap();

    let reader = path.reader();
    let records = reader.read_all().unwrap();

    assert_eq!(records.len(), 3);
    assert_eq!(
        records[0],
        WalRecord::Put {
            key: "key1".into(),
            value: "value1".into()
        }
    );
    assert_eq!(
        records[1],
        WalRecord::Put {
            key: "key2".into(),
            value: "value2".into()
        }
    );
    assert_eq!(records[2], WalRecord::Delete { key: "key1".into() });
}

#[test]
fn test_wal_incomplete_trailing_record() {
    let path = Log::new();

    let mut writer = Writer::open(&path);
    writer
        .write_record(&WalRecord::Put {
            key: "key1".into(),
            value: "value1".into(),
        })
        .unwrap();
    writer.close().unwrap();

    path.append(&[0u8; 10]);

    let reader = path.reader();
    let records = reader.read_all().unwrap();
    assert_eq!(records.len(), 1);
    assert_eq!(
        records[0],
        WalRecord::Put {
            key: "key1".into(),
            value: "value1".into()
        }
    );
}

#[test]
fn test_wal_truncated_payload() {
    let path = Log::new();

    let mut writer = Writer::open(&path);
    writer
        .write_record(&WalRecord::Put {
            key: "key1".into(),
            value: "value1".into(),
        })
        .unwrap();
    writer.close().unwrap();

    path.append(&[100, 0, 0, 0, 1]);

    let reader = path.reader();
    let result = reader.read_all();
    assert!(matches!(result, Err(PebbleError::WalIncomplete)));
}

#[test]
fn test_wal_checksum_corruption() {
    let path = Log::new();

    let mut writer = Writer::open(&path);
    writer
        .write_record(&WalRecord::Put {
            key: "key1".into(),
            value: "value1".into(),
        })
        .unwrap();
    writer.close().unwrap();

    let mut data = path.bytes();
    data[5] ^= 0xFF;
    path.put(&data);

    let reader = path.reader();
    let result = reader.read_all();
    assert!(matches!(result, Err(PebbleError::WalCorruption(_))));
}

#[test]
fn test_empty_wal() {
    let path = Log::new();
    path.put(b"");

    let reader = path.reader();
    let records = reader.read_all().unwrap();
    assert_eq!(records.len(), 0);
}

#[test]
fn test_recover_discards_torn_final_record() {
    let path = Log::new();

    let mut writer = Writer::open(&path);
    writer
        .write_record(&WalRecord::Put {
            key: "key1".into(),
            value: "value1".into(),
        })
        .unwrap();
    writer.close().unwrap();

    let complete_len = path.len();
    path.append(&[40, 0, 0, 0, 1, 2, 3]);

    let reader = path.reader();
    let recovery = reader.recover().unwrap();
    assert_eq!(recovery.records.len(), 1);
    assert_eq!(recovery.valid_len, complete_len);

    assert!(matches!(
        path.reader().read_all(),
        Err(PebbleError::WalIncomplete)
    ));
}

#[test]
fn test_recover_discards_partial_record_payload() {
    let path = Log::new();

    let mut writer = Writer::open(&path);
    writer
        .write_record(&WalRecord::Delete { key: "gone".into() })
        .unwrap();
    writer.close().unwrap();

    let complete_len = path.len();
    path.append(&[100, 0, 0, 0, 1]);

    let recovery = path.reader().recover().unwrap();
    assert_eq!(
        recovery.records,
        vec![WalRecord::Delete { key: "gone".into() }]
    );
    assert_eq!(recovery.valid_len, complete_len);
}

#[test]
fn test_recover_rejects_checksum_corruption() {
    let path = Log::new();

    let mut writer = Writer::open(&path);
    writer
        .write_record(&WalRecord::Put {
            key: "key1".into(),
            value: "value1".into(),
        })
        .unwrap();
    writer
        .write_record(&WalRecord::Put {
            key: "key2".into(),
            value: "value2".into(),
        })
        .unwrap();
    writer.close().unwrap();

    let mut data = path.bytes();
    data[5] ^= 0xFF;
    path.put(&data);

    let result = path.reader().recover();
    assert!(matches!(result, Err(PebbleError::WalCorruption(_))));
}

#[test]
fn test_recover_rejects_corrupt_tail_with_valid_checksum_length() {
    let path = Log::new();

    let mut writer = Writer::open(&path);
    writer
        .write_record(&WalRecord::Put {
            key: "key1".into(),
            value: "value1".into(),
        })
        .unwrap();
    writer.close().unwrap();

    path.append(&[
        18, 0, 0, 0, 1, 4, 0, 0, 0, 5, 0, 0, 0, b'g', b'a', b'r', b'b', b'v', b'a', b'l', b'u',
        b'e', 0, 0, 0, 0,
    ]);

    let result = path.reader().recover();
    assert!(matches!(result, Err(PebbleError::WalCorruption(_))));
}

#[test]
fn test_recover_stops_at_garbage_tail_shorter_than_a_record() {
    let path = Log::new();

    let mut writer = Writer::open(&path);
    writer
        .write_record(&WalRecord::Put {
            key: "key1".into(),
            value: "value1".into(),
        })
        .unwrap();
    writer.close().unwrap();

    let complete_len = path.len();
    path.append(&[0u8; 10]);

    let recovery = path.reader().recover().unwrap();
    assert_eq!(recovery.records.len(), 1);
    assert_eq!(recovery.valid_len, complete_len);
}
