//! The write-ahead log: length-prefixed records, each followed by its checksum.
use crate::bytes::{
    copy_range, law_u32_roundtrip, lemma_u32_at_same, lemma_u32_byte_change, lemma_u32_le_len, push_u32, read_u32,
    u32_at, u32_le,
};
use crate::checksum::{crc32, crc32_of, law_single_byte_change_is_detected};
use crate::compaction::at_most;
use crate::disk::{ops_of, DiskOp, FileOp};
use crate::error::{PebbleError, Result};
use crate::records::{
    key_bytes, lemma_record_layout, push_record, record_bytes, record_len, value_bytes, OP_DELETE, OP_SET,
};
use crate::rows::Row;
use crate::text::{byte_len, decimal, decimal_string, string_from_utf8};
use vstd::prelude::*;
use vstd::utf8::{decode_utf8, encode_utf8_decode_utf8, encode_utf8_valid_utf8, valid_utf8};

verus! {

/// The bytes around a payload: the length before it and the checksum behind it.
pub const LOG_ENTRY_OVERHEAD: u64 = 8;

#[derive(Debug, Clone, PartialEq)]
pub enum WalRecord {
    Put { key: String, value: String },
    Delete { key: String },
}

/// What the log stores for a row: the payload's length, the payload, and the checksum of both.
#[verifier::opaque]
pub open spec fn log_entry(row: Row) -> Seq<u8> {
    let framed = u32_le(record_len(row) as u32) + record_bytes(row);
    framed + u32_le(crc32_of(framed))
}

/// The log that holds `rows`, oldest first.
pub open spec fn log_bytes(rows: Seq<Row>) -> Seq<u8>
    decreases rows.len(),
{
    if rows.len() == 0 {
        Seq::empty()
    } else {
        log_bytes(rows.drop_last()) + log_entry(rows.last())
    }
}

/// The row that a payload holds, or what is wrong with it.
#[verifier::opaque]
pub open spec fn decode_payload(data: Seq<u8>) -> std::result::Result<Row, Seq<char>> {
    if data.len() < 9 {
        Err("record too short"@)
    } else {
        let op = data[0];
        let key_end = 9 + u32_at(data, 1);
        let value_len = u32_at(data, 5);
        if data.len() < key_end + value_len {
            Err("record truncated"@)
        } else {
            let key = data.subrange(9, key_end);
            let value = data.subrange(key_end, key_end + value_len);
            if !valid_utf8(key) {
                Err("invalid UTF-8 in key"@)
            } else if op == OP_SET {
                if valid_utf8(value) {
                    Ok((decode_utf8(key), Some(decode_utf8(value))))
                } else {
                    Err("invalid UTF-8 in value"@)
                }
            } else if op == OP_DELETE {
                if value_len == 0 {
                    Ok((decode_utf8(key), None))
                } else {
                    Err("DELETE record has non-zero value length"@)
                }
            } else {
                Err("unknown operation: "@ + decimal(op as nat))
            }
        }
    }
}

/// How a log ends.
pub enum LogEnd {
    /// Right behind a record.
    Clean,
    /// With a length that no record has.
    Garbage,
    /// In the middle of a record.
    Torn,
    /// With a complete record that is damaged in the way told.
    Corrupt(Seq<char>),
}

/// The complete records of a log, the bytes they take, and what follows them.
pub struct LogScan {
    pub rows: Seq<Row>,
    pub valid_len: int,
    pub end: LogEnd,
}

pub open spec fn scan_log(data: Seq<u8>) -> LogScan
    decreases data.len(),
{
    let total = u32_at(data, 0);
    if data.len() == 0 {
        LogScan { rows: Seq::empty(), valid_len: 0, end: LogEnd::Clean }
    } else if data.len() < 4 {
        LogScan { rows: Seq::empty(), valid_len: 0, end: LogEnd::Torn }
    } else if total < 9 {
        LogScan { rows: Seq::empty(), valid_len: 0, end: LogEnd::Garbage }
    } else if data.len() < 8 + total {
        LogScan { rows: Seq::empty(), valid_len: 0, end: LogEnd::Torn }
    } else if crc32_of(data.take(4 + total)) != u32_at(data, 4 + total) {
        LogScan { rows: Seq::empty(), valid_len: 0, end: LogEnd::Corrupt("checksum mismatch"@) }
    } else {
        match decode_payload(data.subrange(4, 4 + total)) {
            Err(problem) => LogScan { rows: Seq::empty(), valid_len: 0, end: LogEnd::Corrupt(problem) },
            Ok(row) => after_records(seq![row], 8 + total, scan_log(data.skip(8 + total))),
        }
    }
}

/// A scan that finds `rows` in the first `len` bytes, and goes on as `rest`.
pub open spec fn after_records(rows: Seq<Row>, len: int, rest: LogScan) -> LogScan {
    LogScan { rows: rows + rest.rows, valid_len: len + rest.valid_len, end: rest.end }
}

impl WalRecord {
    pub open spec fn row(&self) -> Row {
        match self {
            WalRecord::Put { key, value } => (key@, Some(value@)),
            WalRecord::Delete { key } => (key@, None),
        }
    }

    /// The record as the log stores it.
    pub fn encode(&self) -> (encoded: Vec<u8>)
        requires
            record_len(self.row()) <= u32::MAX,
        ensures
            encoded@ == log_entry(self.row()),
    {
        proof {
            reveal(log_entry);
        }
        let mut buf: Vec<u8> = Vec::new();
        match self {
            WalRecord::Put { key, value } => {
                let total_len: u32 = 9 + byte_len(key.as_str()) as u32 + byte_len(value.as_str()) as u32;
                push_u32(&mut buf, total_len);
                push_record(&mut buf, key.as_str(), Some(value.as_str()));
            },
            WalRecord::Delete { key } => {
                let total_len: u32 = 9 + byte_len(key.as_str()) as u32;
                push_u32(&mut buf, total_len);
                push_record(&mut buf, key.as_str(), None);
            },
        }
        let ghost framed = buf@;
        proof {
            assert(framed =~= u32_le(record_len(self.row()) as u32) + record_bytes(self.row()));
        }
        let checksum: u32 = crc32(buf.as_slice());
        push_u32(&mut buf, checksum);
        buf
    }

    /// The record that a payload holds.
    pub fn decode(data: &[u8]) -> (result: Result<Self>)
        ensures
            match decode_payload(data@) {
                Ok(row) => result matches Ok(record) && record.row() == row,
                Err(problem) => result matches Err(PebbleError::WalCorruption(text)) && text@ == problem,
            },
    {
        proof {
            reveal(decode_payload);
        }
        if data.len() < 9 {
            return Err(PebbleError::WalCorruption("record too short".to_owned()));
        }
        let op: u8 = data[0];
        let key_len: u32 = read_u32(data, 1);
        let value_len: u32 = read_u32(data, 5);
        if (data.len() as u64) < 9 + key_len as u64 + value_len as u64 {
            return Err(PebbleError::WalCorruption("record truncated".to_owned()));
        }
        let key_end: usize = 9 + key_len as usize;
        let key = match string_from_utf8(copy_range(data, 9, key_end)) {
            Some(key) => key,
            None => {
                return Err(PebbleError::WalCorruption("invalid UTF-8 in key".to_owned()));
            },
        };
        if op == OP_SET {
            match string_from_utf8(copy_range(data, key_end, key_end + value_len as usize)) {
                Some(value) => Ok(WalRecord::Put { key, value }),
                None => Err(PebbleError::WalCorruption("invalid UTF-8 in value".to_owned())),
            }
        } else if op == OP_DELETE {
            if value_len != 0 {
                return Err(PebbleError::WalCorruption("DELETE record has non-zero value length".to_owned()));
            }
            Ok(WalRecord::Delete { key })
        } else {
            Err(PebbleError::WalCorruption("unknown operation: ".to_owned().concat(decimal_string(op as u64).as_str())))
        }
    }
}

/// The rows of decoded records.
pub open spec fn record_rows(records: Seq<WalRecord>) -> Seq<Row> {
    Seq::new(records.len(), |i: int| records[i].row())
}

/// The complete records of a log and the bytes that they take.
pub struct WalRecovery {
    pub records: Vec<WalRecord>,
    pub valid_len: u64,
}

/// Reads the bytes of a log.
pub struct WalReader {
    data: Vec<u8>,
}

impl WalReader {
    pub closed spec fn data(&self) -> Seq<u8> {
        self.data@
    }

    /// A reader of a log whose bytes are `data`.
    pub fn open(data: Vec<u8>) -> (reader: Self)
        ensures
            reader.data() == data@,
    {
        WalReader { data }
    }

    /// All records. A log that ends inside a record is refused.
    pub fn read_all(self) -> (result: Result<Vec<WalRecord>>)
        ensures
            match scan_log(self.data()).end {
                LogEnd::Corrupt(problem) => result matches Err(PebbleError::WalCorruption(text)) && text@ == problem,
                LogEnd::Torn => result matches Err(PebbleError::WalIncomplete),
                _ => result matches Ok(records) && record_rows(records@) == scan_log(self.data()).rows,
            },
    {
        match self.read_records(false) {
            Ok(recovery) => Ok(recovery.records),
            Err(error) => Err(error),
        }
    }

    /// The records before the torn or meaningless bytes at the end, if there are any.
    pub fn recover(self) -> (result: Result<WalRecovery>)
        ensures
            match scan_log(self.data()).end {
                LogEnd::Corrupt(problem) => result matches Err(PebbleError::WalCorruption(text)) && text@ == problem,
                _ => result matches Ok(recovery) && record_rows(recovery.records@) == scan_log(self.data()).rows
                    && recovery.valid_len == scan_log(self.data()).valid_len,
            },
    {
        self.read_records(true)
    }

    fn read_records(self, tolerate_torn_tail: bool) -> (result: Result<WalRecovery>)
        ensures
            match scan_log(self.data()).end {
                LogEnd::Corrupt(problem) => result matches Err(PebbleError::WalCorruption(text)) && text@ == problem,
                LogEnd::Torn if !tolerate_torn_tail => result matches Err(PebbleError::WalIncomplete),
                _ => result matches Ok(recovery) && record_rows(recovery.records@) == scan_log(self.data()).rows
                    && recovery.valid_len == scan_log(self.data()).valid_len,
            },
    {
        let data = self.data;
        let mut records: Vec<WalRecord> = Vec::new();
        let mut at: usize = 0;
        proof {
            assert(data@.skip(0) =~= data@);
            assert(record_rows(records@) =~= Seq::<Row>::empty());
            assert(Seq::<Row>::empty() + scan_log(data@).rows =~= scan_log(data@).rows);
        }
        while at < data.len()
            invariant
                at <= data@.len(),
                scan_log(data@) == after_records(record_rows(records@), at as int, scan_log(data@.skip(at as int))),
                self.data() == data@,
            decreases data@.len() - at,
        {
            let ghost rest = data@.skip(at as int);
            let left: usize = data.len() - at;
            if left < 4 {
                return stop_at_tail(records, at, tolerate_torn_tail);
            }
            let total_len: u32 = read_u32(data.as_slice(), at);
            proof {
                lemma_u32_at_same(rest, 0, data@, at as int);
            }
            if total_len < 9 {
                return Ok(WalRecovery { records, valid_len: at as u64 });
            }
            if (left as u64) < LOG_ENTRY_OVERHEAD + total_len as u64 {
                return stop_at_tail(records, at, tolerate_torn_tail);
            }
            let payload_end: usize = at + 4 + total_len as usize;
            let framed = vstd::slice::slice_subrange(data.as_slice(), at, payload_end);
            let stored: u32 = read_u32(data.as_slice(), payload_end);
            proof {
                assert(framed@ =~= rest.take(4 + total_len));
                lemma_u32_at_same(rest, 4 + total_len, data@, payload_end as int);
            }
            if crc32(framed) != stored {
                return Err(PebbleError::WalCorruption("checksum mismatch".to_owned()));
            }
            let payload = vstd::slice::slice_subrange(data.as_slice(), at + 4, payload_end);
            proof {
                assert(payload@ =~= rest.subrange(4, 4 + total_len));
            }
            let record = WalRecord::decode(payload)?;
            proof {
                let n = 8 + total_len;
                assert(rest.skip(n) =~= data@.skip(at + n));
                let tail = scan_log(rest.skip(n));
                assert(record_rows(records@.push(record)) =~= record_rows(records@).push(record.row()));
                assert(record_rows(records@) + (seq![record.row()] + tail.rows) =~= record_rows(records@).push(
                    record.row(),
                ) + tail.rows);
            }
            records.push(record);
            at = payload_end + 4;
        }
        proof {
            assert(data@.skip(at as int) =~= Seq::<u8>::empty());
            assert(record_rows(records@) + Seq::<Row>::empty() =~= record_rows(records@));
        }
        Ok(WalRecovery { records, valid_len: at as u64 })
    }
}

/// Appends to the log. What is to be done to its file goes to a journal.
pub struct WalWriter {
    path: String,
    size: u64,
}

impl WalWriter {
    pub closed spec fn name(&self) -> Seq<char> {
        self.path@
    }

    /// The bytes in the file.
    pub closed spec fn bytes(&self) -> u64 {
        self.size
    }

    /// A writer for the log `path`, which holds `size` bytes.
    pub fn open(path: String, size: u64) -> (writer: Self)
        ensures
            writer.name() == path@,
            writer.bytes() == size,
    {
        WalWriter { path, size }
    }

    pub fn size(&self) -> (size: u64)
        ensures
            size == self.bytes(),
    {
        self.size
    }

    /// Adds a record at the end.
    pub fn append_record(&mut self, record: &WalRecord, journal: &mut Vec<DiskOp>)
        requires
            record_len(record.row()) <= u32::MAX,
        ensures
            final(self).name() == old(self).name(),
            final(self).bytes() == at_most(old(self).bytes() + log_entry(record.row()).len(), u64::MAX as int),
            ops_of(final(journal)@) == ops_of(old(journal)@).push(
                FileOp::Append { name: old(self).name(), data: log_entry(record.row()) },
            ),
    {
        let encoded = record.encode();
        self.size = self.size.saturating_add(encoded.len() as u64);
        journal.push(DiskOp::Append { name: self.path.clone(), data: encoded });
        proof {
            assert(ops_of(journal@) =~= ops_of(old(journal)@).push(
                FileOp::Append { name: old(self).name(), data: log_entry(record.row()) },
            ));
        }
    }

    /// Forces the log to the device.
    pub fn sync(&self, journal: &mut Vec<DiskOp>)
        ensures
            ops_of(final(journal)@) == ops_of(old(journal)@).push(FileOp::Sync { name: self.name() }),
    {
        journal.push(DiskOp::Sync { name: self.path.clone() });
        proof {
            assert(ops_of(journal@) =~= ops_of(old(journal)@).push(FileOp::Sync { name: self.name() }));
        }
    }

    /// Adds a record at the end and forces it to the device.
    pub fn write_record(&mut self, record: &WalRecord, journal: &mut Vec<DiskOp>)
        requires
            record_len(record.row()) <= u32::MAX,
        ensures
            final(self).name() == old(self).name(),
            final(self).bytes() == at_most(old(self).bytes() + log_entry(record.row()).len(), u64::MAX as int),
            ops_of(final(journal)@) == ops_of(old(journal)@).push(
                FileOp::Append { name: old(self).name(), data: log_entry(record.row()) },
            ).push(FileOp::Sync { name: old(self).name() }),
    {
        self.append_record(record, journal);
        self.sync(journal);
    }

    /// Empties the log and forces that to the device.
    pub fn truncate(&mut self, journal: &mut Vec<DiskOp>)
        ensures
            final(self).name() == old(self).name(),
            final(self).bytes() == 0,
            ops_of(final(journal)@) == ops_of(old(journal)@).push(
                FileOp::Truncate { name: old(self).name(), len: 0 },
            ).push(FileOp::Sync { name: old(self).name() }),
    {
        self.size = 0;
        journal.push(DiskOp::Truncate { name: self.path.clone(), len: 0 });
        proof {
            assert(ops_of(journal@) =~= ops_of(old(journal)@).push(FileOp::Truncate { name: self.name(), len: 0 }));
        }
        self.sync(journal);
    }

    /// Forces the log to the device for the last time.
    pub fn close(self, journal: &mut Vec<DiskOp>)
        ensures
            ops_of(final(journal)@) == ops_of(old(journal)@).push(FileOp::Sync { name: self.name() }),
    {
        self.sync(journal);
    }
}

fn stop_at_tail(records: Vec<WalRecord>, valid_len: usize, tolerate_torn_tail: bool) -> (result: Result<WalRecovery>)
    ensures
        tolerate_torn_tail ==> (result matches Ok(recovery) && recovery.records == records && recovery.valid_len
            == valid_len),
        !tolerate_torn_tail ==> result matches Err(PebbleError::WalIncomplete),
{
    if tolerate_torn_tail {
        Ok(WalRecovery { records, valid_len: valid_len as u64 })
    } else {
        Err(PebbleError::WalIncomplete)
    }
}

pub proof fn lemma_log_entry_layout(row: Row)
    requires
        record_len(row) <= u32::MAX,
    ensures
        ({
            let entry = log_entry(row);
            let total = record_len(row);
            &&& entry.len() == 8 + total
            &&& u32_at(entry, 0) == total
            &&& entry.subrange(4, 4 + total) == record_bytes(row)
            &&& u32_at(entry, 4 + total) == crc32_of(entry.take(4 + total))
        }),
{
    reveal(log_entry);
    lemma_record_layout(row);
    lemma_frame(record_len(row) as u32, record_bytes(row), log_entry(row));
}

proof fn lemma_frame(total: u32, payload: Seq<u8>, entry: Seq<u8>)
    requires
        payload.len() == total,
        entry == u32_le(total) + payload + u32_le(crc32_of(u32_le(total) + payload)),
    ensures
        entry.len() == 8 + total,
        u32_at(entry, 0) == total,
        entry.subrange(4, 4 + total) == payload,
        u32_at(entry, 4 + total) == crc32_of(entry.take(4 + total)),
{
    broadcast use lemma_u32_le_len;

    let framed = u32_le(total) + payload;
    let crc = crc32_of(framed);
    assert(entry.subrange(0, 4) =~= u32_le(total));
    law_u32_roundtrip(total, entry, 0);
    assert(entry.subrange(4, 4 + total) =~= payload);
    assert(entry.take(4 + total) =~= framed);
    assert(entry.subrange(4 + total, 8 + total) =~= u32_le(crc));
    law_u32_roundtrip(crc, entry, 4 + total);
}

/// Decoding what was encoded gives the row back.
pub proof fn law_payload_roundtrip(row: Row)
    requires
        record_len(row) <= u32::MAX,
    ensures
        decode_payload(record_bytes(row)) == Ok::<Row, Seq<char>>(row),
{
    reveal(decode_payload);
    lemma_record_layout(row);
    let data = record_bytes(row);
    law_u32_roundtrip(key_bytes(row).len() as u32, data, 1);
    law_u32_roundtrip(value_bytes(row).len() as u32, data, 5);
    encode_utf8_valid_utf8(row.0);
    encode_utf8_decode_utf8(row.0);
    if let Some(value) = row.1 {
        encode_utf8_valid_utf8(value);
        encode_utf8_decode_utf8(value);
    }
}

/// Behind a log that ends cleanly, scanning goes on with what follows it.
pub proof fn law_log_concat(data: Seq<u8>, more: Seq<u8>)
    requires
        scan_log(data).end is Clean,
    ensures
        scan_log(data).valid_len == data.len(),
        scan_log(data + more) == after_records(scan_log(data).rows, data.len() as int, scan_log(more)),
    decreases data.len(),
{
    let all = data + more;
    if data.len() == 0 {
        assert(all =~= more);
        assert(Seq::<Row>::empty() + scan_log(more).rows =~= scan_log(more).rows);
    } else {
        let total = u32_at(data, 0);
        let n = 8 + total;
        lemma_u32_at_same(all, 0, data, 0);
        assert(all.take(4 + total) =~= data.take(4 + total));
        lemma_u32_at_same(all, 4 + total, data, 4 + total);
        assert(all.subrange(4, 4 + total) =~= data.subrange(4, 4 + total));
        assert(all.skip(n) =~= data.skip(n) + more);
        law_log_concat(data.skip(n), more);
        let row = decode_payload(data.subrange(4, 4 + total))->Ok_0;
        let rest = scan_log(data.skip(n)).rows;
        assert(seq![row] + (rest + scan_log(more).rows) =~= (seq![row] + rest) + scan_log(more).rows);
    }
}

/// A log that is one complete record.
proof fn lemma_scan_single(data: Seq<u8>, row: Row)
    requires
        data.len() >= 8,
        u32_at(data, 0) >= 9,
        data.len() == 8 + u32_at(data, 0),
        crc32_of(data.take(4 + u32_at(data, 0))) == u32_at(data, 4 + u32_at(data, 0)),
        decode_payload(data.subrange(4, 4 + u32_at(data, 0))) == Ok::<Row, Seq<char>>(row),
    ensures
        scan_log(data) == (LogScan { rows: seq![row], valid_len: data.len() as int, end: LogEnd::Clean }),
{
    let rest = data.skip(data.len() as int);
    assert(rest =~= Seq::<u8>::empty());
    assert(scan_log(rest) == (LogScan { rows: Seq::empty(), valid_len: 0, end: LogEnd::Clean }));
    assert(seq![row] + Seq::<Row>::empty() =~= seq![row]);
}

/// A log entry is read back as its row.
pub proof fn law_log_entry_roundtrip(row: Row)
    requires
        record_len(row) <= u32::MAX,
    ensures
        scan_log(log_entry(row)) == (LogScan { rows: seq![row], valid_len: log_entry(row).len() as int, end: LogEnd::Clean }),
{
    lemma_log_entry_layout(row);
    law_payload_roundtrip(row);
    lemma_scan_single(log_entry(row), row);
}

/// Appending a record to a log that ends cleanly adds its row, and the log again ends cleanly.
pub proof fn law_append_adds_the_row(data: Seq<u8>, row: Row)
    requires
        scan_log(data).end is Clean,
        record_len(row) <= u32::MAX,
    ensures
        scan_log(data + log_entry(row)) == (LogScan {
            rows: scan_log(data).rows.push(row),
            valid_len: (data.len() + log_entry(row).len()) as int,
            end: LogEnd::Clean,
        }),
{
    law_log_concat(data, log_entry(row));
    law_log_entry_roundtrip(row);
    assert(scan_log(data).rows + seq![row] =~= scan_log(data).rows.push(row));
}

/// A log holds exactly the rows that were written to it.
pub proof fn law_log_roundtrip(rows: Seq<Row>)
    requires
        forall|i: int| 0 <= i < rows.len() ==> record_len(#[trigger] rows[i]) <= u32::MAX,
    ensures
        scan_log(log_bytes(rows)) == (LogScan { rows, valid_len: log_bytes(rows).len() as int, end: LogEnd::Clean }),
    decreases rows.len(),
{
    if rows.len() == 0 {
        assert(rows =~= Seq::<Row>::empty());
    } else {
        let before = rows.drop_last();
        assert forall|i: int| 0 <= i < before.len() implies record_len(#[trigger] before[i]) <= u32::MAX by {
            assert(before[i] == rows[i]);
        }
        law_log_roundtrip(before);
        assert(record_len(rows[rows.len() - 1]) <= u32::MAX);
        law_append_adds_the_row(log_bytes(before), rows.last());
        assert(before.push(rows.last()) =~= rows);
    }
}

/// When an append is interrupted, scanning finds the earlier records and nothing of the torn one.
pub proof fn law_torn_tail_is_discarded(data: Seq<u8>, row: Row, written: int)
    requires
        scan_log(data).end is Clean,
        record_len(row) <= u32::MAX,
        0 < written < log_entry(row).len(),
    ensures
        scan_log(data + log_entry(row).take(written)) == (LogScan {
            rows: scan_log(data).rows,
            valid_len: data.len() as int,
            end: LogEnd::Torn,
        }),
{
    let part = log_entry(row).take(written);
    lemma_log_entry_layout(row);
    if written >= 4 {
        lemma_u32_at_same(part, 0, log_entry(row), 0);
    }
    law_log_concat(data, part);
    assert(scan_log(data).rows + Seq::<Row>::empty() =~= scan_log(data).rows);
}

/// Cutting a log behind its last complete record leaves the same records and a clean end.
pub proof fn law_truncated_log_is_clean(data: Seq<u8>)
    ensures
        0 <= scan_log(data).valid_len <= data.len(),
        scan_log(data.take(scan_log(data).valid_len)) == (LogScan {
            rows: scan_log(data).rows,
            valid_len: scan_log(data).valid_len,
            end: LogEnd::Clean,
        }),
    decreases data.len(),
{
    let total = u32_at(data, 0);
    let n = 8 + total;
    if data.len() >= 4 && total >= 9 && data.len() >= n && crc32_of(data.take(4 + total)) == u32_at(data, 4 + total)
        && decode_payload(data.subrange(4, 4 + total)) is Ok {
        let rest = data.skip(n);
        law_truncated_log_is_clean(rest);
        let valid = scan_log(rest).valid_len;
        let cut = data.take(n + valid);
        lemma_u32_at_same(cut, 0, data, 0);
        assert(cut.take(4 + total) =~= data.take(4 + total));
        lemma_u32_at_same(cut, 4 + total, data, 4 + total);
        assert(cut.subrange(4, 4 + total) =~= data.subrange(4, 4 + total));
        assert(cut.skip(n) =~= rest.take(valid));
    } else {
        assert(scan_log(data).valid_len == 0);
        assert(data.take(0) =~= Seq::<u8>::empty());
    }
}

/// A complete record in which one byte behind the length has changed is reported as corruption,
/// wherever in the log it stands.
pub proof fn law_damaged_record_is_refused(data: Seq<u8>, row: Row, at: int, byte: u8, more: Seq<u8>)
    requires
        scan_log(data).end is Clean,
        record_len(row) <= u32::MAX,
        4 <= at < log_entry(row).len(),
        byte != log_entry(row)[at],
    ensures
        scan_log(data + (log_entry(row).update(at, byte) + more)).end == LogEnd::Corrupt("checksum mismatch"@),
{
    let entry = log_entry(row);
    let total = record_len(row);
    let damaged = entry.update(at, byte);
    let tail = damaged + more;
    lemma_log_entry_layout(row);
    lemma_u32_at_same(tail, 0, entry, 0);
    if at < 4 + total {
        law_single_byte_change_is_detected(entry.take(4 + total), at, byte);
        assert(tail.take(4 + total) =~= entry.take(4 + total).update(at, byte));
        lemma_u32_at_same(tail, 4 + total, entry, 4 + total);
    } else {
        assert(tail.take(4 + total) =~= entry.take(4 + total));
        lemma_u32_byte_change(entry, 4 + total, at, byte);
        lemma_u32_at_same(tail, 4 + total, damaged, 4 + total);
    }
    law_log_concat(data, tail);
}

}
