use pebbledb::bloom::BloomFilter;
use pebbledb::bytes::{push_u32, push_u64, read_u32, read_u64};
use pebbledb::cache::{cache_key, decode, encode, is_expired};
use pebbledb::checksum::crc32;
use pebbledb::error::PebbleError;
use pebbledb::keymap::KeyMap;
use pebbledb::keys::{str_eq, str_le, str_lt};
use pebbledb::names::{
    is_tmp_file_name, parse_pending_merge, parse_sstable_file_name, pending_file_name, pending_merge_text,
    sstable_file_name, tmp_file_name, wal_file_name,
};
use pebbledb::sstable::{read_sstable, write_sstable, SSTable, SSTableEntry};
use pebbledb::text::{decimal_string, padded_string, parse_u32, parse_u64};
use pebbledb::wal::{WalReader, WalRecord};

fn put(key: &str, value: &str) -> WalRecord {
    WalRecord::Put { key: key.to_string(), value: value.to_string() }
}

fn delete(key: &str) -> WalRecord {
    WalRecord::Delete { key: key.to_string() }
}

fn log(records: &[WalRecord]) -> Vec<u8> {
    records.iter().flat_map(|record| record.encode()).collect()
}

fn table(entries: &[(&str, Option<&str>)]) -> KeyMap<SSTableEntry> {
    let mut map = KeyMap::new();
    for (key, value) in entries {
        let entry = match value {
            Some(value) => SSTableEntry::Value(value.to_string()),
            None => SSTableEntry::Tombstone,
        };
        map.insert(key.to_string(), entry);
    }
    map
}

fn chars(text: &str) -> Vec<char> {
    text.chars().collect()
}

fn checked(mut data: Vec<u8>) -> Vec<u8> {
    let crc = crc32(&data);
    data.extend_from_slice(&crc.to_le_bytes());
    data
}

#[test]
fn numbers_are_stored_little_endian() {
    let mut buf = vec![9u8];
    push_u32(&mut buf, 0x01020304);
    push_u64(&mut buf, 0x0102030405060708);
    assert_eq!(buf, vec![9, 4, 3, 2, 1, 8, 7, 6, 5, 4, 3, 2, 1]);
    assert_eq!(read_u32(&buf, 1), 0x01020304);
    assert_eq!(read_u64(&buf, 5), 0x0102030405060708);
}

#[test]
fn checksum_of_the_digits() {
    assert_eq!(crc32(b"123456789"), 0xCBF43926);
    assert_eq!(crc32(b""), 0);
}

#[test]
fn checksum_tells_every_changed_byte() {
    let data: Vec<u8> = (0..64).collect();
    let crc = crc32(&data);
    for at in 0..data.len() {
        for change in [1u8, 0x80, 0xFF] {
            let mut other = data.clone();
            other[at] ^= change;
            assert_ne!(crc32(&other), crc);
        }
    }
}

#[test]
fn numbers_round_trip_through_text() {
    for n in [0u64, 7, 10, 999, 1234567, u64::MAX] {
        assert_eq!(decimal_string(n), n.to_string());
        assert_eq!(parse_u64(&chars(&decimal_string(n))), Some(n));
        assert_eq!(padded_string(n, 6), format!("{:06}", n));
        assert_eq!(parse_u64(&chars(&padded_string(n, 6))), Some(n));
    }
}

#[test]
fn texts_that_are_no_numbers() {
    for text in ["", "+", "-1", "1x", " 1", "18446744073709551616", "99999999999999999999999"] {
        assert_eq!(parse_u64(&chars(text)), None);
        assert_eq!(text.parse::<u64>().ok(), None);
    }
    assert_eq!(parse_u64(&chars("+12")), Some(12));
    assert_eq!(parse_u32(&chars("4294967295")), Some(u32::MAX));
    assert_eq!(parse_u32(&chars("4294967296")), None);
}

#[test]
fn keys_are_ordered_as_strings_are() {
    let keys = ["", "a", "ab", "b", "cache:", "cache:a", "cachez", "é", "z", "\u{10000}", "\u{e000}"];
    for a in keys {
        for b in keys {
            assert_eq!(str_lt(a, b), a < b);
            assert_eq!(str_le(a, b), a <= b);
            assert_eq!(str_eq(a, b), a == b);
        }
    }
}

#[test]
fn keys_with_a_prefix_stand_together() {
    let prefix = "cache:";
    assert!(!str_lt("cache:a", prefix));
    assert!(str_lt("cache9", prefix) && !"cache9".starts_with(prefix));
    assert!(str_lt("cache:zzz", "cachez"));
}

#[test]
fn names_of_files() {
    assert_eq!(wal_file_name(), "wal.log");
    assert_eq!(pending_file_name(), "merge.pending");
    assert_eq!(sstable_file_name(1, 9), "sstable_L1_000009.sst");
    assert_eq!(sstable_file_name(12, 1234567), "sstable_L12_1234567.sst");
    assert_eq!(tmp_file_name("merge.pending"), "merge.pending.tmp");
    assert!(is_tmp_file_name("sstable_L1_000005.sst.tmp"));
    assert!(!is_tmp_file_name("sstable_L1_000005.sst"));
    for (level, id) in [(0, 0), (3, 999_999), (u32::MAX, u64::MAX)] {
        assert_eq!(parse_sstable_file_name(&sstable_file_name(level, id)), Some((id, level)));
    }
}

#[test]
fn names_of_tables_without_a_level() {
    assert_eq!(parse_sstable_file_name("sstable_000004.sst"), Some((4, 0)));
}

#[test]
fn names_that_are_no_tables() {
    for name in [
        "wal.log",
        "merge.pending",
        "sstable_L1_000005.sst.tmp",
        "sstable_.sst",
        "sstable_L1.sst",
        "sstable_Lx_1.sst",
        "sstable_L1_x.sst",
        "table_1.sst",
        "sstable.sst",
    ] {
        assert_eq!(parse_sstable_file_name(name), None);
    }
}

#[test]
fn marker_of_a_merge_round_trips() {
    assert_eq!(pending_merge_text(&[9, 10], &[0, 1, 2]), "outputs: 9,10\ninputs: 0,1,2\n");
    for (outputs, inputs) in [(vec![], vec![]), (vec![7], vec![]), (vec![9, 10], vec![0, u64::MAX])] {
        let pending = parse_pending_merge(&pending_merge_text(&outputs, &inputs));
        assert_eq!((pending.outputs, pending.inputs), (outputs, inputs));
    }
}

#[test]
fn marker_of_a_merge_is_read_leniently() {
    let pending = parse_pending_merge("# merge\r\ninputs: 3 , x,4\r\noutputs:5\noutputs: 6");
    assert_eq!((pending.outputs, pending.inputs), (vec![6], vec![3, 4]));
}

#[test]
fn log_entry_has_length_payload_and_checksum() {
    assert_eq!(
        put("name", "lazzerex").encode(),
        vec![
            21, 0, 0, 0, 1, 4, 0, 0, 0, 8, 0, 0, 0, 110, 97, 109, 101, 108, 97, 122, 122, 101, 114, 101, 120, 214, 64,
            153, 129
        ]
    );
    assert_eq!(delete("ab").encode()[..15], [11, 0, 0, 0, 2, 2, 0, 0, 0, 0, 0, 0, 0, b'a', b'b']);
}

#[test]
fn payload_round_trips() {
    for record in [put("k", "v"), put("", ""), put("schlüssel", "wért"), delete("gone")] {
        let encoded = record.encode();
        assert_eq!(WalRecord::decode(&encoded[4..encoded.len() - 4]).unwrap(), record);
    }
}

#[test]
fn payloads_that_are_refused() {
    for (payload, problem) in [
        (vec![1, 0, 0], "record too short"),
        (vec![1, 2, 0, 0, 0, 0, 0, 0, 0, b'a'], "record truncated"),
        (vec![1, 1, 0, 0, 0, 0, 0, 0, 0, 0xFF], "invalid UTF-8 in key"),
        (vec![1, 1, 0, 0, 0, 1, 0, 0, 0, b'a', 0xFF], "invalid UTF-8 in value"),
        (vec![2, 1, 0, 0, 0, 1, 0, 0, 0, b'a', b'b'], "DELETE record has non-zero value length"),
        (vec![7, 1, 0, 0, 0, 0, 0, 0, 0, b'a'], "unknown operation: 7"),
    ] {
        match WalRecord::decode(&payload) {
            Err(PebbleError::WalCorruption(text)) => assert_eq!(text, problem),
            other => panic!("{:?}", other),
        }
    }
}

#[test]
fn log_round_trips() {
    let records = vec![put("a", "1"), delete("a"), put("b", "2")];
    assert_eq!(WalReader::open(log(&records)).read_all().unwrap(), records);
}

#[test]
fn log_cut_anywhere_keeps_its_complete_records() {
    let records = vec![put("a", "1"), delete("a"), put("b", "two")];
    let whole = log(&records);
    for cut in 0..=whole.len() {
        let recovery = WalReader::open(whole[..cut].to_vec()).recover().unwrap();
        let complete = (0..=records.len()).rev().find(|n| log(&records[..*n]).len() <= cut).unwrap();
        assert_eq!(recovery.records, records[..complete]);
        assert_eq!(recovery.valid_len as usize, log(&records[..complete]).len());
        let clean = whole[..recovery.valid_len as usize].to_vec();
        assert_eq!(WalReader::open(clean).read_all().unwrap(), records[..complete]);
    }
}

#[test]
fn log_takes_another_record_after_its_torn_tail_is_cut_off() {
    let mut data = log(&[put("a", "1")]);
    data.extend_from_slice(&[40, 0, 0, 0, 1, 2, 3]);
    let valid_len = WalReader::open(data.clone()).recover().unwrap().valid_len;
    data.truncate(valid_len as usize);
    data.extend_from_slice(&put("b", "2").encode());
    assert_eq!(WalReader::open(data).read_all().unwrap(), vec![put("a", "1"), put("b", "2")]);
}

#[test]
fn damaged_record_is_refused() {
    let whole = log(&[put("a", "1"), put("b", "2")]);
    let first = put("a", "1").encode().len();
    for at in 4..first {
        let mut data = whole.clone();
        data[at] ^= 0x10;
        match WalReader::open(data).recover() {
            Err(PebbleError::WalCorruption(text)) => assert_eq!(text, "checksum mismatch"),
            _ => panic!("damage at {} went unnoticed", at),
        }
    }
}

#[test]
fn log_that_ends_inside_a_record_is_incomplete() {
    let whole = log(&[put("a", "1")]);
    assert!(matches!(WalReader::open(whole[..10].to_vec()).read_all(), Err(PebbleError::WalIncomplete)));
    assert!(matches!(WalReader::open(whole[..2].to_vec()).read_all(), Err(PebbleError::WalIncomplete)));
}

#[test]
fn filter_is_sized_for_one_percent() {
    for (items, bits, hashes) in [(0usize, 64u32, 30u32), (1, 64, 30), (3, 64, 15), (7, 68, 7), (100, 959, 7), (1000, 9586, 7)] {
        let keys: Vec<String> = (0..items).map(|i| format!("key{}", i)).collect();
        let refs: Vec<&str> = keys.iter().map(String::as_str).collect();
        let encoded = BloomFilter::from_entries(&refs).encode();
        assert_eq!(read_u32(&encoded, 0), bits);
        assert_eq!(read_u32(&encoded, 4), hashes);
        assert_eq!(encoded.len(), 8 + 8 * ((bits as usize + 63) / 64));
    }
}

#[test]
fn filter_has_all_its_keys_after_it_is_decoded() {
    let keys: Vec<String> = (0..200).map(|i| format!("key{}", i)).collect();
    let refs: Vec<&str> = keys.iter().map(String::as_str).collect();
    let mut filter = BloomFilter::decode(&BloomFilter::from_entries(&refs).encode()).unwrap();
    filter.insert("one more");
    assert!(keys.iter().all(|key| filter.might_contain(key)));
    assert!(filter.might_contain("one more"));
}

#[test]
fn filter_that_is_cut_off_is_refused() {
    let encoded = BloomFilter::from_entries(&["x", "y"]).encode();
    for len in 0..encoded.len() {
        assert!(BloomFilter::decode(&encoded[..len]).is_none());
    }
    let decoded = BloomFilter::decode(&encoded).unwrap();
    assert_eq!(decoded.encode(), encoded);
}

#[test]
fn table_file_byte_by_byte() {
    let data = write_sstable(&table(&[("a", Some("1")), ("b", None)])).unwrap();
    assert_eq!(
        data,
        vec![
            66, 66, 69, 80, 2, 0, 0, 0, 2, 0, 0, 0, 1, 0, 0, 0, 0, 16, 0, 0,
            1, 1, 0, 0, 0, 1, 0, 0, 0, 97, 49, 2, 1, 0, 0, 0, 0, 0, 0, 0,
            98, 1, 0, 0, 0, 97, 20, 0, 0, 0, 21, 0, 0, 0, 16, 0, 0, 0, 64, 0,
            0, 0, 22, 0, 0, 0, 78, 147, 229, 105, 242, 60, 93, 158, 41, 0, 0, 0, 13, 0,
            0, 0, 54, 0, 0, 0, 20, 0, 0, 0, 91, 37, 26, 172,
        ]
    );
}

#[test]
fn table_round_trips_in_blocks() {
    let keys: Vec<String> = (0..50).map(|i| format!("key{:02}", i)).collect();
    let rows: Vec<(&str, Option<&str>)> =
        keys.iter().enumerate().map(|(i, key)| (key.as_str(), if i % 7 == 0 { None } else { Some("value") })).collect();
    let map = table(&rows);
    let data = SSTable::write_sstable_with_block_size(&map, 64).unwrap();
    let sst = SSTable::load(3, "t.sst".to_string(), data.clone()).unwrap();
    assert_eq!(sst.id(), 3);
    assert_eq!(sst.path(), "t.sst");
    assert_eq!(sst.file_size(), data.len());
    assert_eq!(sst.record_count(), 50);
    assert_eq!(sst.key_range(), Some(("key00", "key49")));

    let mut blocks: Vec<(String, SSTableEntry)> = Vec::new();
    for block in 0..sst.block_count() {
        let rows = sst.read_block(block).unwrap();
        let bytes: usize = rows.iter().map(|(key, entry)| 9 + key.len() + entry.value().map_or(0, str::len)).sum();
        assert!(bytes <= 64 && !rows.is_empty());
        assert_eq!(sst.find_block(&rows[0].0), Some(block));
        blocks.extend(rows);
    }
    assert!(sst.block_count() > 1);
    assert!(sst.read_block(sst.block_count()).is_none());
    assert_eq!(sst.find_block("a"), None);

    let read = read_sstable(&data).unwrap();
    for (i, (key, value)) in rows.iter().enumerate() {
        assert_eq!(blocks[i].0, *key);
        assert_eq!(blocks[i].1.value(), *value);
        assert_eq!(read.entry(i).0, *key);
        assert_eq!(read.entry(i).1.value(), *value);
        assert_eq!(sst.get(key).unwrap().value(), *value);
        assert!(sst.bloom_might_contain(key));
    }
    assert_eq!(sst.get("key"), None);
}

#[test]
fn row_larger_than_a_block_has_a_block_of_its_own() {
    let long = "x".repeat(200);
    let map = table(&[("a", Some("1")), ("b", Some(&long)), ("c", Some("3"))]);
    let data = SSTable::write_sstable_with_block_size(&map, 64).unwrap();
    let sst = SSTable::load(0, "t.sst".to_string(), data).unwrap();
    assert_eq!(sst.block_count(), 3);
    assert_eq!(sst.get("b"), Some(SSTableEntry::Value(long)));
}

#[test]
fn every_damaged_byte_of_a_table_is_refused() {
    let data = write_sstable(&table(&[("a", Some("1")), ("b", None)])).unwrap();
    for at in 0..data.len() {
        let mut other = data.clone();
        other[at] ^= 1;
        assert!(matches!(read_sstable(&other), Err(PebbleError::SSTableCorruption(_))));
    }
    for len in 0..data.len() {
        assert!(matches!(read_sstable(&data[..len]), Err(PebbleError::SSTableCorruption(_))));
    }
}

#[test]
fn what_is_wrong_with_a_table() {
    let data = write_sstable(&table(&[("a", Some("1")), ("b", None)])).unwrap();
    let body = data[..data.len() - 4].to_vec();
    let changed = |at: usize, byte: u8| {
        let mut other = body.clone();
        other[at] = byte;
        checked(other)
    };
    for (data, problem) in [
        (vec![0; 10], "file too short"),
        (changed(0, 0), "invalid magic number"),
        (changed(4, 1), "unsupported version: 1"),
        ([body.clone(), vec![0; 4]].concat(), "checksum mismatch"),
        (changed(20, 7), "unknown op: 7"),
        (changed(29, 0xFF), "invalid UTF-8 in key"),
        (changed(30, 0xFF), "invalid UTF-8 in value"),
    ] {
        match read_sstable(&data) {
            Err(PebbleError::SSTableCorruption(text)) => assert_eq!(text, problem),
            _ => panic!("no {}", problem),
        }
    }
}

#[test]
fn cache_entries_round_trip() {
    assert_eq!(cache_key("k"), "cache:k");
    assert_eq!(encode(0, "a:b"), "0:a:b");
    for (expires_at, value) in [(0u64, "v"), (u64::MAX, ""), (17, "http://example.com")] {
        assert_eq!(decode(&encode(expires_at, value)).unwrap(), (expires_at, value.to_string()));
    }
}

#[test]
fn cache_entries_that_are_refused() {
    for (raw, problem) in
        [("plain", "entry has no expiration field: plain"), ("soon:v", "invalid expiration field: soon"), (":v", "invalid expiration field: ")]
    {
        match decode(raw) {
            Err(PebbleError::CacheCorruption(text)) => assert_eq!(text, problem),
            other => panic!("{:?}", other),
        }
    }
}

#[test]
fn cache_entries_expire_at_their_time() {
    assert!(!is_expired(0, u64::MAX));
    assert!(!is_expired(10, 9));
    assert!(is_expired(10, 10));
    assert!(is_expired(10, 11));
}
