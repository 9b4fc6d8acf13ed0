use pebbledb::compaction::{pick_compaction, FileMeta, LevelConfig};
use pebbledb::db::{DbOptions, PebbleDB};
use pebbledb::disk::{copy_bytes, Directory, DiskOp};
use pebbledb::error::PebbleError;
use pebbledb::fault::{Fault, FaultInjector, FaultMode, FaultPoint};
use pebbledb::iter::{Bound, StorageIterator};
use pebbledb::keymap::KeyMap;
use pebbledb::sstable::{write_sstable, SSTableEntry};
use pebbledb::workload::{draw, workload_options};
use std::collections::BTreeMap;

type Contents = BTreeMap<String, String>;

fn copy_of(dir: &Directory) -> Directory {
    let mut copy = Directory::new();
    for i in 0..dir.len() {
        copy.put(dir.name(i).to_string(), copy_bytes(dir.data(i)));
    }
    copy
}

fn names_of(dir: &Directory) -> Vec<String> {
    let mut names: Vec<String> = (0..dir.len()).map(|i| dir.name(i).to_string()).collect();
    names.sort();
    names
}

fn contents_of(db: &PebbleDB) -> Contents {
    db.scan().into_iter().collect()
}

fn reopened(mut dir: Directory) -> Contents {
    contents_of(&PebbleDB::open(&mut dir).unwrap())
}

/// What a crash can leave of `ops`: some of them done, and perhaps a part of the next one.
fn crash_images(dir: &Directory, ops: &[DiskOp]) -> Vec<Directory> {
    let mut images = Vec::new();
    for done in 0..=ops.len() {
        let mut image = copy_of(dir);
        for op in &ops[..done] {
            image.apply(op);
        }
        if let Some(op) = ops.get(done) {
            let torn = match op {
                DiskOp::Write { name, data } => Some(DiskOp::Write { name: name.clone(), data: data[..data.len() / 2].to_vec() }),
                DiskOp::Append { name, data } => Some(DiskOp::Append { name: name.clone(), data: data[..data.len() / 2].to_vec() }),
                _ => None,
            };
            if let Some(torn) = torn {
                let mut partial = copy_of(&image);
                partial.apply(&torn);
                images.push(partial);
            }
        }
        images.push(image);
    }
    images
}

fn apply_all(dir: &mut Directory, ops: &[DiskOp]) {
    for op in ops {
        dir.apply(op);
    }
}

#[test]
fn crash_anywhere_in_a_write_keeps_what_was_acknowledged() {
    let mut dir = Directory::new();
    let mut db = PebbleDB::open_with_options(&mut dir, workload_options(4, 2, None)).unwrap();
    dir.take_ops();
    let mut model = Contents::new();
    let mut state = 7;
    for index in 0..48 {
        let (operation, next) = draw(state, index);
        state = next;
        let before = model.clone();
        match operation.value {
            Some(value) => {
                model.insert(operation.key.clone(), value.clone());
                db.set(operation.key, value).unwrap();
            }
            None => {
                model.remove(&operation.key);
                db.delete(&operation.key).unwrap();
            }
        }
        let ops = db.take_ops();
        for image in crash_images(&dir, &ops) {
            let found = reopened(image);
            assert!(found == before || found == model);
        }
        apply_all(&mut dir, &ops);
        assert_eq!(contents_of(&db), model);
        assert_eq!(reopened(copy_of(&dir)), model);
    }
}

#[test]
fn crash_anywhere_in_a_flush_or_merge_changes_nothing() {
    for run in 0..3 {
        let mut dir = Directory::new();
        let mut options = workload_options(1000, 2, None);
        options.l0_compaction_threshold = if run == 2 { usize::MAX } else { 2 };
        let mut db = PebbleDB::open_with_options(&mut dir, options).unwrap();
        dir.take_ops();
        let mut state = 12_345;
        for index in 0..60 {
            let (operation, next) = draw(state, index);
            state = next;
            match operation.value {
                Some(value) => db.set(operation.key, value).unwrap(),
                None => {
                    db.delete(&operation.key).unwrap();
                }
            }
            apply_all(&mut dir, &db.take_ops());
            if index % 12 == 11 {
                let contents = contents_of(&db);
                match run {
                    0 => db.flush().unwrap(),
                    1 => {
                        db.flush().unwrap();
                        db.compact().unwrap();
                    }
                    _ => {
                        db.flush().unwrap();
                        db.compact_full().unwrap();
                    }
                }
                let ops = db.take_ops();
                for image in crash_images(&dir, &ops) {
                    assert_eq!(reopened(image), contents);
                }
                apply_all(&mut dir, &ops);
                assert_eq!(contents_of(&db), contents);
            }
        }
    }
}

#[test]
fn opening_can_be_interrupted_and_repeated() {
    let mut dir = Directory::new();
    let fault = Fault::new(FaultPoint::BeforeObsoleteFileDelete, 2);
    let mut db = PebbleDB::open_with_options(&mut dir, workload_options(2, 2, Some(fault))).unwrap();
    dir.take_ops();
    db.set("a".into(), "1".into()).unwrap();
    db.set("b".into(), "2".into()).unwrap();
    db.set("c".into(), "3".into()).unwrap();
    assert!(matches!(db.delete("a"), Err(PebbleError::InjectedFault(_))));
    apply_all(&mut dir, &db.take_ops());
    dir.put("merge.pending.tmp".to_string(), b"outputs".to_vec());
    dir.apply(&DiskOp::Append { name: "wal.log".to_string(), data: vec![40, 0, 0, 0, 1] });

    let mut once = copy_of(&dir);
    let expected = contents_of(&PebbleDB::open(&mut once).unwrap());
    let ops = once.take_ops();
    assert!(ops.len() > 3);
    assert_eq!(expected.keys().collect::<Vec<_>>(), vec!["b", "c"]);
    for image in crash_images(&dir, &ops) {
        assert_eq!(reopened(image), expected);
    }

    let mut again = copy_of(&once);
    assert_eq!(contents_of(&PebbleDB::open(&mut again).unwrap()), expected);
    assert_eq!(again.take_ops(), vec![]);
    assert_eq!(names_of(&again), names_of(&once));
}

#[test]
fn empty_directory_holds_nothing() {
    let mut dir = Directory::new();
    let db = PebbleDB::open(&mut dir).unwrap();
    assert_eq!(contents_of(&db), Contents::new());
    assert_eq!(names_of(&dir), vec!["wal.log"]);
    assert_eq!(reopened(dir), Contents::new());
}

#[test]
fn directory_with_a_damaged_table_is_refused() {
    let mut dir = Directory::new();
    dir.put("sstable_L0_000000.sst".to_string(), vec![0; 64]);
    match PebbleDB::open(&mut dir) {
        Err(PebbleError::SSTableCorruption(text)) => assert_eq!(text, "invalid magic number"),
        _ => panic!("opened"),
    }
}

#[test]
fn directory_with_a_marker_that_is_no_text_is_refused() {
    let mut dir = Directory::new();
    dir.put("merge.pending".to_string(), vec![0xFF]);
    assert!(matches!(PebbleDB::open(&mut dir), Err(PebbleError::Io(_))));
}

#[test]
fn faults_stop_with_an_error_or_an_abort() {
    let mut injector = FaultInjector::new(Some(Fault::new(FaultPoint::AfterWalFsync, 2)));
    assert!(injector.hit(FaultPoint::AfterWalFsync).is_ok());
    match injector.hit(FaultPoint::AfterWalFsync) {
        Err(PebbleError::InjectedFault(text)) => assert_eq!(text, "after_wal_fsync at hit 2"),
        other => panic!("{:?}", other),
    }
    let fault = Fault::abort(FaultPoint::AfterWalFsync, 0);
    assert_eq!((fault.at, fault.mode), (1, FaultMode::Abort));
    assert!(matches!(FaultInjector::new(Some(fault)).hit(FaultPoint::AfterWalFsync), Err(PebbleError::InjectedAbort)));
}

#[test]
fn fault_points_have_names_of_their_own() {
    for a in FaultPoint::ALL {
        for b in FaultPoint::ALL {
            assert_eq!(a.name() == b.name(), a == b);
        }
    }
}

#[test]
fn errors_in_words() {
    for (error, text) in [
        (PebbleError::Io("gone".to_string()), "I/O error: gone"),
        (PebbleError::WalCorruption("x".to_string()), "WAL corruption: x"),
        (PebbleError::WalIncomplete, "incomplete WAL record"),
        (PebbleError::SSTableCorruption("x".to_string()), "SSTable corruption: x"),
        (PebbleError::CacheCorruption("x".to_string()), "cache corruption: x"),
        (PebbleError::InjectedFault("x".to_string()), "injected fault: x"),
        (PebbleError::InjectedAbort, "injected abort"),
    ] {
        assert_eq!(error.message(), text);
    }
}

#[test]
fn default_options_are_those_of_the_manual() {
    let options = DbOptions::default();
    assert_eq!(options.flush_threshold, 1024);
    assert_eq!(options.l0_compaction_threshold, 4);
    assert_eq!(options.level_size_multiplier, 10);
    assert_eq!(options.target_level_size, 8 * 1024 * 1024);
    assert_eq!(options.target_file_size, 2 * 1024 * 1024);
    assert_eq!(options.fault, None);
}

#[test]
fn capacity_stops_growing_at_the_largest_number() {
    let config = LevelConfig::new(4, 10, 100);
    assert_eq!(config.level_capacity(0), 100);
    assert_eq!(config.level_capacity(18), 10_000_000_000_000_000_000);
    assert_eq!(config.level_capacity(20), u64::MAX);
    assert_eq!(config.level_capacity(u32::MAX), u64::MAX);
}

#[test]
fn merging_goes_on_until_every_level_is_within_its_budget() {
    let mut dir = Directory::new();
    let options = workload_options(4, 2, None);
    let mut db = PebbleDB::open_with_options(&mut dir, options).unwrap();
    for i in 0..200 {
        db.set(format!("key{:03}", i * 37 % 200), format!("value{}", i)).unwrap();
        let config = options.level_config();
        let mut metas = Vec::new();
        for level in db.stats().levels {
            for sst in db.level_tables(level.level) {
                let (smallest, largest) = sst.key_range().unwrap();
                metas.push(FileMeta {
                    id: sst.id(),
                    level: level.level,
                    smallest: smallest.to_string(),
                    largest: largest.to_string(),
                    size: sst.file_size(),
                });
            }
            if level.level == 0 {
                assert!(level.files < 2);
            } else {
                assert!(level.bytes as u64 <= config.level_capacity(level.level));
            }
        }
        assert_eq!(pick_compaction(&metas, &config), None);
        for level in 1..8 {
            let mut ranges: Vec<(String, String)> = metas
                .iter()
                .filter(|meta| meta.level == level)
                .map(|meta| (meta.smallest.clone(), meta.largest.clone()))
                .collect();
            ranges.sort();
            assert!(ranges.windows(2).all(|pair| pair[0].1 < pair[1].0));
        }
    }
    assert_eq!(db.keys().len(), 200);
}

#[test]
fn outputs_of_a_merge_keep_to_the_target() {
    // Every record takes 16 bytes.
    for (target, counts) in [(47, vec![2, 2, 2, 2, 2]), (48, vec![3, 3, 3, 1]), (10, vec![1; 10]), (160, vec![10])] {
        let mut dir = Directory::new();
        let mut options = workload_options(100, 1, None);
        options.target_file_size = target;
        options.target_level_size = usize::MAX;
        let mut db = PebbleDB::open_with_options(&mut dir, options).unwrap();
        for i in 0..10 {
            db.set(format!("k{}", i), "value".into()).unwrap();
        }
        db.flush().unwrap();
        let tables = db.level_tables(1);
        assert_eq!(tables.iter().map(|sst| sst.record_count()).collect::<Vec<_>>(), counts);
        assert!(tables.iter().all(|sst| sst.record_count() == 1 || sst.record_count() * 16 <= target));
    }
}

#[test]
fn reads_are_counted() {
    let mut dir = Directory::new();
    let mut db = PebbleDB::open_with_threshold(&mut dir, 100).unwrap();
    db.set("a".into(), "1".into()).unwrap();
    db.set("b".into(), "2".into()).unwrap();
    db.delete("b").unwrap();
    assert_eq!(db.get("a"), Some("1".into()));
    assert_eq!(db.get("b"), None);
    assert_eq!(db.stats().memtable_hits, 1);
    db.flush().unwrap();
    let found = db.lookup("a");
    assert_eq!((found.value, found.memtable_hit, found.bloom_rejects, found.block_reads), (Some("1".into()), false, 0, 1));
    assert_eq!(db.stats().block_reads, 0);
    assert!(db.contains_key("a"));
    assert!(!db.contains_key("b"));
    let stats = db.stats();
    assert_eq!((stats.memtable_hits, stats.block_reads), (1, 2));
}

#[test]
fn statistics_of_tables() {
    let mut dir = Directory::new();
    let mut options = workload_options(2, usize::MAX, None);
    options.target_level_size = usize::MAX;
    let mut db = PebbleDB::open_with_options(&mut dir, options).unwrap();
    for key in ["a", "b", "c", "d"] {
        db.set(key.into(), "1".into()).unwrap();
    }
    db.set("e".into(), "12".into()).unwrap();
    let stats = db.stats();
    assert_eq!((stats.memtable_entries, stats.memtable_bytes), (1, 3));
    assert_eq!(stats.wal_size, 20);
    assert_eq!(stats.sst_count, 2);
    assert_eq!(stats.sst_sizes.iter().map(|(id, _)| *id).collect::<Vec<_>>(), vec![0, 1]);
    assert_eq!(stats.sst_sizes.iter().map(|(_, size)| *size).sum::<usize>(), stats.total_sst_size);
    assert_eq!(stats.bytes_flushed as usize, stats.total_sst_size);
    assert_eq!(stats.write_amplification, Some((stats.bytes_flushed, stats.bytes_flushed)));
    db.compact_full().unwrap();
    let stats = db.stats();
    assert_eq!(stats.full_compactions, 1);
    assert_eq!(stats.compaction_bytes_read, stats.bytes_flushed);
    assert_eq!(
        stats.write_amplification,
        Some((stats.bytes_flushed + stats.compaction_bytes_written, stats.bytes_flushed))
    );
}

#[test]
fn range_stays_as_it_was_when_it_was_asked_for() {
    let mut dir = Directory::new();
    let mut db = PebbleDB::open_with_options(&mut dir, workload_options(2, 2, None)).unwrap();
    for key in ["a", "b", "c"] {
        db.set(key.into(), "old".into()).unwrap();
    }
    let mut range = db.range(Bound::Unbounded, Bound::Unbounded);
    for key in ["a", "b", "c", "d"] {
        db.set(key.into(), "new".into()).unwrap();
    }
    db.compact_full().unwrap();
    assert!(range.valid());
    assert_eq!(range.key(), Some("a"));
    assert_eq!(range.next(), Some(("a".to_string(), "old".to_string())));
    range.seek_to_first();
    assert_eq!(
        range.collect(),
        vec![("a".to_string(), "old".to_string()), ("b".to_string(), "old".to_string()), ("c".to_string(), "old".to_string())]
    );
}

#[test]
fn operations_on_a_directory() {
    let mut dir = Directory::new();
    dir.perform(DiskOp::Write { name: "a".to_string(), data: vec![1, 2, 3] });
    dir.perform(DiskOp::Append { name: "a".to_string(), data: vec![4] });
    dir.perform(DiskOp::Append { name: "b".to_string(), data: vec![5] });
    dir.perform(DiskOp::Truncate { name: "a".to_string(), len: 2 });
    assert_eq!(dir.read("a"), Some(&vec![1, 2]));
    dir.perform(DiskOp::Rename { from: "a".to_string(), to: "b".to_string() });
    dir.perform(DiskOp::Sync { name: "b".to_string() });
    assert_eq!(dir.read("a"), None);
    assert_eq!(dir.read("b"), Some(&vec![1, 2]));
    assert_eq!(names_of(&dir), vec!["b"]);
    dir.perform(DiskOp::Remove { name: "b".to_string() });
    assert_eq!(dir.len(), 0);
    assert_eq!(dir.take_ops().len(), 7);
    assert_eq!(dir.take_ops(), vec![]);
}

#[test]
fn write_goes_to_the_log_first() {
    let mut dir = Directory::new();
    let mut db = PebbleDB::open_with_options(&mut dir, workload_options(1, 2, None)).unwrap();
    db.set("name".into(), "lazzerex".into()).unwrap();
    let ops = db.take_ops();
    match &ops[0] {
        DiskOp::Append { name, data } => assert_eq!((name.as_str(), data.len()), ("wal.log", 29)),
        other => panic!("{:?}", other),
    }
    assert_eq!(ops[1], DiskOp::Sync { name: "wal.log".to_string() });
    assert!(matches!(&ops[2], DiskOp::Write { name, .. } if name == "sstable_L0_000000.sst.tmp"));
    assert_eq!(
        ops[3],
        DiskOp::Rename { from: "sstable_L0_000000.sst.tmp".to_string(), to: "sstable_L0_000000.sst".to_string() }
    );
    assert_eq!(ops[4], DiskOp::Truncate { name: "wal.log".to_string(), len: 0 });
    assert_eq!(ops[5], DiskOp::Sync { name: "wal.log".to_string() });
    assert_eq!(ops.len(), 6);
}

#[test]
fn any_directory_that_opens_opens_again() {
    let table = |key: &str, value: &str| {
        let mut rows = KeyMap::new();
        rows.insert(key.to_string(), SSTableEntry::Value(value.to_string()));
        write_sstable(&rows).unwrap()
    };
    let mut log = Directory::new();
    let mut db = PebbleDB::open(&mut log).unwrap();
    db.set("x".into(), "9".into()).unwrap();
    apply_all(&mut log, &db.take_ops());
    let mut torn = copy_bytes(log.read("wal.log").unwrap());
    torn.extend_from_slice(&[40, 0, 0, 0, 1]);
    let files = [
        ("sstable_L0_000007.sst", table("a", "new")),
        ("sstable_L1_000007.sst", table("a", "old")),
        ("sstable_L2_000003.sst", table("b", "2")),
        ("sstable_L1_000003.sst", table("c", "3")),
        ("sstable_L1_000009.sst.tmp", vec![1, 2, 3]),
        ("notes.txt", vec![4]),
        ("merge.pending", b"outputs:11\ninputs:7\n".to_vec()),
        ("wal.log", torn),
    ];
    let expected: Contents =
        [("a", "new"), ("b", "2"), ("c", "3"), ("x", "9")].iter().map(|(k, v)| (k.to_string(), v.to_string())).collect();
    for turn in 0..files.len() {
        let mut dir = Directory::new();
        for i in 0..files.len() {
            let (name, data) = &files[(i + turn) % files.len()];
            dir.put(name.to_string(), copy_bytes(data));
        }
        assert_eq!(contents_of(&PebbleDB::open(&mut dir).unwrap()), expected);
        assert!(names_of(&dir).iter().all(|name| !name.ends_with(".tmp") && name != "merge.pending"));
        assert_eq!(dir.read("wal.log"), log.read("wal.log"));
        let mut turned = Directory::new();
        for i in (0..dir.len()).rev() {
            turned.put(dir.name(i).to_string(), copy_bytes(dir.data(i)));
        }
        assert_eq!(contents_of(&PebbleDB::open(&mut turned).unwrap()), expected);
        assert_eq!(turned.take_ops(), vec![]);
    }
}

#[test]
fn values_last_through_calls_that_fail() {
    for point in FaultPoint::ALL {
        for at in 1..4 {
            let mut dir = Directory::new();
            let options = workload_options(3, 2, Some(Fault::new(point, at)));
            let mut db = PebbleDB::open_with_options(&mut dir, options).unwrap();
            let mut model = Contents::new();
            let mut failures = 0;
            for i in 0..40 {
                let key = format!("k{}", i % 7);
                let old = model.get(&key).cloned();
                let new = if i % 5 == 4 { None } else { Some(format!("v{}", i)) };
                let done = match &new {
                    Some(value) => db.set(key.clone(), value.clone()).is_ok(),
                    None => db.delete(&key).is_ok(),
                };
                let now = db.get(&key);
                if done {
                    assert_eq!(now, new);
                    assert!(new.is_none() || db.stats().memtable_entries < 3);
                } else {
                    failures += 1;
                    assert!(now == old || now == new);
                }
                match now {
                    Some(value) => model.insert(key, value),
                    None => model.remove(&key),
                };
                assert_eq!(contents_of(&db), model);
            }
            for outcome in [db.flush(), db.compact(), db.compact_full()] {
                failures += usize::from(outcome.is_err());
            }
            assert!(failures > 0);
            assert_eq!(contents_of(&db), model);
        }
    }
}

#[test]
fn failed_write_happened_or_did_not_when_the_directory_is_opened_again() {
    for point in FaultPoint::ALL {
        let mut dir = Directory::new();
        let options = workload_options(2, 2, Some(Fault::new(point, 2)));
        let mut db = PebbleDB::open_with_options(&mut dir, options).unwrap();
        let mut model = Contents::new();
        for i in 0..12 {
            let key = format!("k{}", i % 3);
            let before = model.clone();
            model.insert(key.clone(), format!("v{}", i));
            let done = db.set(key, format!("v{}", i)).is_ok();
            apply_all(&mut dir, &db.take_ops());
            let found = reopened(copy_of(&dir));
            if done {
                assert_eq!(found, model);
            } else {
                assert!(found == before || found == model);
                break;
            }
        }
    }
}

#[test]
fn merging_again_does_nothing() {
    let mut dir = Directory::new();
    let mut db = PebbleDB::open_with_options(&mut dir, workload_options(4, usize::MAX, None)).unwrap();
    for i in 0..120 {
        db.set(format!("key{:03}", i * 37 % 120), format!("value{}", i)).unwrap();
    }
    apply_all(&mut dir, &db.take_ops());
    let expected = contents_of(&db);
    assert_eq!(db.level_tables(0).len(), 30);

    let options = workload_options(4, 2, None);
    let config = options.level_config();
    let mut db = PebbleDB::open_with_options(&mut dir, options).unwrap();
    db.compact().unwrap();
    assert!(!db.take_ops().is_empty());
    let stats = db.stats();
    assert!(db.level_tables(0).len() < 2);
    for level in stats.levels.iter().filter(|level| level.level > 0) {
        assert!(level.bytes as u64 <= config.level_capacity(level.level));
    }
    assert_eq!(contents_of(&db), expected);

    db.compact().unwrap();
    assert_eq!(db.take_ops(), vec![]);
    assert_eq!(db.stats().compactions_completed, stats.compactions_completed);
    assert_eq!(db.stats().levels, stats.levels);
}

#[test]
fn statistics_agree_with_each_other() {
    let mut dir = Directory::new();
    let mut db = PebbleDB::open_with_options(&mut dir, workload_options(4, 3, None)).unwrap();
    for i in 0..100 {
        db.set(format!("key{:03}", i * 37 % 100), format!("value{}", i)).unwrap();
        let stats = db.stats();
        assert_eq!(stats.levels.iter().map(|level| level.files).sum::<usize>(), stats.sst_count);
        assert_eq!(stats.levels.iter().map(|level| level.bytes).sum::<usize>(), stats.total_sst_size);
        assert_eq!(stats.sst_sizes.len(), stats.sst_count);
        assert_eq!(stats.sst_sizes.iter().map(|(_, size)| *size).sum::<usize>(), stats.total_sst_size);
        assert!(stats.sst_sizes.windows(2).all(|pair| pair[0].0 < pair[1].0));
        assert!(stats.levels.windows(2).all(|pair| pair[0].level < pair[1].level));
    }
    assert!(db.stats().levels.len() > 1);
}

#[test]
fn database_goes_on_after_failures_that_leave_it_in_step() {
    for point in [
        FaultPoint::BeforeWalAppend,
        FaultPoint::AfterMemtableUpdate,
        FaultPoint::BeforeSstableCreation,
        FaultPoint::AfterMetadataUpdate,
    ] {
        let mut dir = Directory::new();
        let options = workload_options(3, usize::MAX, Some(Fault::new(point, 2)));
        let mut db = PebbleDB::open_with_options(&mut dir, options).unwrap();
        let mut failures = 0;
        for i in 0..20 {
            if db.set(format!("k{}", i % 5), format!("v{}", i)).is_err() {
                failures += 1;
            }
            apply_all(&mut dir, &db.take_ops());
            assert_eq!(reopened(copy_of(&dir)), contents_of(&db));
        }
        assert!(failures > 1);
    }
}
