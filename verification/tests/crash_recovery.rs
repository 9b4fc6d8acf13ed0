use pebbledb::db::{DbOptions, PebbleDB};
use pebbledb::disk::Directory;
use pebbledb::error::{PebbleError, Result};
use pebbledb::fault::{Fault, FaultMode, FaultPoint};
use pebbledb::workload::{announcement, compacts_after, draw, failure_line, flushes_after, workload_options};
use std::cell::RefCell;
use std::collections::BTreeMap;
use std::rc::Rc;

/// A directory that one database after another is opened in.
#[derive(Clone)]
struct Disk(Rc<RefCell<Directory>>);

impl Disk {
    fn new() -> Self {
        Disk(Rc::new(RefCell::new(Directory::new())))
    }
}

/// A database whose file operations are carried out after each call.
struct Db {
    disk: Disk,
    db: RefCell<PebbleDB>,
}

impl Db {
    fn over(disk: &Disk, opened: Result<PebbleDB>) -> Result<Db> {
        disk.0.borrow_mut().take_ops();
        opened.map(|db| Db { disk: disk.clone(), db: RefCell::new(db) })
    }

    fn open(disk: &Disk) -> Result<Db> {
        let opened = PebbleDB::open(&mut disk.0.borrow_mut());
        Db::over(disk, opened)
    }

    fn open_with_options(disk: &Disk, options: DbOptions) -> Result<Db> {
        let opened = PebbleDB::open_with_options(&mut disk.0.borrow_mut(), options);
        Db::over(disk, opened)
    }

    fn settle<T>(&self, result: T) -> T {
        for op in self.db.borrow_mut().take_ops() {
            self.disk.0.borrow_mut().apply(&op);
        }
        result
    }

    fn set(&self, key: String, value: String) -> Result<()> {
        let result = self.db.borrow_mut().set(key, value);
        self.settle(result)
    }

    fn delete(&self, key: &str) -> Result<bool> {
        let result = self.db.borrow_mut().delete(key);
        self.settle(result)
    }

    fn flush(&self) -> Result<()> {
        let result = self.db.borrow_mut().flush();
        self.settle(result)
    }

    fn compact(&self) -> Result<()> {
        let result = self.db.borrow_mut().compact();
        self.settle(result)
    }

    fn get(&self, key: &str) -> Option<String> {
        self.db.borrow_mut().get(key)
    }

    fn scan(&self) -> Vec<(String, String)> {
        self.db.borrow().scan()
    }
}

const KEY_SPACE: u64 = 24;
const SEED: u64 = 7;

#[derive(Debug, Clone, PartialEq, Eq)]
enum Op {
    Put { key: String, value: String },
    Delete { key: String },
}

impl Op {
    fn key(&self) -> &str {
        match self {
            Op::Put { key, .. } => key,
            Op::Delete { key } => key,
        }
    }

    fn result(&self) -> Option<String> {
        match self {
            Op::Put { value, .. } => Some(value.clone()),
            Op::Delete { .. } => None,
        }
    }
}

fn next_state(state: u64) -> u64 {
    state
        .wrapping_mul(6364136223846793005)
        .wrapping_add(1442695040888963407)
}

fn workload_entry(state: u64, index: u64) -> (u64, Op) {
    let state = next_state(state);
    let key = format!("key{:03}", state % KEY_SPACE);
    if state % 5 == 0 {
        (state, Op::Delete { key })
    } else {
        let state = next_state(state);
        let value = format!("value{}_{}", index, state % 1000);
        (state, Op::Put { key, value })
    }
}

fn scenario_options(
    flush_threshold: usize,
    l0_threshold: usize,
    fault: Option<Fault>,
) -> DbOptions {
    DbOptions {
        flush_threshold,
        l0_compaction_threshold: l0_threshold,
        level_size_multiplier: 2,
        target_level_size: 512,
        target_file_size: 256,
        fault,
    }
}

fn model(operations: &[Op]) -> BTreeMap<String, Option<String>> {
    let mut model = BTreeMap::new();
    for operation in operations {
        model.insert(operation.key().to_string(), operation.result());
    }
    model
}

fn check_state(
    db: &Db,
    acknowledged: &[Op],
    in_flight: Option<&Op>,
) -> std::result::Result<(), String> {
    let model = model(acknowledged);
    let mut keys: Vec<String> = model.keys().cloned().collect();
    if let Some(operation) = in_flight {
        if !keys.iter().any(|key| key == operation.key()) {
            keys.push(operation.key().to_string());
        }
    }
    keys.sort();

    for key in &keys {
        let before = model.get(key).cloned().unwrap_or(None);
        let mut allowed = vec![before];
        if let Some(operation) = in_flight.filter(|operation| operation.key() == key) {
            let after = operation.result();
            if !allowed.contains(&after) {
                allowed.push(after);
            }
        }
        let actual = db.get(key);
        if !allowed.contains(&actual) {
            return Err(format!(
                "key {} expected one of {:?} but database returned {:?}",
                key, allowed, actual
            ));
        }
    }

    let mut expected_pairs: Vec<(String, String)> = model
        .iter()
        .filter_map(|(key, value)| value.clone().map(|value| (key.clone(), value)))
        .collect();
    let mut actual_pairs = db.scan();
    if let Some(operation) = in_flight {
        expected_pairs.retain(|(key, _)| key != operation.key());
        actual_pairs.retain(|(key, _)| key != operation.key());
    }
    if actual_pairs != expected_pairs {
        return Err(format!(
            "range mismatch: expected {:?} but database returned {:?}",
            expected_pairs, actual_pairs
        ));
    }

    Ok(())
}

fn verify_recovery(
    path: &Disk,
    acknowledged: &[Op],
    in_flight: Option<&Op>,
) -> std::result::Result<(), String> {
    for attempt in 0..3 {
        let db = Db::open(path)
            .map_err(|error| format!("reopen {} failed: {}", attempt, error.message()))?;
        check_state(&db, acknowledged, in_flight)
            .map_err(|error| format!("reopen {} mismatch: {}", attempt, error))?;
    }
    Ok(())
}

struct InProcessRun {
    acknowledged: Vec<Op>,
    in_flight: Option<Op>,
    faulted: bool,
    completed: bool,
}

fn run_workload(
    path: &Disk,
    seed: u64,
    operations: u64,
    fault: Option<Fault>,
    flush_threshold: usize,
    l0_threshold: usize,
) -> InProcessRun {
    let db =
        Db::open_with_options(path, scenario_options(flush_threshold, l0_threshold, fault))
            .unwrap();

    let mut acknowledged = Vec::new();
    let mut in_flight = None;
    let mut faulted = false;
    let mut completed = false;
    let mut state = seed;

    for index in 0..operations {
        let (next, operation) = workload_entry(state, index);
        state = next;

        let result = match &operation {
            Op::Put { key, value } => db.set(key.clone(), value.clone()),
            Op::Delete { key } => db.delete(key).map(|_| ()),
        };
        match result {
            Ok(()) => acknowledged.push(operation),
            Err(_) => {
                in_flight = Some(operation);
                faulted = true;
                break;
            }
        }

        if index % 16 == 15 && db.flush().is_err() {
            faulted = true;
            break;
        }
        if index % 32 == 31 && db.compact().is_err() {
            faulted = true;
            break;
        }
        completed = index + 1 == operations;
    }

    drop(db);
    InProcessRun {
        acknowledged,
        in_flight,
        faulted,
        completed,
    }
}

struct ChildOutcome {
    acknowledged: Vec<Op>,
    in_flight: Option<Op>,
    fault: Option<String>,
    completed: bool,
    aborted: bool,
    stdout: String,
}

fn run_crash_child(path: &Disk, seed: u64, operations: u64, point: FaultPoint, at: u64, mode: FaultMode) -> ChildOutcome {
    let (stdout, exit_code) = run_child(path, seed, operations, Fault { point, at, mode });
    parse_child_output(&stdout, exit_code)
}

/// The lines that a run of the workload prints, and its exit code; none if it is cut short.
fn run_child(path: &Disk, seed: u64, operations: u64, fault: Fault) -> (String, Option<i32>) {
    let mut stdout = String::new();
    let db = match Db::open_with_options(path, workload_options(4, 2, Some(fault))) {
        Ok(db) => db,
        Err(error) => {
            stdout.push_str(&format!("OPEN_FAILED {}\n", error.message()));
            return (stdout, Some(3));
        }
    };

    let mut state = seed;
    for index in 0..operations {
        let (operation, next) = draw(state, index);
        state = next;
        stdout.push_str(&format!("{}\n", announcement("TRY", index, &operation)));
        let (what, result) = match &operation.value {
            Some(value) => ("set", db.set(operation.key.clone(), value.clone())),
            None => ("delete", db.delete(&operation.key).map(|_| ())),
        };
        if let Err(error) = result {
            return failed(stdout, what, index, error);
        }
        stdout.push_str(&format!("{}\n", announcement("ACK", index, &operation)));
        if flushes_after(index) {
            if let Err(error) = db.flush() {
                return failed(stdout, "flush", index, error);
            }
        }
        if compacts_after(index) {
            if let Err(error) = db.compact() {
                return failed(stdout, "compact", index, error);
            }
        }
    }
    stdout.push_str("DONE\n");
    (stdout, Some(0))
}

fn failed(mut stdout: String, what: &str, index: u64, error: PebbleError) -> (String, Option<i32>) {
    if matches!(error, PebbleError::InjectedAbort) {
        return (stdout, None);
    }
    stdout.push_str(&format!("{}\n", failure_line(what, index, &error.message())));
    (stdout, Some(2))
}

fn parse_child_output(stdout: &str, exit_code: Option<i32>) -> ChildOutcome {
    let mut acknowledged = Vec::new();
    let mut in_flight = None;
    let mut fault = None;
    let mut completed = false;

    for line in stdout.lines() {
        let mut fields = line.split(' ');
        match fields.next() {
            Some("TRY") => in_flight = parse_op(&mut fields),
            Some("ACK") => {
                if let Some(operation) = parse_op(&mut fields) {
                    acknowledged.push(operation);
                }
                in_flight = None;
            }
            Some("DONE") => completed = true,
            Some("FAULT") | Some("OPEN_FAILED") => fault = Some(line.to_string()),
            _ => {}
        }
    }

    ChildOutcome {
        acknowledged,
        in_flight,
        fault,
        completed,
        aborted: exit_code != Some(0) && exit_code != Some(2),
        stdout: stdout.to_string(),
    }
}

fn parse_op<'a>(fields: &mut impl Iterator<Item = &'a str>) -> Option<Op> {
    match fields.next()? {
        "put" => {
            fields.next()?;
            let key = fields.next()?.to_string();
            let value = fields.next()?.to_string();
            Some(Op::Put { key, value })
        }
        "del" => {
            fields.next()?;
            let key = fields.next()?.to_string();
            Some(Op::Delete { key })
        }
        _ => None,
    }
}

const OPERATIONS: u64 = 64;

#[test]
fn every_fault_point_fires_during_the_workload() {
    for point in FaultPoint::ALL {
        let path = Disk::new();
        let run = run_workload(
            &path,
            SEED,
            OPERATIONS * 4,
            Some(Fault::new(point, 1)),
            4,
            2,
        );
        assert!(run.faulted, "fault point {} never fired", point.name());
    }
}

#[test]
fn acknowledged_operations_survive_crashes_at_every_write_path_boundary() {
    let mut scenarios = 0;
    for point in FaultPoint::ALL {
        for hit in 1..=3 {
                let path = Disk::new();
            let run = run_workload(&path, SEED, OPERATIONS, Some(Fault::new(point, hit)), 4, 2);
            verify_recovery(&path, &run.acknowledged, run.in_flight.as_ref())
                .unwrap_or_else(|error| panic!("{} hit {}: {}", point.name(), hit, error));
            scenarios += 1;
        }
    }
    assert_eq!(scenarios, FaultPoint::ALL.len() * 3);
}

#[test]
fn crashes_without_a_fault_recover_the_full_workload() {
    let path = Disk::new();
    let run = run_workload(&path, SEED, OPERATIONS, None, 4, 2);
    assert!(run.completed);
    assert!(!run.faulted);
    verify_recovery(&path, &run.acknowledged, None).unwrap();
}

#[test]
fn randomized_workload_matches_the_reference_model_across_reopens() {
    let path = Disk::new();
    let mut acknowledged: Vec<Op> = Vec::new();
    let mut state = SEED;
    let mut db = Db::open_with_options(&path, scenario_options(4, 2, None)).unwrap();

    for index in 0..160u64 {
        let (next, operation) = workload_entry(state, index);
        state = next;
        match &operation {
            Op::Put { key, value } => db.set(key.clone(), value.clone()).unwrap(),
            Op::Delete { key } => {
                db.delete(key).unwrap();
            }
        }
        acknowledged.push(operation);

        if index % 24 == 23 {
            db.flush().unwrap();
            db.compact().unwrap();
            drop(db);
            verify_recovery(&path, &acknowledged, None).unwrap();
            db = Db::open_with_options(&path, scenario_options(4, 2, None)).unwrap();
        }
    }

    drop(db);
    verify_recovery(&path, &acknowledged, None).unwrap();
}

#[test]
fn deleted_keys_do_not_reappear_after_flush_and_compaction() {
    let path = Disk::new();
    let db = Db::open_with_options(&path, scenario_options(4, 2, None)).unwrap();

    let mut acknowledged: Vec<Op> = Vec::new();
    let mut state = SEED;
    for index in 0..120u64 {
        let (next, operation) = workload_entry(state, index);
        state = next;
        match &operation {
            Op::Put { key, value } => db.set(key.clone(), value.clone()).unwrap(),
            Op::Delete { key } => {
                db.delete(key).unwrap();
            }
        }
        acknowledged.push(operation);
    }

    let final_state = model(&acknowledged);
    let deleted: Vec<String> = final_state
        .iter()
        .filter(|(_, value)| value.is_none())
        .map(|(key, _)| key.clone())
        .collect();
    assert!(!deleted.is_empty());

    db.flush().unwrap();
    db.compact().unwrap();
    for key in &deleted {
        assert_eq!(db.get(key), None, "deleted key {} is still visible", key);
    }
    drop(db);

    let db = Db::open(&path).unwrap();
    for key in &deleted {
        assert_eq!(db.get(key), None, "deleted key {} reappeared", key);
    }
    check_state(&db, &acknowledged, None).unwrap();
}

#[test]
fn repeated_recovery_of_the_same_database_is_idempotent() {
    let path = Disk::new();
    let run = run_workload(
        &path,
        SEED,
        OPERATIONS,
        Some(Fault::new(FaultPoint::AfterCompactionOutputCreation, 1)),
        4,
        2,
    );
    assert!(run.faulted);

    let baseline = Db::open(&path).unwrap();
    let expected = baseline.scan();
    assert!(!expected.is_empty());
    drop(baseline);

    for _ in 0..5 {
        let db = Db::open(&path).unwrap();
        check_state(&db, &run.acknowledged, run.in_flight.as_ref()).unwrap();
        assert_eq!(db.scan(), expected);
        drop(db);
    }
}

#[test]
fn aborted_process_keeps_acknowledged_writes() {
    for (point, hit) in [
        (FaultPoint::AfterWalAppend, 3),
        (FaultPoint::AfterWalFsync, 5),
        (FaultPoint::AfterMemtableUpdate, 9),
    ] {
        let path = Disk::new();
        let child = run_crash_child(&path, SEED, 60, point, hit, FaultMode::Abort);
        assert!(child.aborted, "child did not abort for {}", point.name());
        assert!(!child.completed);
        assert!(child.fault.is_none());
        assert!(!child.acknowledged.is_empty());
        assert!(child.in_flight.is_some());
        verify_recovery(&path, &child.acknowledged, child.in_flight.as_ref())
            .unwrap_or_else(|error| panic!("{} hit {}: {}", point.name(), hit, error));
    }
}

#[test]
fn aborted_process_during_flush_or_compaction_recovers() {
    for (point, hit) in [
        (FaultPoint::BeforeSstableCreation, 2),
        (FaultPoint::AfterSstableWrite, 2),
        (FaultPoint::BeforeAtomicRename, 2),
        (FaultPoint::AfterAtomicRename, 2),
        (FaultPoint::AfterCompactionOutputCreation, 1),
        (FaultPoint::BeforeObsoleteFileDelete, 3),
        (FaultPoint::AfterObsoleteFileDelete, 1),
        (FaultPoint::AfterMetadataUpdate, 4),
    ] {
        let path = Disk::new();
        let child = run_crash_child(&path, SEED, 60, point, hit, FaultMode::Abort);
        assert!(child.aborted, "child did not abort for {}", point.name());
        verify_recovery(&path, &child.acknowledged, child.in_flight.as_ref())
            .unwrap_or_else(|error| panic!("{} hit {}: {}", point.name(), hit, error));
    }
}

#[test]
fn injected_error_terminates_the_child_cleanly_and_recovery_holds() {
    for point in [
        FaultPoint::AfterWalFsync,
        FaultPoint::AfterSstableWrite,
        FaultPoint::BeforeObsoleteFileDelete,
    ] {
        let path = Disk::new();
        let child = run_crash_child(&path, SEED, 60, point, 2, FaultMode::Error);
        assert!(!child.completed);
        assert!(child.fault.is_some(), "child reported no fault");
        verify_recovery(&path, &child.acknowledged, child.in_flight.as_ref())
            .unwrap_or_else(|error| panic!("{} hit 2: {}", point.name(), error));
    }
}

#[test]
fn crash_child_reproduces_the_same_run_twice() {
    let first_path = Disk::new();
    let second_path = Disk::new();

    let first = run_crash_child(
        &first_path,
        SEED,
        60,
        FaultPoint::AfterWalFsync,
        4,
        FaultMode::Abort,
    );
    let second = run_crash_child(
        &second_path,
        SEED,
        60,
        FaultPoint::AfterWalFsync,
        4,
        FaultMode::Abort,
    );

    assert_eq!(first.acknowledged, second.acknowledged);
    assert_eq!(first.in_flight, second.in_flight);
    assert_eq!(first.aborted, second.aborted);
    assert_eq!(first.stdout, second.stdout);
}

#[test]
fn crash_stress() {
    let seed = 12_345u64;
    let operations = 120u64;
    let crashes = 30u64;
    let mode = FaultMode::Abort;

    let mut recovery_failures = 0;
    let mut data_mismatches = 0;

    for index in 0..crashes {
        let point = FaultPoint::ALL[index as usize % FaultPoint::ALL.len()];
        let hit = 1 + index / FaultPoint::ALL.len() as u64;
        let run_seed = seed.wrapping_add(index);
        let path = Disk::new();

        let child = run_crash_child(&path, run_seed, operations, point, hit, mode);
        let context = format!(
            "seed {} operations {} point {} hit {} acknowledged {}",
            run_seed,
            operations,
            point.name(),
            hit,
            child.acknowledged.len()
        );

        match Db::open(&path) {
            Err(error) => {
                recovery_failures += 1;
                println!("recovery failure: {} ({})", context, error.message());
            }
            Ok(db) => {
                if let Err(error) = check_state(&db, &child.acknowledged, child.in_flight.as_ref())
                {
                    data_mismatches += 1;
                    println!("data mismatch: {} ({})", context, error);
                } else {
                    println!("{}: ok", context);
                }
                drop(db);
            }
        }
    }

    println!();
    println!("seed:               {}", seed);
    println!("operations:         {}", operations);
    println!("crashes:            {}", crashes);
    println!("recovery failures:  {}", recovery_failures);
    println!("data mismatches:    {}", data_mismatches);

    assert_eq!(recovery_failures, 0, "recovery failures detected");
    assert_eq!(data_mismatches, 0, "data mismatches detected");
}
