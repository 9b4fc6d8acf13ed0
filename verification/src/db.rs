//! The database engine.
//!
//! The engine decides what is to be done to the files of the database directory and keeps it in
//! a journal, oldest first; whoever drives the engine takes the operations from the journal and
//! carries them out before telling anyone that a call succeeded.
use crate::compaction::{at_most, LevelConfig};
use crate::disk::{ops_of, reaches, run_from, tells, DiskOp, Run};
use crate::engine::{
    apply_steps, contents, due_job, flush_steps, flush_steps_before, job_outcome, job_steps, lemma_lookup, log_steps,
    lookup, metrics_after_rounds, read_sources, rounds_due, rounds_steps, tree_after_attempt, tree_after_rounds,
    TreeState,
};
use crate::error::Result;
use crate::fault::{Fault, FaultInjector};
use crate::iter::{
    all_wf, lemma_live_run, pair_rows, source_rows, Bound, MemtableIterator, MergeIterator, RangeIterator,
    SSTableIterator, SourceIterator, StorageIterator,
};
use crate::keymap::{KeyMap, Record};
use crate::keys::key_lt;
use crate::levels::{level_sources, levels_get, levels_wf, Levels, TableState};
use crate::merge::{all_placed, full_job, level_count_ok, levels_with_flushed, new_table};
use crate::metrics::{plus, recorded, Metrics, MetricsState};
use crate::names::wal_name;
use crate::rows::{has_key, live_rows, merge_rows, rows_get, sorted, upsert, Row};
use crate::safety::law_scan_is_the_contents;
use crate::sstable::{SSTable, SSTableEntry};
use crate::table::{filter_bytes_has, parse_table, table_bytes, DEFAULT_BLOCK_SIZE};
use crate::wal::{log_entry, WalWriter};
use std::sync::Arc;
use vstd::prelude::*;

pub use self::stats::{DbStats, LevelStats};

mod compact;
mod open;
pub mod stats;
mod write;

verus! {

pub const DEFAULT_FLUSH_THRESHOLD: usize = 1024;

pub const DEFAULT_L0_COMPACTION_THRESHOLD: usize = 4;

pub const DEFAULT_LEVEL_SIZE_MULTIPLIER: usize = 10;

pub const DEFAULT_TARGET_LEVEL_SIZE: usize = 8 * 1024 * 1024;

pub const DEFAULT_TARGET_FILE_SIZE: usize = 2 * 1024 * 1024;

#[derive(Debug, Clone, Copy, PartialEq, Eq)]
pub struct DbOptions {
    /// The memtable entries at which the memtable is written to a table.
    pub flush_threshold: usize,
    /// The tables of level 0 at which they are merged into level 1.
    pub l0_compaction_threshold: usize,
    /// How much more every level may hold than the one above it.
    pub level_size_multiplier: usize,
    /// The bytes that level 1 may hold.
    pub target_level_size: usize,
    /// The bytes that the records of an output of a merge take at most, unless it is a single record.
    pub target_file_size: usize,
    pub fault: Option<Fault>,
}

pub open spec fn default_options() -> DbOptions {
    DbOptions {
        flush_threshold: DEFAULT_FLUSH_THRESHOLD,
        l0_compaction_threshold: DEFAULT_L0_COMPACTION_THRESHOLD,
        level_size_multiplier: DEFAULT_LEVEL_SIZE_MULTIPLIER,
        target_level_size: DEFAULT_TARGET_LEVEL_SIZE,
        target_file_size: DEFAULT_TARGET_FILE_SIZE,
        fault: None,
    }
}

impl Default for DbOptions {
    fn default() -> (options: Self)
        ensures
            options == default_options(),
    {
        DbOptions {
            flush_threshold: DEFAULT_FLUSH_THRESHOLD,
            l0_compaction_threshold: DEFAULT_L0_COMPACTION_THRESHOLD,
            level_size_multiplier: DEFAULT_LEVEL_SIZE_MULTIPLIER,
            target_level_size: DEFAULT_TARGET_LEVEL_SIZE,
            target_file_size: DEFAULT_TARGET_FILE_SIZE,
            fault: None,
        }
    }
}

/// The budgets that the options set.
pub open spec fn config_of(options: DbOptions) -> LevelConfig {
    LevelConfig {
        l0_compaction_threshold: if options.l0_compaction_threshold < 1 {
            1
        } else {
            options.l0_compaction_threshold
        },
        level_size_multiplier: if options.level_size_multiplier < 2 {
            2
        } else {
            options.level_size_multiplier as u64
        },
        target_level_size: if options.target_level_size < 1 {
            1
        } else {
            options.target_level_size as u64
        },
    }
}

impl DbOptions {
    pub fn level_config(&self) -> (config: LevelConfig)
        ensures
            config == config_of(*self),
            config.wf(),
    {
        LevelConfig::new(self.l0_compaction_threshold, self.level_size_multiplier, self.target_level_size)
    }
}

#[derive(Debug, Clone)]
pub enum MemtableEntry {
    Value(String),
    Tombstone,
}

impl Record for MemtableEntry {
    open spec fn stored(&self) -> Option<Seq<char>> {
        match self {
            MemtableEntry::Value(value) => Some(value@),
            MemtableEntry::Tombstone => None,
        }
    }
}

/// How often reads were answered from where.
#[derive(Debug, Clone, Copy, PartialEq, Eq)]
pub struct Counters {
    pub memtable_hits: u64,
    pub bloom_rejects: u64,
    pub block_reads: u64,
}

/// What a read found, and what it took to find it.
#[derive(Debug)]
pub struct Lookup {
    pub value: Option<String>,
    /// Whether the memtable had the value.
    pub memtable_hit: bool,
    /// The tables that were passed over because of their bloom filter.
    pub bloom_rejects: u64,
    /// The tables in which a block was read.
    pub block_reads: u64,
}

/// `std::sync::Arc::clone`: another handle to the same value.
#[verifier::external_body]
pub(crate) fn share<T>(value: &Arc<T>) -> (shared: Arc<T>)
    ensures
        *shared == **value,
{
    Arc::clone(value)
}

pub open spec fn table_state(table: SSTable) -> TableState {
    TableState { id: table.table_id(), path: table.path_text(), bytes: table.bytes() }
}

pub open spec fn table_states(files: Seq<Arc<SSTable>>) -> Seq<TableState> {
    Seq::new(files.len(), |i: int| table_state(*files[i]))
}

spec fn files_wf(files: Seq<Arc<SSTable>>) -> bool {
    forall|i: int| 0 <= i < files.len() ==> (#[trigger] files[i]).wf()
}

fn contains_id(ids: &Vec<u64>, id: u64) -> (found: bool)
    ensures
        found == ids@.contains(id),
{
    let mut i: usize = 0;
    while i < ids.len()
        invariant
            i <= ids@.len(),
            forall|j: int| 0 <= j < i ==> ids@[j] != id,
        decreases ids@.len() - i,
    {
        if ids[i] == id {
            return true;
        }
        i = i + 1;
    }
    false
}

pub open spec fn level_states(levels: Seq<Vec<Arc<SSTable>>>) -> Levels {
    Seq::new(levels.len(), |l: int| table_states(levels[l]@))
}

/// Whether the bloom filter of a table admits a key.
pub open spec fn admits(table: TableState, key: Seq<char>) -> bool {
    filter_bytes_has((parse_table(table.bytes)->Ok_0).filter, key)
}

/// The tables of a level in the order in which they are read.
pub open spec fn newest_first(files: Seq<TableState>) -> Seq<TableState> {
    Seq::new(files.len(), |i: int| files[files.len() - 1 - i])
}

/// All tables in the order in which they are read.
pub open spec fn read_tables(levels: Levels) -> Seq<TableState>
    decreases levels.len(),
{
    if levels.len() == 0 {
        Seq::empty()
    } else {
        newest_first(levels[0]) + read_tables(levels.skip(1))
    }
}

/// What reading the tables one by one finds, and what it takes.
pub struct Probe {
    pub stored: Option<Option<Seq<char>>>,
    pub rejects: nat,
    pub reads: nat,
}

pub open spec fn probe_tables(tables: Seq<TableState>, key: Seq<char>) -> Probe
    decreases tables.len(),
{
    if tables.len() == 0 {
        Probe { stored: None, rejects: 0, reads: 0 }
    } else {
        let rest = probe_tables(tables.skip(1), key);
        if !admits(tables[0], key) {
            Probe { rejects: rest.rejects + 1, ..rest }
        } else if tables[0].holds(key) {
            Probe { stored: tables[0].get(key), rejects: 0, reads: 1 }
        } else {
            Probe { reads: rest.reads + 1, ..rest }
        }
    }
}

/// A count as 64 bits hold it.
pub open spec fn wrapped(count: int) -> u64 {
    (count % 18446744073709551616) as u64
}

pub open spec fn text_of(value: Option<String>) -> Option<Seq<char>> {
    match value {
        Some(value) => Some(value@),
        None => None,
    }
}

/// What a read of `key` finds and takes.
pub open spec fn is_lookup(found: Lookup, memtable: Seq<Row>, levels: Levels, key: Seq<char>) -> bool {
    &&& text_of(found.value) == contents(memtable, levels, key)
    &&& found.memtable_hit == (rows_get(memtable, key) matches Some(Some(_)))
    &&& found.bloom_rejects == (if has_key(memtable, key) {
        0
    } else {
        wrapped(probe_tables(read_tables(levels), key).rejects as int)
    })
    &&& found.block_reads == (if has_key(memtable, key) {
        0
    } else {
        wrapped(probe_tables(read_tables(levels), key).reads as int)
    })
}

proof fn lemma_table_state(table: &SSTable)
    requires
        table.wf(),
    ensures
        table_state(*table).wf(),
        table_state(*table).rows() == table.rows(),
        sorted(table.rows()),
        forall|key: Seq<char>| #[trigger] table_state(*table).holds(key) ==> admits(table_state(*table), key),
{
    table.lemma_wf();
    assert forall|key: Seq<char>| #[trigger] table_state(*table).holds(key) implies admits(table_state(*table), key) by {
        assert(has_key(table.rows(), key));
        assert(table.filter_admits(key));
    }
}

proof fn lemma_admits(table: TableState, key: Seq<char>)
    requires
        table.wf(),
        table.holds(key),
    ensures
        admits(table, key),
{
    let i = crate::rows::index_of_key(table.rows(), key);
    assert(filter_bytes_has((parse_table(table.bytes)->Ok_0).filter, table.rows()[i].0));
}

proof fn lemma_probe_concat(a: Seq<TableState>, b: Seq<TableState>, key: Seq<char>)
    requires
        forall|i: int| 0 <= i < a.len() ==> (#[trigger] a[i]).wf(),
    ensures
        probe_tables(a + b, key).stored == (if probe_tables(a, key).stored is Some {
            probe_tables(a, key).stored
        } else {
            probe_tables(b, key).stored
        }),
        forall|i: int| 0 <= i < a.len() && (#[trigger] a[i]).holds(key) ==> probe_tables(a, key).stored is Some,
    decreases a.len(),
{
    if a.len() == 0 {
        assert(a + b =~= b);
    } else {
        assert((a + b).skip(1) =~= a.skip(1) + b);
        let rest = a.skip(1);
        assert forall|i: int| 0 <= i < rest.len() implies (#[trigger] rest[i]).wf() by {
            assert(rest[i] == a[i + 1]);
        }
        lemma_probe_concat(rest, b, key);
        assert forall|i: int| 0 <= i < a.len() && (#[trigger] a[i]).holds(key) implies probe_tables(a, key).stored
            is Some by {
            if i == 0 {
                lemma_admits(a[0], key);
            } else {
                assert(rest[i - 1].holds(key));
                if admits(a[0], key) && a[0].holds(key) {
                    crate::levels::lemma_get_holds(a[0], key);
                }
            }
        }
    }
}

proof fn lemma_probe_level(files: Seq<TableState>, key: Seq<char>)
    requires
        forall|i: int| 0 <= i < files.len() ==> (#[trigger] files[i]).wf(),
    ensures
        probe_tables(newest_first(files), key).stored == crate::levels::level_get(files, key),
    decreases files.len(),
{
    let order = newest_first(files);
    if files.len() > 0 {
        let before = files.drop_last();
        assert forall|i: int| 0 <= i < before.len() implies (#[trigger] before[i]).wf() by {
            assert(before[i] == files[i]);
        }
        lemma_probe_level(before, key);
        assert(order.skip(1) =~= newest_first(before));
        assert(order[0] == files.last());
        assert(files[files.len() - 1].wf());
        if files.last().holds(key) {
            lemma_admits(files.last(), key);
        }
    }
}

/// Bloom filters do not change what is found.
proof fn lemma_probe(levels: Levels, key: Seq<char>)
    requires
        levels_wf(levels),
    ensures
        probe_tables(read_tables(levels), key).stored == levels_get(levels, key),
    decreases levels.len(),
{
    if levels.len() > 0 {
        let rest = levels.skip(1);
        assert forall|l: int, i: int| 0 <= l < rest.len() && 0 <= i < rest[l].len() implies (#[trigger] rest[l][i]).wf() by {
            assert(rest[l][i] == levels[l + 1][i]);
        }
        lemma_probe(rest, key);
        let files = levels[0];
        let order = newest_first(files);
        assert forall|i: int| 0 <= i < files.len() implies (#[trigger] files[i]).wf() by {
            assert(levels[0][i].wf());
        }
        assert forall|i: int| 0 <= i < order.len() implies (#[trigger] order[i]).wf() by {
            assert(files[files.len() - 1 - i].wf());
        }
        lemma_probe_concat(order, read_tables(rest), key);
        lemma_probe_level(files, key);
        crate::levels::lemma_level_get(files, key);
    }
}

/// Whether an operation succeeded, and the error where it did not.
pub open spec fn outcome_of<T>(result: Result<T>) -> Result<()> {
    match result {
        Ok(_) => Ok(()),
        Err(error) => Err(error),
    }
}

/// The state of a database.
pub struct DbModel {
    pub memtable: Seq<Row>,
    pub tree: TreeState,
    pub trail: Run,
    pub options: DbOptions,
    pub wal_size: u64,
    pub metrics: MetricsState,
    pub counters: Counters,
}

/// Whether `after` is `before` with a read of `key` counted.
pub open spec fn is_read(before: DbModel, key: Seq<char>, after: DbModel) -> bool {
    exists|found: Lookup| #[trigger]
        is_lookup(found, before.memtable, before.tree.levels, key) && after == (DbModel {
            counters: counted(before.counters, found),
            ..before
        })
}

/// Whether `after` is what is left of `before` when the merges that are due have been made, one
/// by one, until none was due or one was stopped; `rounds` of them were begun.
pub open spec fn compacted_in(before: DbModel, after: DbModel, result: Result<()>, rounds: nat) -> bool {
    let config = config_of(before.options);
    let target = before.options.target_file_size as int;
    let run = run_from(before.trail, rounds_steps(before.tree, config, target, rounds));
    &&& rounds_due(before.tree, config, target, rounds)
    &&& tells(run, result)
    &&& reaches(run, after.trail)
    &&& match result {
        Ok(_) => {
            let tree = tree_after_rounds(before.tree, config, target, rounds);
            &&& due_job(tree, config, target) is None
            &&& after == (DbModel {
                tree,
                metrics: metrics_after_rounds(before.metrics, before.tree, config, target, rounds),
                trail: after.trail,
                ..before
            })
        },
        Err(_) => {
            let done = (rounds - 1) as nat;
            let tree = tree_after_rounds(before.tree, config, target, done);
            let start = run_from(before.trail, rounds_steps(before.tree, config, target, done));
            &&& rounds >= 1
            &&& start.stop is None
            &&& after == (DbModel {
                tree: tree_after_attempt(tree, start, due_job(tree, config, target)->Some_0),
                metrics: metrics_after_rounds(before.metrics, before.tree, config, target, done),
                trail: after.trail,
                ..before
            })
        },
    }
}

/// Whether `after` is what is left of `before` when the merges that are due have been made.
pub open spec fn compacted(before: DbModel, after: DbModel, result: Result<()>) -> bool {
    after.trail.stop is None && exists|rounds: nat| compacted_in(before, after, result, rounds)
}

/// What is left when the writing of the memtable to a table was stopped before the levels changed.
pub open spec fn flush_cut_short(before: DbModel) -> DbModel {
    let steps = flush_steps_before(before.memtable, before.tree.next_id);
    DbModel {
        tree: TreeState {
            levels: before.tree.levels,
            next_id: if before.tree.next_id < u64::MAX {
                before.tree.next_id + 1
            } else {
                before.tree.next_id
            },
        },
        wal_size: if run_from(before.trail, steps.take(9)).stop is None {
            0
        } else {
            before.wal_size
        },
        metrics: if run_from(before.trail, steps.take(12)).stop is None {
            metrics_with_flushed(before)
        } else {
            before.metrics
        },
        ..before
    }
}

/// The totals with the bytes of one more memtable.
pub open spec fn metrics_with_flushed(before: DbModel) -> MetricsState {
    MetricsState {
        bytes_flushed: plus(
            before.metrics.bytes_flushed,
            table_bytes(before.memtable, DEFAULT_BLOCK_SIZE).len() as u64,
        ),
        ..before.metrics
    }
}

/// The state when the memtable has been written to a table.
pub open spec fn flush_done(before: DbModel) -> DbModel {
    DbModel {
        memtable: Seq::empty(),
        tree: TreeState {
            levels: levels_with_flushed(before.tree.levels, new_table(0, before.tree.next_id, before.memtable)),
            next_id: before.tree.next_id + 1,
        },
        wal_size: 0,
        metrics: metrics_with_flushed(before),
        ..before
    }
}

/// Whether `after` is what is left of `before` when the memtable has been written to a table and
/// the merges that were then due have been made, or when that was stopped.
#[verifier::opaque]
pub open spec fn flushed(before: DbModel, after: DbModel, result: Result<()>) -> bool {
    let run_before = run_from(before.trail, flush_steps_before(before.memtable, before.tree.next_id));
    let run = run_from(before.trail, flush_steps(before.memtable, before.tree.next_id));
    if before.memtable.len() == 0 {
        result is Ok && after == before
    } else if run_before.stop is Some {
        &&& tells(run_before, result)
        &&& reaches(run_before, after.trail)
        &&& after.trail.stop is None
        &&& after == (DbModel { trail: after.trail, ..flush_cut_short(before) })
    } else if run.stop is Some {
        &&& tells(run, result)
        &&& reaches(run, after.trail)
        &&& after.trail.stop is None
        &&& after == (DbModel { trail: after.trail, ..flush_done(before) })
    } else {
        compacted(DbModel { trail: run, ..flush_done(before) }, after, result)
    }
}

/// The state when a row has gone to the log; it is in the log, though perhaps not on the device,
/// unless the write was stopped before that.
pub open spec fn row_logged(before: DbModel, row: Row) -> DbModel {
    DbModel {
        wal_size: if run_from(before.trail, log_steps(row).take(2)).stop is None {
            at_most(before.wal_size + log_entry(row).len(), u64::MAX as int) as u64
        } else {
            before.wal_size
        },
        ..before
    }
}

/// The state when a row has gone to the log and to the memtable.
pub open spec fn row_applied(before: DbModel, row: Row) -> DbModel {
    DbModel { memtable: upsert(before.memtable, row), ..row_logged(before, row) }
}

/// Whether `after` is what is left of `before` when a row has been written: to the log, to the
/// memtable, and to a table where the memtable is full.
#[verifier::opaque]
pub open spec fn written(before: DbModel, row: Row, after: DbModel, result: Result<()>) -> bool {
    let logging = run_from(before.trail, log_steps(row));
    let run = run_from(before.trail, apply_steps(row));
    if logging.stop is Some {
        &&& tells(logging, result)
        &&& reaches(logging, after.trail)
        &&& after.trail.stop is None
        &&& after == (DbModel { trail: after.trail, ..row_logged(before, row) })
    } else if run.stop is Some {
        &&& tells(run, result)
        &&& reaches(run, after.trail)
        &&& after.trail.stop is None
        &&& after == (DbModel { trail: after.trail, ..row_applied(before, row) })
    } else {
        let applied = DbModel { trail: run, ..row_applied(before, row) };
        if applied.memtable.len() >= before.options.flush_threshold {
            flushed(applied, after, result)
        } else {
            result is Ok && after == applied
        }
    }
}

/// Whether `after` is what is left of `before` when all tables have been merged into one; there
/// is nothing to do where there are not two of them.
pub open spec fn fully_compacted(before: DbModel, after: DbModel, result: Result<()>) -> bool {
    let job = full_job(before.tree.levels);
    let run = run_from(before.trail, job_steps(job, before.tree.next_id));
    if all_placed(before.tree.levels).len() <= 1 {
        result is Ok && after == before
    } else {
        &&& tells(run, result)
        &&& reaches(run, after.trail)
        &&& after.trail.stop is None
        &&& after == (DbModel {
            tree: tree_after_attempt(before.tree, before.trail, job),
            metrics: if result is Ok {
                recorded(before.metrics, None, job_outcome(job, before.tree.next_id))
            } else {
                before.metrics
            },
            trail: after.trail,
            ..before
        })
    }
}

pub struct PebbleDB {
    memtable: KeyMap<MemtableEntry>,
    wal: WalWriter,
    levels: Vec<Vec<Arc<SSTable>>>,
    next_sst_id: u64,
    options: DbOptions,
    counters: Counters,
    metrics: Metrics,
    fault: FaultInjector,
    journal: Vec<DiskOp>,
}

impl PebbleDB {
    pub closed spec fn model(&self) -> DbModel {
        DbModel {
            memtable: self.memtable.rows(),
            tree: self.tree(),
            trail: self.trail(),
            options: self.options,
            wal_size: self.wal.bytes(),
            metrics: self.metrics.state(),
            counters: self.counters,
        }
    }

    spec fn tree(&self) -> TreeState {
        TreeState { levels: level_states(self.levels@), next_id: self.next_sst_id as int }
    }

    spec fn trail(&self) -> Run {
        Run { injector: self.fault, ops: ops_of(self.journal@), stop: None }
    }

    pub closed spec fn wf(&self) -> bool {
        &&& self.memtable.wf()
        &&& self.tables_wf()
        &&& 1 <= self.levels@.len() <= 4294967296
        &&& self.wal.name() == wal_name()
    }

    spec fn tables_wf(&self) -> bool {
        forall|l: int, i: int|
            0 <= l < self.levels@.len() && 0 <= i < self.levels@[l]@.len() ==> (#[trigger] self.levels@[l]@[i]).wf()
    }

    /// What holds of the state of a database.
    pub proof fn lemma_wf(&self)
        requires
            self.wf(),
        ensures
            sorted(self.model().memtable),
            levels_wf(self.model().tree.levels),
            level_count_ok(self.model().tree.levels),
            1 <= self.model().tree.levels.len(),
            0 <= self.model().tree.next_id <= u64::MAX,
            self.model().trail.stop is None,
    {
        self.lemma_levels();
    }

    proof fn lemma_levels(&self)
        requires
            self.tables_wf(),
        ensures
            levels_wf(level_states(self.levels@)),
            level_states(self.levels@).len() == self.levels@.len(),
    {
        let states = level_states(self.levels@);
        assert forall|l: int, i: int| 0 <= l < states.len() && 0 <= i < states[l].len() implies (#[trigger] states[l][i]).wf() by {
            assert(self.levels@[l]@[i].wf());
            lemma_table_state(&self.levels@[l]@[i]);
        }
    }

    /// Whether nothing else than the journal, the fault and the next id differ.
    spec fn same_apart_from_trail(&self, other: &PebbleDB) -> bool {
        &&& self.memtable == other.memtable
        &&& self.wal == other.wal
        &&& self.levels == other.levels
        &&& self.options == other.options
        &&& self.counters == other.counters
        &&& self.metrics == other.metrics
    }

    /// Whether nothing else than the levels differ.
    spec fn same_apart_from_levels(&self, other: &PebbleDB) -> bool {
        &&& self.memtable == other.memtable
        &&& self.wal == other.wal
        &&& self.next_sst_id == other.next_sst_id
        &&& self.options == other.options
        &&& self.counters == other.counters
        &&& self.metrics == other.metrics
        &&& self.fault == other.fault
        &&& self.journal == other.journal
    }

    /// Adds an operation to the journal.
    fn do_op(&mut self, op: DiskOp)
        ensures
            final(self).same_apart_from_trail(old(self)),
            final(self).next_sst_id == old(self).next_sst_id,
            final(self).fault == old(self).fault,
            ops_of(final(self).journal@) == ops_of(old(self).journal@).push(op.op()),
    {
        self.journal.push(op);
        proof {
            assert(ops_of(self.journal@) =~= ops_of(old(self).journal@).push(op.op()));
        }
    }

    /// What is stored under `key`, and what it takes to find it.
    pub fn lookup(&self, key: &str) -> (found: Lookup)
        requires
            self.wf(),
        ensures
            is_lookup(found, self.model().memtable, self.model().tree.levels, key@),
    {
        let ghost memtable = self.memtable.rows();
        let ghost states = level_states(self.levels@);
        proof {
            self.lemma_levels();
            lemma_lookup(memtable, states, key@);
            lemma_probe(states, key@);
        }
        match self.memtable.get(key) {
            Some(MemtableEntry::Value(value)) => {
                return Lookup { value: Some(value.clone()), memtable_hit: true, bloom_rejects: 0, block_reads: 0 };
            },
            Some(MemtableEntry::Tombstone) => {
                return Lookup { value: None, memtable_hit: false, bloom_rejects: 0, block_reads: 0 };
            },
            None => {},
        }
        let ghost whole = probe_tables(read_tables(states), key@);
        let mut rejects: u64 = 0;
        let mut reads: u64 = 0;
        let ghost mut rejected: nat = 0;
        let ghost mut read: nat = 0;
        let mut level: usize = 0;
        proof {
            assert(states.skip(0) =~= states);
        }
        while level < self.levels.len()
            invariant
                self.wf(),
                memtable == self.memtable.rows(),
                !has_key(memtable, key@),
                rows_get(memtable, key@) is None,
                states == level_states(self.levels@),
                whole == probe_tables(read_tables(states), key@),
                whole.stored == levels_get(states, key@),
                lookup(memtable, states, key@) == levels_get(states, key@),
                level <= self.levels@.len(),
                whole == added(probe_tables(read_tables(states.skip(level as int)), key@), rejected, read),
                rejects == wrapped(rejected as int),
                reads == wrapped(read as int),
            decreases self.levels@.len() - level,
        {
            let files = &self.levels[level];
            let ghost below = states.skip(level as int);
            let ghost tables = table_states(files@);
            let ghost rest = read_tables(below.skip(1));
            let mut left: usize = files.len();
            proof {
                assert(below[0] == tables);
                assert(newest_first(tables) =~= newest_first(tables.take(left as int)));
                assert(below.skip(1) =~= states.skip(level + 1));
            }
            while left > 0
                invariant
                    self.wf(),
                    memtable == self.memtable.rows(),
                    !has_key(memtable, key@),
                    rows_get(memtable, key@) is None,
                    states == level_states(self.levels@),
                    whole == probe_tables(read_tables(states), key@),
                    whole.stored == levels_get(states, key@),
                    lookup(memtable, states, key@) == levels_get(states, key@),
                    level < self.levels@.len(),
                    *files == self.levels@[level as int],
                    tables == table_states(files@),
                    left <= files@.len(),
                    whole == added(
                        probe_tables(newest_first(tables.take(left as int)) + rest, key@),
                        rejected,
                        read,
                    ),
                    rejects == wrapped(rejected as int),
                    reads == wrapped(read as int),
                decreases left,
            {
                let sst = &files[left - 1];
                let ghost state = tables[left - 1];
                proof {
                    assert(self.levels@[level as int]@[left - 1].wf());
                    lemma_table_state(sst);
                    let order = newest_first(tables.take(left as int)) + rest;
                    assert(order[0] == state);
                    assert(order.skip(1) =~= newest_first(tables.take(left - 1)) + rest);
                    assert(state == table_state(**sst));
                }
                left = left - 1;
                if !sst.bloom_might_contain(key) {
                    rejects = rejects.wrapping_add(1);
                    proof {
                        rejected = rejected + 1;
                    }
                } else {
                    reads = reads.wrapping_add(1);
                    proof {
                        read = read + 1;
                    }
                    match sst.get(key) {
                        Some(SSTableEntry::Value(value)) => {
                            return Lookup {
                                value: Some(value),
                                memtable_hit: false,
                                bloom_rejects: rejects,
                                block_reads: reads,
                            };
                        },
                        Some(SSTableEntry::Tombstone) => {
                            return Lookup {
                                value: None,
                                memtable_hit: false,
                                bloom_rejects: rejects,
                                block_reads: reads,
                            };
                        },
                        None => {},
                    }
                }
            }
            proof {
                assert(newest_first(tables.take(0)) + rest =~= rest);
            }
            level = level + 1;
        }
        proof {
            assert(states.skip(level as int) =~= Seq::<Seq<TableState>>::empty());
        }
        Lookup { value: None, memtable_hit: false, bloom_rejects: rejects, block_reads: reads }
    }

    /// The value of `key`.
    pub fn get(&mut self, key: &str) -> (value: Option<String>)
        requires
            old(self).wf(),
        ensures
            final(self).wf(),
            text_of(value) == contents(old(self).model().memtable, old(self).model().tree.levels, key@),
            is_read(old(self).model(), key@, final(self).model()),
    {
        let found = self.lookup(key);
        let ghost before = *self;
        let ghost result = found;
        if found.memtable_hit {
            self.counters.memtable_hits = self.counters.memtable_hits.wrapping_add(1);
        }
        self.counters.bloom_rejects = self.counters.bloom_rejects.wrapping_add(found.bloom_rejects);
        self.counters.block_reads = self.counters.block_reads.wrapping_add(found.block_reads);
        proof {
            assert(self.model() == (DbModel { counters: counted(before.model().counters, result), ..before.model() }));
        }
        found.value
    }

    /// The value of `key`; nothing is counted.
    fn get_inner(&self, key: &str) -> (value: Option<String>)
        requires
            self.wf(),
        ensures
            text_of(value) == contents(self.model().memtable, self.model().tree.levels, key@),
    {
        self.lookup(key).value
    }

    pub fn contains_key(&mut self, key: &str) -> (found: bool)
        requires
            old(self).wf(),
        ensures
            final(self).wf(),
            found == (contents(old(self).model().memtable, old(self).model().tree.levels, key@) is Some),
            is_read(old(self).model(), key@, final(self).model()),
    {
        self.get(key).is_some()
    }

    /// The live keys between two bounds, as they are now.
    pub fn range(&self, start: Bound, end: Bound) -> (iter: RangeIterator<SourceIterator>)
        requires
            self.wf(),
        ensures
            iter.wf(),
            iter.all_rows() == live_rows(merge_rows(read_sources(self.model().memtable, self.model().tree.levels))),
            iter.start_bound() == start,
            iter.end_bound() == end,
            iter.pos() == 0,
    {
        let mut children: Vec<SourceIterator> = Vec::new();
        children.push(SourceIterator::Memtable(MemtableIterator::new(&self.memtable)));
        let ghost states = level_states(self.levels@);
        let mut level: usize = 0;
        proof {
            assert(states.take(0) =~= Seq::<Seq<TableState>>::empty());
            assert(source_rows(children@) =~= read_sources(self.memtable.rows(), states.take(0)));
        }
        while level < self.levels.len()
            invariant
                self.wf(),
                level <= self.levels@.len(),
                states == level_states(self.levels@),
                all_wf(children@),
                source_rows(children@) == read_sources(self.memtable.rows(), states.take(level as int)),
            decreases self.levels@.len() - level,
        {
            let files = &self.levels[level];
            let ghost tables = table_states(files@);
            let ghost before = source_rows(children@);
            let mut left: usize = files.len();
            proof {
                assert(before + Seq::<Seq<Row>>::empty() =~= before);
                assert(level_sources(tables).take(0) =~= Seq::<Seq<Row>>::empty());
            }
            while left > 0
                invariant
                    self.wf(),
                    level < self.levels@.len(),
                    *files == self.levels@[level as int],
                    tables == table_states(files@),
                    left <= files@.len(),
                    all_wf(children@),
                    source_rows(children@) == before + level_sources(tables).take(files@.len() - left),
                decreases left,
            {
                proof {
                    assert(self.levels@[level as int]@[left - 1].wf());
                    lemma_table_state(&self.levels@[level as int]@[left - 1]);
                }
                left = left - 1;
                let child = SourceIterator::Table(SSTableIterator::new(share(&files[left])));
                let ghost earlier = children@;
                children.push(child);
                proof {
                    let n = files@.len() - left;
                    assert(source_rows(children@) =~= source_rows(earlier).push(child.rows()));
                    assert(level_sources(tables)[n - 1] == tables[left as int].rows());
                    assert(level_sources(tables).take(n) =~= level_sources(tables).take(n - 1).push(child.rows()));
                    assert((before + level_sources(tables).take(n - 1)).push(child.rows()) =~= before + level_sources(
                        tables,
                    ).take(n));
                }
            }
            proof {
                assert(level_sources(tables).take(files@.len() as int) =~= level_sources(tables));
                assert(states.take(level + 1).drop_last() =~= states.take(level as int));
                assert(read_sources(self.memtable.rows(), states.take(level + 1)) =~= before + level_sources(tables));
            }
            level = level + 1;
        }
        proof {
            assert(states.take(level as int) =~= states);
        }
        let iter = RangeIterator::new(MergeIterator::new(children), start, end);
        proof {
            iter.lemma_wf();
        }
        iter
    }

    /// All live keys with their values, in key order.
    pub fn scan(&self) -> (pairs: Vec<(String, String)>)
        requires
            self.wf(),
        ensures
            pair_rows(pairs@) == live_rows(merge_rows(read_sources(self.model().memtable, self.model().tree.levels))),
            forall|i: int, j: int|
                0 <= i < j < pairs@.len() ==> key_lt((#[trigger] pairs@[i]).0@, (#[trigger] pairs@[j]).0@),
            forall|i: int|
                0 <= i < pairs@.len() ==> contents(
                    self.model().memtable,
                    self.model().tree.levels,
                    (#[trigger] pairs@[i]).0@,
                ) == Some(pairs@[i].1@),
            forall|key: Seq<char>| #[trigger]
                contents(self.model().memtable, self.model().tree.levels, key) is Some ==> exists|i: int|
                    0 <= i < pairs@.len() && (#[trigger] pairs@[i]).0@ == key,
    {
        let iter = self.range(Bound::Unbounded, Bound::Unbounded);
        proof {
            self.lemma_all_live();
            let rows = iter.all_rows();
            assert(iter.rows() =~= rows);
            lemma_live_run(rows, 0);
            assert(rows.subrange(0, rows.len() as int) =~= rows);
        }
        let pairs = iter.collect();
        proof {
            self.lemma_scan_pairs(pairs@);
        }
        pairs
    }

    proof fn lemma_scan_pairs(&self, pairs: Seq<(String, String)>)
        requires
            self.wf(),
            pair_rows(pairs) == live_rows(merge_rows(read_sources(self.model().memtable, self.model().tree.levels))),
        ensures
            forall|i: int, j: int|
                0 <= i < j < pairs.len() ==> key_lt((#[trigger] pairs[i]).0@, (#[trigger] pairs[j]).0@),
            forall|i: int|
                0 <= i < pairs.len() ==> contents(
                    self.model().memtable,
                    self.model().tree.levels,
                    (#[trigger] pairs[i]).0@,
                ) == Some(pairs[i].1@),
            forall|key: Seq<char>| #[trigger]
                contents(self.model().memtable, self.model().tree.levels, key) is Some ==> exists|i: int|
                    0 <= i < pairs.len() && (#[trigger] pairs[i]).0@ == key,
    {
        let memtable = self.model().memtable;
        let levels = self.model().tree.levels;
        let rows = pair_rows(pairs);
        self.lemma_levels();
        law_scan_is_the_contents(memtable, levels);
        assert forall|i: int, j: int| 0 <= i < j < pairs.len() implies key_lt(
            (#[trigger] pairs[i]).0@,
            (#[trigger] pairs[j]).0@,
        ) by {
            assert(key_lt(rows[i].0, rows[j].0));
        }
        assert forall|i: int| 0 <= i < pairs.len() implies contents(memtable, levels, (#[trigger] pairs[i]).0@) == Some(
            pairs[i].1@,
        ) by {
            assert(rows[i].1 == contents(memtable, levels, rows[i].0));
        }
        assert forall|key: Seq<char>| #[trigger] contents(memtable, levels, key) is Some implies exists|i: int|
            0 <= i < pairs.len() && (#[trigger] pairs[i]).0@ == key by {
            let i = choose|i: int| 0 <= i < rows.len() && (#[trigger] rows[i]).0 == key;
            assert(pairs[i].0@ == key);
        }
    }

    proof fn lemma_all_live(&self)
        requires
            self.wf(),
        ensures
            ({
                let rows = live_rows(merge_rows(read_sources(self.model().memtable, self.model().tree.levels)));
                &&& sorted(rows)
                &&& forall|i: int| 0 <= i < rows.len() ==> (#[trigger] rows[i]).1 is Some
            }),
    {
        let sources = read_sources(self.memtable.rows(), level_states(self.levels@));
        self.lemma_levels();
        lemma_sources_sorted(self.memtable.rows(), level_states(self.levels@));
        crate::rows::law_merge_newest_wins(sources);
        crate::rows::lemma_visible(merge_rows(sources), false);
    }

    /// All live keys in order.
    pub fn keys(&self) -> (keys: Vec<String>)
        requires
            self.wf(),
        ensures
            ({
                let rows = live_rows(merge_rows(read_sources(self.model().memtable, self.model().tree.levels)));
                &&& keys@.len() == rows.len()
                &&& forall|i: int| 0 <= i < keys@.len() ==> (#[trigger] keys@[i])@ == rows[i].0
            }),
            forall|i: int, j: int| 0 <= i < j < keys@.len() ==> key_lt((#[trigger] keys@[i])@, (#[trigger] keys@[j])@),
            forall|i: int|
                0 <= i < keys@.len() ==> contents(
                    self.model().memtable,
                    self.model().tree.levels,
                    (#[trigger] keys@[i])@,
                ) is Some,
            forall|key: Seq<char>| #[trigger]
                contents(self.model().memtable, self.model().tree.levels, key) is Some ==> exists|i: int|
                    0 <= i < keys@.len() && (#[trigger] keys@[i])@ == key,
    {
        let pairs = self.scan();
        let ghost rows = pair_rows(pairs@);
        let mut keys: Vec<String> = Vec::new();
        let mut i: usize = 0;
        while i < pairs.len()
            invariant
                i <= pairs@.len(),
                rows == pair_rows(pairs@),
                keys@.len() == i,
                forall|j: int| 0 <= j < i ==> (#[trigger] keys@[j])@ == rows[j].0,
            decreases pairs@.len() - i,
        {
            keys.push(pairs[i].0.clone());
            i = i + 1;
        }
        proof {
            assert forall|i: int, j: int| 0 <= i < j < keys@.len() implies key_lt(
                (#[trigger] keys@[i])@,
                (#[trigger] keys@[j])@,
            ) by {
                assert(key_lt(pairs@[i].0@, pairs@[j].0@));
            }
            assert forall|i: int| 0 <= i < keys@.len() implies contents(
                self.model().memtable,
                self.model().tree.levels,
                (#[trigger] keys@[i])@,
            ) is Some by {
                assert(pairs@[i].0@ == keys@[i]@);
            }
            assert forall|key: Seq<char>| #[trigger]
                contents(self.model().memtable, self.model().tree.levels, key) is Some implies exists|i: int|
                0 <= i < keys@.len() && (#[trigger] keys@[i])@ == key by {
                let i = choose|i: int| 0 <= i < pairs@.len() && (#[trigger] pairs@[i]).0@ == key;
                assert(keys@[i]@ == key);
            }
        }
        keys
    }
}

/// Counts added to what is still to come.
pub open spec fn added(rest: Probe, rejects: nat, reads: nat) -> Probe {
    Probe { stored: rest.stored, rejects: rest.rejects + rejects, reads: rest.reads + reads }
}

/// The counters after a read.
pub open spec fn counted(counters: Counters, found: Lookup) -> Counters {
    Counters {
        memtable_hits: if found.memtable_hit {
            counters.memtable_hits.wrapping_add(1)
        } else {
            counters.memtable_hits
        },
        bloom_rejects: counters.bloom_rejects.wrapping_add(found.bloom_rejects),
        block_reads: counters.block_reads.wrapping_add(found.block_reads),
    }
}

/// The sources of a database are sorted.
pub proof fn lemma_sources_sorted(memtable: Seq<Row>, levels: Levels)
    requires
        sorted(memtable),
        levels_wf(levels),
    ensures
        crate::rows::all_sorted(read_sources(memtable, levels)),
    decreases levels.len(),
{
    let sources = read_sources(memtable, levels);
    if levels.len() > 0 {
        let before = levels.drop_last();
        let last = levels.last();
        assert forall|l: int, i: int| 0 <= l < before.len() && 0 <= i < before[l].len() implies (#[trigger] before[l][i]).wf() by {
            assert(before[l][i] == levels[l][i]);
        }
        lemma_sources_sorted(memtable, before);
        let earlier = read_sources(memtable, before);
        assert(sources =~= earlier + level_sources(last));
        assert forall|i: int| 0 <= i < sources.len() implies sorted(#[trigger] sources[i]) by {
            if i < earlier.len() {
                assert(sources[i] == earlier[i]);
            } else {
                let j = i - earlier.len();
                let t = last[last.len() - 1 - j];
                assert(levels[levels.len() - 1][last.len() - 1 - j].wf());
                crate::levels::lemma_table_sorted(t);
                assert(sources[i] == t.rows());
            }
        }
    } else {
        assert(sources =~= seq![memtable]);
    }
}

}
