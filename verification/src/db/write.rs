//! Writing: to the log, to the memtable and to table files.
use crate::db::{
    compacted, flush_done, flushed, fully_compacted, level_states, outcome_of, table_state, table_states, written,
    DbModel, MemtableEntry, PebbleDB,
};
use crate::disk::{lemma_next, lemma_run_concat, lemma_stopped, reaches, run_from, tells, DiskOp, Run, Step};
use crate::engine::{apply_steps, contents, flush_steps, flush_steps_before, log_steps, write_steps};
use crate::error::{PebbleError, Result};
use crate::fault::FaultPoint;
use crate::keymap::{rows_of, KeyMap};
use crate::merge::{lemma_new_table, levels_with_flushed, new_table};
use crate::names::{sstable_file_name, tmp_file_name};
use crate::records::checked_record_size;
use crate::rows::Row;
use crate::sstable::{write_sstable, SSTable, SSTableEntry};
use crate::table::{table_len, DEFAULT_BLOCK_SIZE};
use crate::wal::WalRecord;
use std::sync::Arc;
use vstd::prelude::*;

verus! {

impl PebbleDB {
    /// Writes a table file.
    pub(super) fn write_level_file(&mut self, level: u32, entries: &KeyMap<SSTableEntry>) -> (result: Result<Arc<SSTable>>)
        requires
            entries.wf(),
        ensures
            ({
                let run = run_from(
                    old(self).trail(),
                    write_steps(level as int, old(self).next_sst_id as int, entries.rows()),
                );
                &&& tells(run, result)
                &&& reaches(run, final(self).trail())
            }),
            final(self).same_apart_from_trail(old(self)),
            final(self).next_sst_id == (if old(self).next_sst_id < u64::MAX {
                old(self).next_sst_id + 1
            } else {
                old(self).next_sst_id as int
            }),
            result matches Ok(table) ==> table.wf() && old(self).next_sst_id < u64::MAX && table_len(
                entries.rows(),
                DEFAULT_BLOCK_SIZE,
            ) <= u32::MAX && table_state(*table) == new_table(
                level as int,
                old(self).next_sst_id as int,
                entries.rows(),
            ),
    {
        let ghost start = self.trail();
        let ghost rows = entries.rows();
        let ghost steps = write_steps(level as int, self.next_sst_id as int, rows);
        let id: u64 = self.next_sst_id;
        proof {
            reveal(write_steps);
            lemma_next(start, steps, 0);
        }
        if id == u64::MAX {
            return Err(PebbleError::SSTableCorruption("table ids are used up".to_string()));
        }
        self.next_sst_id = id + 1;
        let file_name = sstable_file_name(level, id);
        let tmp_path = tmp_file_name(&file_name);
        proof {
            lemma_next(start, steps, 1);
        }
        match self.fault.hit(FaultPoint::BeforeSstableCreation) {
            Ok(()) => {},
            Err(error) => {
                return Err(error);
            },
        }
        proof {
            lemma_next(start, steps, 2);
        }
        let data = match write_sstable(entries) {
            Ok(data) => data,
            Err(error) => {
                return Err(error);
            },
        };
        proof {
            lemma_next(start, steps, 3);
        }
        let copy = crate::disk::copy_bytes(&data);
        self.do_op(DiskOp::Write { name: tmp_path.clone(), data: copy });
        proof {
            lemma_next(start, steps, 4);
        }
        match self.fault.hit(FaultPoint::AfterSstableWrite) {
            Ok(()) => {},
            Err(error) => {
                return Err(error);
            },
        }
        proof {
            lemma_next(start, steps, 5);
        }
        match self.fault.hit(FaultPoint::BeforeAtomicRename) {
            Ok(()) => {},
            Err(error) => {
                return Err(error);
            },
        }
        proof {
            lemma_next(start, steps, 6);
        }
        self.do_op(DiskOp::Rename { from: tmp_path, to: file_name.clone() });
        proof {
            lemma_next(start, steps, 7);
        }
        match self.fault.hit(FaultPoint::AfterAtomicRename) {
            Ok(()) => {},
            Err(error) => {
                return Err(error);
            },
        }
        proof {
            lemma_new_table(level as int, id as int, rows);
        }
        match SSTable::load(id, file_name, data) {
            Ok(table) => Ok(Arc::new(table)),
            Err(error) => Err(error),
        }
    }

    /// The memtable as the entries of a table.
    fn memtable_entries(&self) -> (entries: KeyMap<SSTableEntry>)
        requires
            self.wf(),
        ensures
            entries.wf(),
            entries.rows() == self.memtable.rows(),
    {
        let mut entries: Vec<(String, SSTableEntry)> = Vec::new();
        let ghost rows = self.memtable.rows();
        let mut i: usize = 0;
        while i < self.memtable.len()
            invariant
                rows == self.memtable.rows(),
                i <= rows.len(),
                entries@.len() == i,
                forall|j: int| 0 <= j < i ==> #[trigger] rows_of(entries@)[j] == rows[j],
            decreases rows.len() - i,
        {
            let entry = self.memtable.entry(i);
            let copy = match &entry.1 {
                MemtableEntry::Value(value) => SSTableEntry::Value(value.clone()),
                MemtableEntry::Tombstone => SSTableEntry::Tombstone,
            };
            let ghost before = entries@;
            entries.push((entry.0.clone(), copy));
            proof {
                assert forall|j: int| 0 <= j < i + 1 implies #[trigger] rows_of(entries@)[j] == rows[j] by {
                    if j < i {
                        assert(rows_of(entries@)[j] == rows_of(before)[j]);
                    }
                }
            }
            i = i + 1;
        }
        proof {
            assert(rows_of(entries@) =~= rows);
        }
        KeyMap::from_sorted(entries)
    }

    /// Writes the memtable to a table of level 0, then makes the merges that are due.
    fn flush_memtable(&mut self) -> (result: Result<()>)
        requires
            old(self).wf(),
        ensures
            final(self).wf(),
            flushed(old(self).model(), final(self).model(), result),
    {
        proof {
            reveal(flushed);
        }
        if self.memtable.is_empty() {
            return Ok(());
        }
        let ghost before = self.model();
        let ghost start = self.trail();
        let ghost next = self.next_sst_id as int;
        let ghost rows = self.memtable.rows();
        let ghost writing = write_steps(0, next, rows);
        let ghost steps = flush_steps_before(rows, next);
        let ghost whole = flush_steps(rows, next);
        let ghost run_1 = run_from(start, writing);
        proof {
            lemma_write_steps_len(0, next, rows);
            assert(steps.take(8) =~= writing);
            assert(steps.skip(8) + Seq::<Step>::empty() =~= steps.skip(8));
            lemma_parts(start, steps, 8);
            if run_1.stop is Some {
                lemma_stays_stopped(start, steps, 8, 9);
                lemma_stays_stopped(start, steps, 8, 12);
            }
            assert(whole.take(13) =~= steps);
            lemma_parts(start, whole, 13);
        }
        let entries = self.memtable_entries();
        let table = match self.write_level_file(0, &entries) {
            Ok(table) => table,
            Err(error) => {
                return Err(error);
            },
        };
        proof {
            lemma_next(start, steps, 8);
        }
        match self.fault.hit(FaultPoint::BeforeWalTruncation) {
            Ok(()) => {},
            Err(error) => {
                proof {
                    lemma_stays_stopped(start, steps, 9, 12);
                }
                return Err(error);
            },
        }
        proof {
            lemma_next(start, steps, 9);
            lemma_next(start, steps, 10);
            lemma_next(start, steps, 11);
        }
        self.wal.truncate(&mut self.journal);
        match self.fault.hit(FaultPoint::AfterWalTruncation) {
            Ok(()) => {},
            Err(error) => {
                return Err(error);
            },
        }
        self.metrics.bytes_flushed = self.metrics.bytes_flushed.saturating_add(table.file_size() as u64);
        proof {
            lemma_next(start, steps, 12);
            assert(whole[13] == Step::Point(FaultPoint::AfterMetadataUpdate));
        }
        match self.fault.hit(FaultPoint::BeforeMetadataUpdate) {
            Ok(()) => {},
            Err(error) => {
                return Err(error);
            },
        }
        let ghost levels = self.levels@;
        self.push_flushed(table);
        self.memtable.clear();
        proof {
            lemma_next(start, whole, 13);
            assert(self.model() == (DbModel { trail: self.trail(), ..flush_done(before) }));
        }
        match self.fault.hit(FaultPoint::AfterMetadataUpdate) {
            Ok(()) => {},
            Err(error) => {
                return Err(error);
            },
        }
        self.compact_pending()
    }

    /// Adds the newest table to level 0.
    fn push_flushed(&mut self, table: Arc<SSTable>)
        requires
            old(self).wf(),
            table.wf(),
        ensures
            final(self).wf(),
            final(self).same_apart_from_levels(old(self)),
            level_states(final(self).levels@) == levels_with_flushed(
                level_states(old(self).levels@),
                table_state(*table),
            ),
    {
        let ghost before = self.levels@;
        self.levels[0].push(table);
        proof {
            let after = self.levels@;
            assert forall|l: int, i: int| 0 <= l < after.len() && 0 <= i < after[l]@.len() implies (
            #[trigger] after[l]@[i]).wf() by {
                if l > 0 || i < before[0]@.len() {
                    assert(before[l]@[i].wf());
                }
            }
            assert(table_states(after[0]@) =~= table_states(before[0]@).push(table_state(*table)));
            assert(level_states(after) =~= levels_with_flushed(level_states(before), table_state(*table)));
        }
    }

    /// Writes a row.
    fn write_row(&mut self, record: WalRecord) -> (result: Result<()>)
        requires
            old(self).wf(),
        ensures
            final(self).wf(),
            written(old(self).model(), record.row(), final(self).model(), result),
    {
        let ghost start = self.trail();
        let ghost row = record.row();
        let ghost logging = log_steps(row);
        let ghost whole = apply_steps(row);
        proof {
            reveal(written);
            lemma_next(start, logging, 0);
            lemma_next(start, logging, 1);
            lemma_next(start, logging, 2);
            lemma_next(start, logging, 3);
            lemma_next(start, logging, 4);
            lemma_next(start, logging, 5);
            assert(logging.take(0) =~= Seq::<Step>::empty());
            assert(whole.take(6) =~= logging);
            lemma_parts(start, whole, 6);
            lemma_next(start, whole, 6);
        }
        match self.fault.hit(FaultPoint::BeforeWalAppend) {
            Ok(()) => {},
            Err(error) => {
                return Err(error);
            },
        }
        let size = match &record {
            WalRecord::Put { key, value } => checked_record_size(key, Some(value.as_str())),
            WalRecord::Delete { key } => checked_record_size(key, None),
        };
        if size.is_none() {
            return Err(PebbleError::WalCorruption("record too large".to_string()));
        }
        self.wal.append_record(&record, &mut self.journal);
        match self.fault.hit(FaultPoint::AfterWalAppend) {
            Ok(()) => {},
            Err(error) => {
                return Err(error);
            },
        }
        self.wal.sync(&mut self.journal);
        match self.fault.hit(FaultPoint::AfterWalFsync) {
            Ok(()) => {},
            Err(error) => {
                return Err(error);
            },
        }
        match record {
            WalRecord::Put { key, value } => {
                self.memtable.insert(key, MemtableEntry::Value(value));
            },
            WalRecord::Delete { key } => {
                self.memtable.insert(key, MemtableEntry::Tombstone);
            },
        }
        match self.fault.hit(FaultPoint::AfterMemtableUpdate) {
            Ok(()) => {},
            Err(error) => {
                return Err(error);
            },
        }
        if self.memtable.len() >= self.options.flush_threshold {
            self.flush_memtable()
        } else {
            Ok(())
        }
    }

    /// Stores a value under a key.
    pub fn set(&mut self, key: String, value: String) -> (result: Result<()>)
        requires
            old(self).wf(),
        ensures
            final(self).wf(),
            written(old(self).model(), (key@, Some(value@)), final(self).model(), result),
    {
        self.write_row(WalRecord::Put { key, value })
    }

    /// Removes a key, and tells whether it had a value.
    pub fn delete(&mut self, key: &str) -> (result: Result<bool>)
        requires
            old(self).wf(),
        ensures
            final(self).wf(),
            written(old(self).model(), (key@, None), final(self).model(), outcome_of(result)),
            result matches Ok(existed) ==> existed == (contents(
                old(self).model().memtable,
                old(self).model().tree.levels,
                key@,
            ) is Some),
    {
        let existed = self.get_inner(key).is_some();
        let record = WalRecord::Delete { key: key.to_string() };
        let ghost row: Row = (key@, None);
        proof {
            assert(record.row() == row);
        }
        let outcome = self.write_row(record);
        let ghost done = outcome;
        let result: Result<bool> = match outcome {
            Ok(()) => Ok(existed),
            Err(error) => Err(error),
        };
        proof {
            if done is Ok {
                assert(done->Ok_0 == ());
            }
            assert(outcome_of(result) == done);
        }
        result
    }

    /// Writes the memtable to a table.
    pub fn flush(&mut self) -> (result: Result<()>)
        requires
            old(self).wf(),
        ensures
            final(self).wf(),
            flushed(old(self).model(), final(self).model(), result),
    {
        self.flush_memtable()
    }

    /// Makes the merges that are due.
    pub fn compact(&mut self) -> (result: Result<()>)
        requires
            old(self).wf(),
        ensures
            final(self).wf(),
            compacted(old(self).model(), final(self).model(), result),
    {
        self.compact_pending()
    }

    /// Merges all tables into one.
    pub fn compact_full(&mut self) -> (result: Result<()>)
        requires
            old(self).wf(),
        ensures
            final(self).wf(),
            fully_compacted(old(self).model(), final(self).model(), result),
    {
        self.compact_all()
    }
}

proof fn lemma_write_steps_len(level: int, id: int, rows: Seq<Row>)
    ensures
        write_steps(level, id, rows).len() == 8,
{
    reveal(write_steps);
}

/// A series of steps in two parts.
proof fn lemma_parts(start: Run, steps: Seq<Step>, i: int)
    requires
        0 <= i <= steps.len(),
    ensures
        run_from(start, steps) == run_from(run_from(start, steps.take(i)), steps.skip(i)),
        run_from(start, steps.take(i)).stop is Some ==> run_from(start, steps) == run_from(start, steps.take(i)),
{
    assert(steps.take(i) + steps.skip(i) =~= steps);
    lemma_run_concat(start, steps.take(i), steps.skip(i));
    if run_from(start, steps.take(i)).stop is Some {
        lemma_stopped(run_from(start, steps.take(i)), steps.skip(i));
    }
}

/// What has stopped stays so.
proof fn lemma_stays_stopped(start: Run, steps: Seq<Step>, i: int, j: int)
    requires
        0 <= i <= j <= steps.len(),
        run_from(start, steps.take(i)).stop is Some,
    ensures
        run_from(start, steps.take(j)) == run_from(start, steps.take(i)),
{
    assert(steps.take(j).take(i) =~= steps.take(i));
    lemma_parts(start, steps.take(j), i);
}

}
