//! What the database holds and has done, in numbers.
use crate::compaction::at_most;
use crate::db::{files_wf, level_states, share, table_state, table_states, DbModel, MemtableEntry, PebbleDB};
use crate::db::compact::ordered_by_id;
use crate::disk::{ops_of, DiskOp, FileOp};
use crate::error::Result;
use crate::levels::{level_at, tables_of, total_bytes, Levels, Placed, TableState};
use crate::merge::{all_placed, insert_by_id, level_count_ok, sorted_by_id};
use crate::metrics::plus;
use crate::records::{key_bytes, value_bytes};
use crate::rows::Row;
use crate::sstable::SSTable;
use crate::text::byte_len;
use std::sync::Arc;
use vstd::prelude::*;
use vstd::utf8::encode_utf8;

verus! {

#[derive(Debug, Clone, Copy, Default, PartialEq, Eq)]
pub struct LevelStats {
    pub level: u32,
    pub files: usize,
    pub bytes: usize,
}

#[derive(Debug, Clone, Default)]
pub struct DbStats {
    pub memtable_entries: usize,
    pub memtable_bytes: usize,
    pub sst_count: usize,
    pub total_sst_size: usize,
    /// The id and the size of every table, ordered by id.
    pub sst_sizes: Vec<(u64, usize)>,
    pub wal_size: u64,
    pub memtable_hits: u64,
    pub bloom_rejects: u64,
    pub block_reads: u64,
    pub compactions_completed: u64,
    pub full_compactions: u64,
    /// The levels that merges started from, with how many there were.
    pub compactions_by_level: Vec<(u32, u64)>,
    pub compaction_bytes_read: u64,
    pub compaction_bytes_written: u64,
    pub compaction_input_files: u64,
    pub compaction_output_files: u64,
    pub bytes_flushed: u64,
    /// The bytes that were written to tables for the bytes that were flushed, as a fraction.
    pub write_amplification: Option<(u64, u64)>,
    /// The levels that hold tables.
    pub levels: Vec<LevelStats>,
}

/// The bytes of the keys and values.
pub open spec fn content_bytes(rows: Seq<Row>) -> int
    decreases rows.len(),
{
    if rows.len() == 0 {
        0
    } else {
        content_bytes(rows.drop_last()) + key_bytes(rows.last()).len() + value_bytes(rows.last()).len()
    }
}

/// The levels that hold tables.
pub open spec fn level_stats(levels: Levels) -> Seq<LevelStats>
    decreases levels.len(),
{
    if levels.len() == 0 {
        Seq::empty()
    } else {
        let before = level_stats(levels.drop_last());
        if levels.last().len() == 0 {
            before
        } else {
            before.push(
                LevelStats {
                    level: (levels.len() - 1) as u32,
                    files: levels.last().len() as usize,
                    bytes: at_most(total_bytes(levels.last()), usize::MAX as int) as usize,
                },
            )
        }
    }
}

/// The counts that are not zero, with their index.
pub open spec fn nonzero(counts: Seq<u64>) -> Seq<(u32, u64)>
    decreases counts.len(),
{
    if counts.len() == 0 {
        Seq::empty()
    } else if counts.last() == 0 {
        nonzero(counts.drop_last())
    } else {
        nonzero(counts.drop_last()).push(((counts.len() - 1) as u32, counts.last()))
    }
}

pub open spec fn table_sizes(tables: Seq<TableState>) -> Seq<(u64, usize)> {
    Seq::new(tables.len(), |i: int| (tables[i].id, tables[i].bytes.len() as usize))
}

/// All tables, level by level.
pub open spec fn all_tables(levels: Levels) -> Seq<TableState> {
    tables_of(all_placed(levels))
}

pub open spec fn is_stats(stats: DbStats, model: DbModel) -> bool {
    let tables = all_tables(model.tree.levels);
    let metrics = model.metrics;
    &&& stats.memtable_entries == model.memtable.len()
    &&& stats.memtable_bytes == at_most(content_bytes(model.memtable), usize::MAX as int)
    &&& stats.sst_count == tables.len()
    &&& stats.total_sst_size == at_most(total_bytes(tables), usize::MAX as int)
    &&& stats.sst_sizes@ == table_sizes(sorted_by_id(tables))
    &&& stats.wal_size == model.wal_size
    &&& stats.memtable_hits == model.counters.memtable_hits
    &&& stats.bloom_rejects == model.counters.bloom_rejects
    &&& stats.block_reads == model.counters.block_reads
    &&& stats.compactions_completed == metrics.compactions
    &&& stats.full_compactions == metrics.full_compactions
    &&& stats.compactions_by_level@ == nonzero(metrics.compactions_by_level)
    &&& stats.compaction_bytes_read == metrics.bytes_read
    &&& stats.compaction_bytes_written == metrics.bytes_written
    &&& stats.compaction_input_files == metrics.input_files
    &&& stats.compaction_output_files == metrics.output_files
    &&& stats.bytes_flushed == metrics.bytes_flushed
    &&& stats.write_amplification == (if metrics.bytes_flushed > 0 {
        Some((plus(metrics.bytes_flushed, metrics.bytes_written), metrics.bytes_flushed))
    } else {
        None
    })
    &&& stats.levels@ == level_stats(model.tree.levels)
}

/// The tables that the numbers of the levels tell of.
pub open spec fn files_sum(levels: Seq<LevelStats>) -> int
    decreases levels.len(),
{
    if levels.len() == 0 {
        0
    } else {
        files_sum(levels.drop_last()) + levels.last().files
    }
}

/// The bytes that the numbers of the levels tell of.
pub open spec fn level_bytes_sum(levels: Seq<LevelStats>) -> int
    decreases levels.len(),
{
    if levels.len() == 0 {
        0
    } else {
        level_bytes_sum(levels.drop_last()) + levels.last().bytes
    }
}

/// The bytes of tables that are listed one by one.
pub open spec fn sizes_sum(sizes: Seq<(u64, usize)>) -> int
    decreases sizes.len(),
{
    if sizes.len() == 0 {
        0
    } else {
        sizes_sum(sizes.drop_last()) + sizes.last().1
    }
}

proof fn lemma_total_bytes_concat(a: Seq<TableState>, b: Seq<TableState>)
    ensures
        total_bytes(a + b) == total_bytes(a) + total_bytes(b),
        0 <= total_bytes(a),
        0 <= total_bytes(b),
    decreases a.len() + b.len(),
{
    if b.len() > 0 {
        assert((a + b).drop_last() =~= a + b.drop_last());
        lemma_total_bytes_concat(a, b.drop_last());
    } else {
        assert(a + b =~= a);
        if a.len() > 0 {
            assert(a.drop_last() + b =~= a.drop_last());
            lemma_total_bytes_concat(a.drop_last(), b);
        }
    }
}

proof fn lemma_all_tables(levels: Levels)
    requires
        levels.len() > 0,
    ensures
        all_tables(levels) == all_tables(levels.drop_last()) + levels.last(),
{
    assert(all_tables(levels) =~= all_tables(levels.drop_last()) + levels.last());
}

proof fn lemma_level_stats(levels: Levels)
    requires
        levels.len() <= 4294967296,
        all_tables(levels).len() <= usize::MAX,
    ensures
        files_sum(level_stats(levels)) == all_tables(levels).len(),
        total_bytes(all_tables(levels)) <= usize::MAX ==> level_bytes_sum(level_stats(levels)) == total_bytes(
            all_tables(levels),
        ),
        0 <= total_bytes(all_tables(levels)),
        forall|i: int|
            0 <= i < level_stats(levels).len() ==> (#[trigger] level_stats(levels)[i]).files > 0 && level_stats(
                levels,
            )[i].level < levels.len(),
        forall|i: int, j: int|
            0 <= i < j < level_stats(levels).len() ==> (#[trigger] level_stats(levels)[i]).level < (
            #[trigger] level_stats(levels)[j]).level,
    decreases levels.len(),
{
    if levels.len() > 0 {
        let before = levels.drop_last();
        let stats = level_stats(levels);
        let earlier = level_stats(before);
        lemma_all_tables(levels);
        lemma_total_bytes_concat(all_tables(before), levels.last());
        lemma_level_stats(before);
        if levels.last().len() > 0 {
            assert(stats.drop_last() =~= earlier);
            assert forall|i: int| 0 <= i < stats.len() implies (#[trigger] stats[i]).files > 0 && stats[i].level
                < levels.len() by {
                if i < earlier.len() {
                    assert(stats[i] == earlier[i]);
                }
            }
            assert forall|i: int, j: int| 0 <= i < j < stats.len() implies (#[trigger] stats[i]).level < (
            #[trigger] stats[j]).level by {
                assert(stats[i] == earlier[i]);
                if j < earlier.len() {
                    assert(stats[j] == earlier[j]);
                }
            }
        }
    } else {
        assert(all_tables(levels) =~= Seq::<TableState>::empty());
    }
}

proof fn lemma_inserted_by_id(files: Seq<TableState>, table: TableState)
    requires
        forall|i: int, j: int| 0 <= i < j < files.len() ==> (#[trigger] files[i]).id <= (#[trigger] files[j]).id,
    ensures
        ({
            let all = insert_by_id(files, table);
            &&& all.len() == files.len() + 1
            &&& total_bytes(all) == total_bytes(files) + table.bytes.len()
            &&& all.to_multiset() == files.to_multiset().insert(table)
            &&& forall|i: int, j: int| 0 <= i < j < all.len() ==> (#[trigger] all[i]).id <= (#[trigger] all[j]).id
        }),
    decreases files.len(),
{
    broadcast use vstd::seq_lib::group_to_multiset_ensures;

    let all = insert_by_id(files, table);
    if files.len() == 0 {
        assert(all.drop_last() =~= files);
        assert(all =~= files.push(table));
    } else if files.last().id > table.id {
        let before = files.drop_last();
        let rest = insert_by_id(before, table);
        assert forall|i: int, j: int| 0 <= i < j < before.len() implies (#[trigger] before[i]).id <= (
        #[trigger] before[j]).id by {
            assert(files[i].id <= files[j].id);
        }
        lemma_inserted_by_id(before, table);
        assert(all.drop_last() =~= rest);
        assert(before.push(files.last()) =~= files);
        assert(all.to_multiset() =~= files.to_multiset().insert(table));
        assert forall|i: int, j: int| 0 <= i < j < all.len() implies (#[trigger] all[i]).id <= (#[trigger] all[j]).id by {
            assert(all[i] == rest[i]);
            if j < rest.len() {
                assert(all[j] == rest[j]);
            } else {
                assert(rest.contains(rest[i]));
                assert(rest.to_multiset().count(rest[i]) > 0);
                assert(rest[i] == table || before.contains(rest[i]));
                if before.contains(rest[i]) {
                    let k = choose|k: int| 0 <= k < before.len() && before[k] == rest[i];
                    assert(files[k].id <= files[files.len() - 1].id);
                }
            }
        }
    } else {
        assert(all.drop_last() =~= files);
        assert forall|i: int, j: int| 0 <= i < j < all.len() implies (#[trigger] all[i]).id <= (#[trigger] all[j]).id by {
            assert(all[i] == files[i]);
            if j < files.len() {
                assert(all[j] == files[j]);
            } else {
                assert(files[i].id <= files[files.len() - 1].id);
            }
        }
    }
}

proof fn lemma_ordered_tables(files: Seq<TableState>)
    ensures
        ({
            let all = sorted_by_id(files);
            &&& all.len() == files.len()
            &&& total_bytes(all) == total_bytes(files)
            &&& all.to_multiset() == files.to_multiset()
            &&& forall|i: int, j: int| 0 <= i < j < all.len() ==> (#[trigger] all[i]).id <= (#[trigger] all[j]).id
        }),
    decreases files.len(),
{
    broadcast use vstd::seq_lib::group_to_multiset_ensures;

    if files.len() > 0 {
        lemma_ordered_tables(files.drop_last());
        lemma_inserted_by_id(sorted_by_id(files.drop_last()), files.last());
        assert(files.drop_last().push(files.last()) =~= files);
    } else {
        assert(sorted_by_id(files) =~= files);
    }
}

proof fn lemma_sizes_sum(tables: Seq<TableState>)
    requires
        total_bytes(tables) <= usize::MAX,
    ensures
        sizes_sum(table_sizes(tables)) == total_bytes(tables),
    decreases tables.len(),
{
    if tables.len() > 0 {
        let before = tables.drop_last();
        assert(before + seq![tables.last()] =~= tables);
        lemma_total_bytes_concat(before, seq![tables.last()]);
        lemma_sizes_sum(before);
        assert(table_sizes(tables).drop_last() =~= table_sizes(before));
    }
}

/// The numbers agree with one another: the tables are as many as are listed by size and as the
/// levels have, and so are their bytes, unless there are more than the machine can count. The
/// sizes are listed by ascending id, and the levels that have tables from the top down, each once.
pub proof fn law_statistics_agree(stats: DbStats, model: DbModel)
    requires
        is_stats(stats, model),
        level_count_ok(model.tree.levels),
    ensures
        stats.sst_count == stats.sst_sizes@.len(),
        stats.sst_count == files_sum(stats.levels@),
        stats.total_sst_size < usize::MAX ==> stats.total_sst_size == sizes_sum(stats.sst_sizes@)
            && stats.total_sst_size == level_bytes_sum(stats.levels@),
        forall|i: int, j: int|
            0 <= i < j < stats.sst_sizes@.len() ==> (#[trigger] stats.sst_sizes@[i]).0 <= (
            #[trigger] stats.sst_sizes@[j]).0,
        forall|i: int, j: int|
            0 <= i < j < stats.levels@.len() ==> (#[trigger] stats.levels@[i]).level < (
            #[trigger] stats.levels@[j]).level,
        forall|i: int| 0 <= i < stats.levels@.len() ==> (#[trigger] stats.levels@[i]).files > 0,
{
    let tables = all_tables(model.tree.levels);
    let ordered = sorted_by_id(tables);
    lemma_level_stats(model.tree.levels);
    lemma_ordered_tables(tables);
    if stats.total_sst_size < usize::MAX {
        lemma_sizes_sum(ordered);
    }
    assert forall|i: int, j: int| 0 <= i < j < stats.sst_sizes@.len() implies (#[trigger] stats.sst_sizes@[i]).0 <= (
    #[trigger] stats.sst_sizes@[j]).0 by {
        assert(ordered[i].id <= ordered[j].id);
    }
}

/// Where no two tables have the same id, the sizes are listed by strictly ascending id, each table
/// once.
pub proof fn law_sizes_are_listed_once(stats: DbStats, model: DbModel)
    requires
        is_stats(stats, model),
        forall|i: int, j: int|
            0 <= i < j < all_tables(model.tree.levels).len() ==> (#[trigger] all_tables(model.tree.levels)[i]).id != (
            #[trigger] all_tables(model.tree.levels)[j]).id,
    ensures
        forall|i: int, j: int|
            0 <= i < j < stats.sst_sizes@.len() ==> (#[trigger] stats.sst_sizes@[i]).0 < (
            #[trigger] stats.sst_sizes@[j]).0,
{
    broadcast use vstd::seq_lib::group_to_multiset_ensures;

    let tables = all_tables(model.tree.levels);
    let ordered = sorted_by_id(tables);
    lemma_ordered_tables(tables);
    assert(tables.no_duplicates());
    tables.lemma_multiset_has_no_duplicates();
    ordered.lemma_multiset_has_no_duplicates_conv();
    assert forall|i: int, j: int| 0 <= i < j < stats.sst_sizes@.len() implies (#[trigger] stats.sst_sizes@[i]).0 < (
    #[trigger] stats.sst_sizes@[j]).0 by {
        assert(ordered[i].id <= ordered[j].id);
        assert(ordered[i] != ordered[j]);
        assert(ordered.to_multiset().count(ordered[i]) > 0);
        assert(ordered.to_multiset().count(ordered[j]) > 0);
        assert(tables.contains(ordered[i]));
        assert(tables.contains(ordered[j]));
        let a = choose|a: int| 0 <= a < tables.len() && tables[a] == ordered[i];
        let b = choose|b: int| 0 <= b < tables.len() && tables[b] == ordered[j];
        assert(tables[a].id != tables[b].id);
    }
}

/// The bytes of the files of the tables together.
fn files_bytes(files: &Vec<Arc<SSTable>>) -> (total: usize)
    ensures
        total == at_most(total_bytes(table_states(files@)), usize::MAX as int),
{
    let ghost tables = table_states(files@);
    let mut total: usize = 0;
    let mut i: usize = 0;
    while i < files.len()
        invariant
            i <= files@.len(),
            tables == table_states(files@),
            total == at_most(total_bytes(tables.take(i as int)), usize::MAX as int),
            0 <= total_bytes(tables.take(i as int)),
        decreases files@.len() - i,
    {
        total = total.saturating_add(files[i].file_size());
        proof {
            assert(tables.take(i + 1).drop_last() =~= tables.take(i as int));
            assert(tables[i as int] == table_state(*files@[i as int]));
        }
        i = i + 1;
    }
    proof {
        assert(tables.take(i as int) =~= tables);
    }
    total
}

impl PebbleDB {
    /// The bytes of the keys and values in the memtable.
    fn memtable_bytes(&self) -> (total: usize)
        ensures
            total == at_most(content_bytes(self.memtable.rows()), usize::MAX as int),
    {
        let ghost rows = self.memtable.rows();
        let mut total: usize = 0;
        let mut i: usize = 0;
        while i < self.memtable.len()
            invariant
                i <= rows.len(),
                rows == self.memtable.rows(),
                total == at_most(content_bytes(rows.take(i as int)), usize::MAX as int),
                0 <= content_bytes(rows.take(i as int)),
            decreases rows.len() - i,
        {
            let entry = self.memtable.entry(i);
            let value_len: usize = match &entry.1 {
                MemtableEntry::Value(value) => byte_len(value),
                MemtableEntry::Tombstone => 0,
            };
            total = total.saturating_add(byte_len(&entry.0)).saturating_add(value_len);
            proof {
                assert(rows.take(i + 1).drop_last() =~= rows.take(i as int));
            }
            i = i + 1;
        }
        proof {
            assert(rows.take(i as int) =~= rows);
        }
        total
    }

    /// All tables, level by level.
    fn all_files(&self) -> (files: Vec<Arc<SSTable>>)
        requires
            self.wf(),
        ensures
            table_states(files@) == all_tables(level_states(self.levels@)),
            files_wf(files@),
    {
        let mut files: Vec<Arc<SSTable>> = Vec::new();
        let ghost states = level_states(self.levels@);
        let mut level: usize = 0;
        proof {
            assert(states.take(0) =~= Seq::<Seq<TableState>>::empty());
            assert(table_states(files@) =~= all_tables(states.take(0)));
        }
        while level < self.levels.len()
            invariant
                self.wf(),
                states == level_states(self.levels@),
                level <= self.levels@.len(),
                table_states(files@) == all_tables(states.take(level as int)),
                files_wf(files@),
            decreases self.levels@.len() - level,
        {
            let own = &self.levels[level];
            let ghost tables = table_states(own@);
            let ghost before = table_states(files@);
            let mut i: usize = 0;
            proof {
                assert(before + tables.take(0) =~= before);
            }
            while i < own.len()
                invariant
                    self.wf(),
                    level < self.levels@.len(),
                    *own == self.levels@[level as int],
                    tables == table_states(own@),
                    i <= own@.len(),
                    table_states(files@) == before + tables.take(i as int),
                    files_wf(files@),
                decreases own@.len() - i,
            {
                let ghost earlier = files@;
                proof {
                    assert(self.levels@[level as int]@[i as int].wf());
                }
                files.push(share(&own[i]));
                proof {
                    assert(table_states(files@) =~= table_states(earlier).push(tables[i as int]));
                    assert(tables.take(i + 1) =~= tables.take(i as int).push(tables[i as int]));
                    assert(table_states(files@) =~= before + tables.take(i + 1));
                }
                i = i + 1;
            }
            proof {
                let upto = states.take(level + 1);
                assert(tables.take(i as int) =~= tables);
                assert(upto.drop_last() =~= states.take(level as int));
                assert(upto.last() == tables);
                assert(all_tables(upto) =~= before + tables);
            }
            level = level + 1;
        }
        proof {
            assert(states.take(level as int) =~= states);
        }
        files
    }

    fn level_numbers(&self) -> (stats: Vec<LevelStats>)
        requires
            self.wf(),
        ensures
            stats@ == level_stats(level_states(self.levels@)),
    {
        let mut stats: Vec<LevelStats> = Vec::new();
        let ghost states = level_states(self.levels@);
        let mut level: usize = 0;
        proof {
            assert(states.take(0) =~= Seq::<Seq<TableState>>::empty());
        }
        while level < self.levels.len()
            invariant
                self.wf(),
                states == level_states(self.levels@),
                level <= self.levels@.len(),
                stats@ == level_stats(states.take(level as int)),
            decreases self.levels@.len() - level,
        {
            let files = &self.levels[level];
            proof {
                let upto = states.take(level + 1);
                assert(upto.drop_last() =~= states.take(level as int));
                assert(upto.last() == table_states(files@));
            }
            if files.len() > 0 {
                stats.push(LevelStats { level: level as u32, files: files.len(), bytes: files_bytes(files) });
            }
            level = level + 1;
        }
        proof {
            assert(states.take(level as int) =~= states);
        }
        stats
    }

    fn level_counts(&self) -> (counts: Vec<(u32, u64)>)
        ensures
            counts@ == nonzero(self.metrics.compactions_by_level@),
    {
        let mut counts: Vec<(u32, u64)> = Vec::new();
        let ghost all = self.metrics.compactions_by_level@;
        let mut level: usize = 0;
        proof {
            assert(all.take(0) =~= Seq::<u64>::empty());
        }
        while level < self.metrics.compactions_by_level.len()
            invariant
                all == self.metrics.compactions_by_level@,
                level <= all.len(),
                counts@ == nonzero(all.take(level as int)),
            decreases all.len() - level,
        {
            let count: u64 = self.metrics.compactions_by_level[level];
            proof {
                assert(all.take(level + 1).drop_last() =~= all.take(level as int));
            }
            if count > 0 {
                counts.push((level as u32, count));
            }
            level = level + 1;
        }
        proof {
            assert(all.take(level as int) =~= all);
        }
        counts
    }

    pub fn stats(&self) -> (stats: DbStats)
        requires
            self.wf(),
        ensures
            is_stats(stats, self.model()),
    {
        let files = self.all_files();
        let sst_count: usize = files.len();
        let total_sst_size: usize = files_bytes(&files);
        let ordered = ordered_by_id(files);
        let mut sst_sizes: Vec<(u64, usize)> = Vec::new();
        let ghost tables = table_states(ordered@);
        let mut i: usize = 0;
        while i < ordered.len()
            invariant
                i <= ordered@.len(),
                tables == table_states(ordered@),
                sst_sizes@.len() == i,
                forall|j: int| 0 <= j < i ==> #[trigger] sst_sizes@[j] == table_sizes(tables)[j],
            decreases ordered@.len() - i,
        {
            sst_sizes.push((ordered[i].id(), ordered[i].file_size()));
            i = i + 1;
        }
        proof {
            assert(sst_sizes@ =~= table_sizes(tables));
        }
        let write_amplification: Option<(u64, u64)> = if self.metrics.bytes_flushed > 0 {
            Some((self.metrics.bytes_flushed.saturating_add(self.metrics.bytes_written), self.metrics.bytes_flushed))
        } else {
            None
        };
        DbStats {
            memtable_entries: self.memtable.len(),
            memtable_bytes: self.memtable_bytes(),
            sst_count,
            total_sst_size,
            sst_sizes,
            wal_size: self.wal.size(),
            memtable_hits: self.counters.memtable_hits,
            bloom_rejects: self.counters.bloom_rejects,
            block_reads: self.counters.block_reads,
            compactions_completed: self.metrics.compactions,
            full_compactions: self.metrics.full_compactions,
            compactions_by_level: self.level_counts(),
            compaction_bytes_read: self.metrics.bytes_read,
            compaction_bytes_written: self.metrics.bytes_written,
            compaction_input_files: self.metrics.input_files,
            compaction_output_files: self.metrics.output_files,
            bytes_flushed: self.metrics.bytes_flushed,
            write_amplification,
            levels: self.level_numbers(),
        }
    }

    /// The tables of a level, oldest first.
    pub fn level_tables(&self, level: u32) -> (files: Vec<Arc<SSTable>>)
        requires
            self.wf(),
        ensures
            table_states(files@) == level_at(self.model().tree.levels, level as int),
            forall|i: int| 0 <= i < files@.len() ==> (#[trigger] files@[i]).wf(),
    {
        let mut files: Vec<Arc<SSTable>> = Vec::new();
        proof {
            assert(table_states(files@) =~= Seq::<TableState>::empty());
        }
        if level as usize >= self.levels.len() {
            return files;
        }
        let own = &self.levels[level as usize];
        let ghost tables = table_states(own@);
        let mut i: usize = 0;
        proof {
            assert(tables.take(0) =~= Seq::<TableState>::empty());
        }
        while i < own.len()
            invariant
                self.wf(),
                level < self.levels@.len(),
                *own == self.levels@[level as int],
                tables == table_states(own@),
                i <= own@.len(),
                table_states(files@) == tables.take(i as int),
                files_wf(files@),
            decreases own@.len() - i,
        {
            let ghost earlier = files@;
            proof {
                assert(self.levels@[level as int]@[i as int].wf());
            }
            files.push(share(&own[i]));
            proof {
                assert(table_states(files@) =~= table_states(earlier).push(tables[i as int]));
                assert(tables.take(i + 1) =~= tables.take(i as int).push(tables[i as int]));
            }
            i = i + 1;
        }
        proof {
            assert(tables.take(i as int) =~= tables);
        }
        files
    }

    /// Hands out the operations to be carried out, oldest first.
    pub fn take_ops(&mut self) -> (ops: Vec<DiskOp>)
        requires
            old(self).wf(),
        ensures
            final(self).wf(),
            ops_of(ops@) == old(self).model().trail.ops,
            final(self).model() == (DbModel {
                trail: crate::disk::Run { ops: Seq::empty(), ..old(self).model().trail },
                ..old(self).model()
            }),
    {
        let mut ops: Vec<DiskOp> = Vec::new();
        core::mem::swap(&mut ops, &mut self.journal);
        proof {
            assert(ops_of(self.journal@) =~= Seq::<FileOp>::empty());
        }
        ops
    }

    /// Closes the database and hands out the operations that are still to be carried out.
    pub fn close(self) -> (result: Result<Vec<DiskOp>>)
        ensures
            result matches Ok(ops) && ops_of(ops@) == self.model().trail.ops,
    {
        Ok(self.journal)
    }
}

/// The bytes of the keys and values that are in a memtable, tombstones without a value.
pub open spec fn bytes_of_entries(rows: Seq<Row>) -> int {
    rows.fold_left(
        0,
        |sum: int, row: Row|
            sum + encode_utf8(row.0).len() + (match row.1 {
                Some(value) => encode_utf8(value).len(),
                None => 0,
            }),
    )
}

proof fn lemma_bytes_of_entries(rows: Seq<Row>)
    ensures
        bytes_of_entries(rows) == content_bytes(rows),
    decreases rows.len(),
{
    reveal(Seq::fold_left);
    if rows.len() > 0 {
        lemma_bytes_of_entries(rows.drop_last());
    }
}

proof fn lemma_nonzero(counts: Seq<u64>)
    requires
        counts.len() <= u32::MAX,
    ensures
        forall|level: u32, count: u64| #[trigger]
            nonzero(counts).contains((level, count)) <==> count > 0 && level < counts.len() && counts[level as int] == count,
        forall|i: int, j: int|
            0 <= i < j < nonzero(counts).len() ==> (#[trigger] nonzero(counts)[i]).0 < (#[trigger] nonzero(counts)[j]).0,
    decreases counts.len(),
{
    let all = nonzero(counts);
    if counts.len() > 0 {
        let before = counts.drop_last();
        let earlier = nonzero(before);
        let last = counts.len() - 1;
        lemma_nonzero(before);
        assert forall|level: u32, count: u64| #[trigger]
            all.contains((level, count)) <==> count > 0 && level < counts.len() && counts[level as int] == count by {
            assert(earlier.contains((level, count)) <==> count > 0 && level < before.len() && before[level as int] == count);
            if all.contains((level, count)) {
                let k = choose|k: int| 0 <= k < all.len() && all[k] == (level, count);
                if k < earlier.len() {
                    assert(earlier[k] == (level, count));
                }
            }
            if earlier.contains((level, count)) {
                let k = choose|k: int| 0 <= k < earlier.len() && earlier[k] == (level, count);
                assert(all[k] == (level, count));
            }
            if counts.last() > 0 {
                assert(all[all.len() - 1] == ((counts.len() - 1) as u32, counts.last()));
            }
        }
        assert forall|i: int, j: int| 0 <= i < j < all.len() implies (#[trigger] all[i]).0 < (#[trigger] all[j]).0 by {
            assert(earlier[i] == all[i]);
            if j < earlier.len() {
                assert(earlier[j] == all[j]);
            } else {
                assert(earlier.contains((earlier[i].0, earlier[i].1)));
            }
        }
    } else {
        assert(forall|level: u32, count: u64| !#[trigger] all.contains((level, count)));
    }
}

/// Every number tells what its name says: of the memtable its entries and their bytes, of the tables
/// their count, of the log its size; what reads took; and what flushes and merges have read and written
/// since the database was opened.
pub proof fn law_statistics_tell_the_state(stats: DbStats, model: DbModel)
    requires
        is_stats(stats, model),
        model.metrics.compactions_by_level.len() <= u32::MAX,
    ensures
        stats.memtable_entries == model.memtable.len(),
        bytes_of_entries(model.memtable) <= usize::MAX ==> stats.memtable_bytes == bytes_of_entries(model.memtable),
        stats.wal_size == model.wal_size,
        stats.memtable_hits == model.counters.memtable_hits,
        stats.bloom_rejects == model.counters.bloom_rejects,
        stats.block_reads == model.counters.block_reads,
        stats.compactions_completed == model.metrics.compactions,
        stats.full_compactions == model.metrics.full_compactions,
        stats.compaction_bytes_read == model.metrics.bytes_read,
        stats.compaction_bytes_written == model.metrics.bytes_written,
        stats.compaction_input_files == model.metrics.input_files,
        stats.compaction_output_files == model.metrics.output_files,
        stats.bytes_flushed == model.metrics.bytes_flushed,
        stats.bytes_flushed == 0 <==> stats.write_amplification is None,
        stats.bytes_flushed > 0 && stats.bytes_flushed + stats.compaction_bytes_written <= u64::MAX
            ==> stats.write_amplification == Some(
            ((stats.bytes_flushed + stats.compaction_bytes_written) as u64, stats.bytes_flushed),
        ),
        forall|level: u32, count: u64| #[trigger]
            stats.compactions_by_level@.contains((level, count)) <==> count > 0 && level
                < model.metrics.compactions_by_level.len() && model.metrics.compactions_by_level[level as int] == count,
        forall|i: int, j: int|
            0 <= i < j < stats.compactions_by_level@.len() ==> (#[trigger] stats.compactions_by_level@[i]).0 < (
            #[trigger] stats.compactions_by_level@[j]).0,
{
    lemma_bytes_of_entries(model.memtable);
    lemma_nonzero(model.metrics.compactions_by_level);
}

/// Every table is listed with its id and the length of its file.
pub proof fn law_every_table_is_listed(stats: DbStats, model: DbModel, level: int, table: TableState)
    requires
        is_stats(stats, model),
        level_at(model.tree.levels, level).contains(table),
        table.bytes.len() <= usize::MAX,
    ensures
        stats.sst_sizes@.contains((table.id, table.bytes.len() as usize)),
{
    let tables = all_tables(model.tree.levels);
    let ordered = sorted_by_id(tables);
    let placed = all_placed(model.tree.levels);
    crate::merge::lemma_all_placed(model.tree.levels);
    let x = Placed { level, table };
    assert(placed.contains(x));
    let k = choose|k: int| 0 <= k < placed.len() && placed[k] == x;
    assert(tables[k] == table);
    assert(tables.contains(table));
    lemma_ordered_tables(tables);
    broadcast use vstd::seq_lib::group_to_multiset_ensures;

    assert(tables.to_multiset().count(table) > 0);
    assert(ordered.to_multiset().count(table) > 0);
    assert(ordered.contains(table));
    let i = choose|i: int| 0 <= i < ordered.len() && ordered[i] == table;
    assert(stats.sst_sizes@[i] == (table.id, table.bytes.len() as usize));
}

/// Every level that has tables is listed, with their count and the bytes of their files.
pub proof fn law_every_level_is_listed(stats: DbStats, model: DbModel, level: int)
    requires
        is_stats(stats, model),
        level_count_ok(model.tree.levels),
        level_at(model.tree.levels, level).len() > 0,
        level_at(model.tree.levels, level).len() <= usize::MAX,
        0 <= total_bytes(level_at(model.tree.levels, level)) <= usize::MAX,
    ensures
        exists|i: int|
            0 <= i < stats.levels@.len() && (#[trigger] stats.levels@[i]).level == level && stats.levels@[i].files == level_at(
                model.tree.levels,
                level,
            ).len() && stats.levels@[i].bytes == total_bytes(level_at(model.tree.levels, level)),
{
    lemma_level_is_listed(model.tree.levels, level);
}

proof fn lemma_level_is_listed(levels: Levels, level: int)
    requires
        level_count_ok(levels),
        level_at(levels, level).len() > 0,
        level_at(levels, level).len() <= usize::MAX,
        0 <= total_bytes(level_at(levels, level)) <= usize::MAX,
    ensures
        exists|i: int|
            0 <= i < level_stats(levels).len() && (#[trigger] level_stats(levels)[i]).level == level && level_stats(
                levels,
            )[i].files == level_at(levels, level).len() && level_stats(levels)[i].bytes == total_bytes(
                level_at(levels, level),
            ),
    decreases levels.len(),
{
    let all = level_stats(levels);
    if level == levels.len() - 1 {
        let i = all.len() - 1;
        assert(all[i].level == level);
    } else {
        let before = levels.drop_last();
        assert(level_at(before, level) == level_at(levels, level));
        lemma_level_is_listed(before, level);
        let earlier = level_stats(before);
        let i = choose|i: int|
            0 <= i < earlier.len() && (#[trigger] earlier[i]).level == level && earlier[i].files == level_at(levels, level).len()
                && earlier[i].bytes == total_bytes(level_at(levels, level));
        assert(all[i] == earlier[i]);
    }
}

}
