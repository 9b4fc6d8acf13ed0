//! Merging tables.
use crate::bytes::push_bytes;
use crate::compaction::{at_least, at_most, metas_of, pick_compaction, CompactionPlan, FileMeta, Meta};
use crate::db::{
    compacted, compacted_in, config_of, contains_id, files_wf, fully_compacted, level_states, share, table_state,
    table_states, DbModel, PebbleDB,
};
use crate::disk::{
    lemma_next, lemma_run_concat, lemma_stopped, ops_of, reaches, run_from, tells, DiskOp, FileOp, Run, Step,
};
use crate::engine::{
    due_job, ids_taken, input_ids, job_outcome, job_steps, job_steps_before, job_steps_behind, lemma_ids_taken,
    lemma_outputs_run, lemma_remove_run, lemma_split_prefix, mark_steps, metrics_after_rounds, output_ids,
    outputs_steps, remove_steps, rounds_due, rounds_steps, tree_after, tree_after_attempt, tree_after_rounds,
    write_steps,
};
use crate::error::Result;
use crate::fault::FaultPoint;
use crate::iter::{all_wf, source_rows, MergeIterator, SSTableIterator, StorageIterator};
use crate::keymap::{rows_of, KeyMap, Record};
use crate::levels::{
    in_reading_order, insert_source, job_merged, job_rows, level_at, placed_rows, read_before, tables_of, total_bytes,
    Job, Placed, TableState,
};
use crate::merge::{
    all_placed, chosen, groups_fit, has_input_id, insert_by_id, job_fits, job_groups, job_outputs, lemma_plan_level,
    level_metas, levels_metas, merged_levels, meta_of, new_table, new_tables, plan_job, sorted_by_id, split_rows,
    without,
};
use crate::metrics::JobOutcome;
use crate::names::{pending_file_name, pending_merge_text, pending_name, pending_text, tmp_file_name, tmp_name};
use crate::progress::{law_compaction_makes_progress, remaining_work};
use crate::records::{lemma_record_layout, record_len, record_size};
use crate::rows::{lemma_sorted_subrange, lemma_visible, lemma_visible_prefix, lemma_visible_step, sorted, visible, Row};
use crate::sstable::{SSTable, SSTableEntry};
use crate::table::{rows_bytes, table_len, DEFAULT_BLOCK_SIZE};
use std::sync::Arc;
use vstd::prelude::*;
use vstd::utf8::encode_utf8;

verus! {

/// Tables to be merged, each with its level, and where to.
pub(super) struct CompactionJob {
    pub inputs: Vec<(u32, Arc<SSTable>)>,
    pub output_level: u32,
    pub drop_tombstones: bool,
    pub target_file_size: usize,
}

pub(super) open spec fn placed_of(inputs: Seq<(u32, Arc<SSTable>)>) -> Seq<Placed> {
    Seq::new(inputs.len(), |i: int| Placed { level: inputs[i].0 as int, table: table_state(*inputs[i].1) })
}

pub(super) open spec fn all_tables_wf(inputs: Seq<(u32, Arc<SSTable>)>) -> bool {
    forall|i: int| 0 <= i < inputs.len() ==> (#[trigger] inputs[i]).1.wf()
}

impl CompactionJob {
    pub(super) open spec fn job(&self) -> Job {
        Job {
            inputs: placed_of(self.inputs@),
            output_level: self.output_level as int,
            drop_tombstones: self.drop_tombstones,
            target_file_size: self.target_file_size as int,
        }
    }
}

/// Where a table comes to stand among tables in reading order.
proof fn lemma_insert_source(sources: Seq<Placed>, source: Placed, at: int)
    requires
        0 <= at <= sources.len(),
        forall|j: int| at <= j < sources.len() ==> read_before(source, #[trigger] sources[j]),
        at == 0 || !read_before(source, sources[at - 1]),
    ensures
        insert_source(sources, source) == sources.insert(at, source),
    decreases sources.len(),
{
    if sources.len() == 0 {
        assert(sources.insert(at, source) =~= seq![source]);
    } else if at == sources.len() {
        assert(sources.insert(at, source) =~= sources.push(source));
    } else {
        assert(read_before(source, sources[sources.len() - 1]));
        let before = sources.drop_last();
        assert forall|j: int| at <= j < before.len() implies read_before(source, #[trigger] before[j]) by {
            assert(before[j] == sources[j]);
        }
        lemma_insert_source(before, source, at);
        assert(before.insert(at, source).push(sources.last()) =~= sources.insert(at, source));
    }
}

/// The tables in reading order.
fn reading_order(inputs: &Vec<(u32, Arc<SSTable>)>) -> (sources: Vec<(u32, Arc<SSTable>)>)
    requires
        all_tables_wf(inputs@),
    ensures
        placed_of(sources@) == in_reading_order(placed_of(inputs@)),
        all_tables_wf(sources@),
{
    let mut sources: Vec<(u32, Arc<SSTable>)> = Vec::new();
    let ghost placed = placed_of(inputs@);
    let mut i: usize = 0;
    proof {
        assert(placed.take(0) =~= Seq::<Placed>::empty());
        assert(placed_of(sources@) =~= Seq::<Placed>::empty());
    }
    while i < inputs.len()
        invariant
            i <= inputs@.len(),
            placed == placed_of(inputs@),
            all_tables_wf(inputs@),
            placed_of(sources@) == in_reading_order(placed.take(i as int)),
            all_tables_wf(sources@),
        decreases inputs@.len() - i,
    {
        let level: u32 = inputs[i].0;
        let id: u64 = inputs[i].1.id();
        let ghost source = placed[i as int];
        let ghost before = sources@;
        let mut at: usize = sources.len();
        while at > 0 && (level < sources[at - 1].0 || (level == sources[at - 1].0 && id > sources[at - 1].1.id()))
            invariant
                at <= sources@.len(),
                sources@ == before,
                source == (Placed { level: level as int, table: source.table }),
                source.table.id == id,
                forall|j: int| at <= j < sources@.len() ==> read_before(source, #[trigger] placed_of(sources@)[j]),
            decreases at,
        {
            at = at - 1;
        }
        let shared = share(&inputs[i].1);
        sources.insert(at, (level, shared));
        proof {
            lemma_insert_source(placed_of(before), source, at as int);
            assert(placed_of(sources@) =~= placed_of(before).insert(at as int, source));
            assert(placed.take(i + 1).drop_last() =~= placed.take(i as int));
            assert forall|j: int| 0 <= j < sources@.len() implies (#[trigger] sources@[j]).1.wf() by {
                if j < at {
                    assert(sources@[j] == before[j]);
                } else if j > at {
                    assert(sources@[j] == before[j - 1]);
                } else {
                    assert(inputs@[i as int].1.wf());
                }
            }
        }
        i = i + 1;
    }
    proof {
        assert(placed.take(i as int) =~= placed);
    }
    sources
}

proof fn lemma_insert_by_id(files: Seq<TableState>, table: TableState, at: int)
    requires
        0 <= at <= files.len(),
        forall|j: int| at <= j < files.len() ==> (#[trigger] files[j]).id > table.id,
        at == 0 || files[at - 1].id <= table.id,
    ensures
        insert_by_id(files, table) == files.insert(at, table),
    decreases files.len(),
{
    if files.len() == 0 {
        assert(files.insert(at, table) =~= seq![table]);
    } else if at == files.len() {
        assert(files.insert(at, table) =~= files.push(table));
    } else {
        assert(files[files.len() - 1].id > table.id);
        let before = files.drop_last();
        assert forall|j: int| at <= j < before.len() implies (#[trigger] before[j]).id > table.id by {
            assert(before[j] == files[j]);
        }
        lemma_insert_by_id(before, table, at);
        assert(before.insert(at, table).push(files.last()) =~= files.insert(at, table));
    }
}

/// The tables ordered by id; those with the same id keep their order.
pub(super) fn ordered_by_id(files: Vec<Arc<SSTable>>) -> (ordered: Vec<Arc<SSTable>>)
    requires
        files_wf(files@),
    ensures
        table_states(ordered@) == sorted_by_id(table_states(files@)),
        files_wf(ordered@),
{
    let mut ordered: Vec<Arc<SSTable>> = Vec::new();
    let ghost states = table_states(files@);
    let mut i: usize = 0;
    proof {
        assert(states.take(0) =~= Seq::<TableState>::empty());
        assert(table_states(ordered@) =~= Seq::<TableState>::empty());
    }
    while i < files.len()
        invariant
            i <= files@.len(),
            states == table_states(files@),
            files_wf(files@),
            table_states(ordered@) == sorted_by_id(states.take(i as int)),
            files_wf(ordered@),
        decreases files@.len() - i,
    {
        let id: u64 = files[i].id();
        let ghost table = states[i as int];
        let ghost before = ordered@;
        let mut at: usize = ordered.len();
        while at > 0 && ordered[at - 1].id() > id
            invariant
                at <= ordered@.len(),
                ordered@ == before,
                table.id == id,
                forall|j: int| at <= j < ordered@.len() ==> (#[trigger] table_states(ordered@)[j]).id > table.id,
            decreases at,
        {
            at = at - 1;
        }
        ordered.insert(at, share(&files[i]));
        proof {
            lemma_insert_by_id(table_states(before), table, at as int);
            assert(table_states(ordered@) =~= table_states(before).insert(at as int, table));
            assert(states.take(i + 1).drop_last() =~= states.take(i as int));
            assert forall|j: int| 0 <= j < ordered@.len() implies (#[trigger] ordered@[j]).wf() by {
                if j < at {
                    assert(ordered@[j] == before[j]);
                } else if j > at {
                    assert(ordered@[j] == before[j - 1]);
                } else {
                    assert(files@[i as int].wf());
                }
            }
        }
        i = i + 1;
    }
    proof {
        assert(states.take(i as int) =~= states);
    }
    ordered
}

/// Whether one of the inputs has an id.
fn is_input_id(inputs: &Vec<(u32, Arc<SSTable>)>, id: u64) -> (found: bool)
    ensures
        found == has_input_id(placed_of(inputs@), id),
{
    let mut i: usize = 0;
    while i < inputs.len()
        invariant
            i <= inputs@.len(),
            forall|j: int| 0 <= j < i ==> (#[trigger] placed_of(inputs@)[j]).table.id != id,
        decreases inputs@.len() - i,
    {
        if inputs[i].1.id() == id {
            proof {
                assert(placed_of(inputs@)[i as int].table.id == id);
            }
            return true;
        }
        i = i + 1;
    }
    false
}

/// The tables whose id none of the inputs has.
fn kept_files(files: &Vec<Arc<SSTable>>, inputs: &Vec<(u32, Arc<SSTable>)>) -> (kept: Vec<Arc<SSTable>>)
    requires
        files_wf(files@),
    ensures
        table_states(kept@) == without(table_states(files@), placed_of(inputs@)),
        files_wf(kept@),
{
    let mut kept: Vec<Arc<SSTable>> = Vec::new();
    let ghost states = table_states(files@);
    let mut i: usize = 0;
    proof {
        assert(states.take(0) =~= Seq::<TableState>::empty());
        assert(table_states(kept@) =~= Seq::<TableState>::empty());
    }
    while i < files.len()
        invariant
            i <= files@.len(),
            states == table_states(files@),
            files_wf(files@),
            table_states(kept@) == without(states.take(i as int), placed_of(inputs@)),
            files_wf(kept@),
        decreases files@.len() - i,
    {
        let ghost before = kept@;
        proof {
            assert(states.take(i + 1).drop_last() =~= states.take(i as int));
            assert(files@[i as int].wf());
        }
        if !is_input_id(inputs, files[i].id()) {
            kept.push(share(&files[i]));
            proof {
                assert(table_states(kept@) =~= table_states(before).push(states[i as int]));
            }
        }
        i = i + 1;
    }
    proof {
        assert(states.take(i as int) =~= states);
    }
    kept
}

/// The bytes of the inputs together.
fn input_bytes(inputs: &Vec<(u32, Arc<SSTable>)>) -> (total: u64)
    ensures
        total == at_most(total_bytes(tables_of(placed_of(inputs@))), u64::MAX as int),
        0 <= total_bytes(tables_of(placed_of(inputs@))),
{
    let ghost tables = tables_of(placed_of(inputs@));
    let mut total: u64 = 0;
    let mut i: usize = 0;
    while i < inputs.len()
        invariant
            i <= inputs@.len(),
            tables == tables_of(placed_of(inputs@)),
            total == at_most(total_bytes(tables.take(i as int)), u64::MAX as int),
            0 <= total_bytes(tables.take(i as int)),
        decreases inputs@.len() - i,
    {
        total = total.saturating_add(inputs[i].1.file_size() as u64);
        proof {
            assert(tables.take(i + 1).drop_last() =~= tables.take(i as int));
            assert(tables[i as int] == table_state(*inputs@[i as int].1));
        }
        i = i + 1;
    }
    proof {
        assert(tables.take(i as int) =~= tables);
    }
    total
}

/// One more row in the group that is open, or in a new one.
proof fn lemma_group_step(rows: Seq<Row>, target: int, seen: int, closed: Seq<Seq<Row>>, current: Seq<Row>)
    requires
        0 <= seen < rows.len(),
        current.len() <= seen,
        current == rows.subrange(seen - current.len(), seen),
        current.len() > 0 ==> rows_bytes(current).len() + record_len(rows[seen]) <= target,
        current.len() == 0 && closed.len() > 0 ==> rows_bytes(closed.last()).len() + record_len(rows[seen]) > target,
        split_rows(rows.take(seen), target) == (if current.len() > 0 {
            closed.push(current)
        } else {
            closed
        }),
    ensures
        split_rows(rows.take(seen + 1), target) == closed.push(current.push(rows[seen])),
        current.push(rows[seen]) == rows.subrange(seen - current.len(), seen + 1),
        rows_bytes(current.push(rows[seen])).len() == rows_bytes(current).len() + record_len(rows[seen]),
{
    let row = rows[seen];
    let whole = current.push(row);
    assert(whole.drop_last() =~= current);
    lemma_record_layout(row);
    assert(rows.take(seen + 1).drop_last() =~= rows.take(seen));
    let split = split_rows(rows.take(seen), target);
    if current.len() > 0 {
        assert(split.update(split.len() - 1, split.last().push(row)) =~= closed.push(whole));
    } else {
        assert(whole =~= seq![row]);
    }
    assert(whole =~= rows.subrange(seen - current.len(), seen + 1));
}

/// What closing a group tells of the groups of all rows.
proof fn lemma_closed(rows: Seq<Row>, target: int, seen: int, closed: Seq<Seq<Row>>, current: Seq<Row>)
    requires
        0 <= seen < rows.len(),
        split_rows(rows.take(seen), target) == closed.push(current),
        rows_bytes(current).len() + record_len(rows[seen]) > target,
    ensures
        closed.len() < split_rows(rows, target).len(),
        split_rows(rows, target)[closed.len() as int] == current,
{
    lemma_split_prefix(rows, target, seen, closed.len() as int);
}

proof fn lemma_rows_bytes_positive(rows: Seq<Row>)
    requires
        rows.len() > 0,
    ensures
        rows_bytes(rows).len() > 0,
{
    lemma_record_layout(rows.last());
}

/// A job that wrote all its outputs took an id for each of them.
proof fn lemma_ids_of_groups(start: Run, groups: Seq<Seq<Row>>, level: int, next: int)
    requires
        run_from(start, outputs_steps(groups, level, next)).stop is None,
        next + groups.len() <= u64::MAX,
    ensures
        ids_taken(start, groups, level, next) == groups.len(),
    decreases groups.len(),
{
    if groups.len() > 0 {
        let before = groups.drop_last();
        let last = write_steps(level, next + groups.len() - 1, groups.last());
        lemma_run_concat(start, outputs_steps(before, level, next), last);
        if run_from(start, outputs_steps(before, level, next)).stop is Some {
            lemma_stopped(run_from(start, outputs_steps(before, level, next)), last);
        }
        lemma_ids_of_groups(start, before, level, next);
    }
}

impl PebbleDB {
    /// Writes a group of rows to a table file, behind those before it.
    fn write_output(
        &mut self,
        job: &CompactionJob,
        entries: Vec<(String, SSTableEntry)>,
        outputs: &mut Vec<Arc<SSTable>>,
        Ghost(start): Ghost<Run>,
        Ghost(next): Ghost<int>,
    ) -> (result: Result<u64>)
        requires
            sorted(rows_of(entries@)),
            old(outputs)@.len() < job_groups(job.job()).len(),
            job_groups(job.job())[old(outputs)@.len() as int] == rows_of(entries@),
            old(self).writing(job.job(), start, next, old(outputs)@),
        ensures
            final(self).same_apart_from_trail(old(self)),
            match result {
                Ok(size) => final(self).writing(job.job(), start, next, final(outputs)@) && final(outputs)@.len()
                    == old(outputs)@.len() + 1 && size == total_bytes(table_states(final(outputs)@)) - total_bytes(
                    table_states(old(outputs)@),
                ),
                Err(_) => final(self).gave_up(job.job(), start, next),
            },
            result is Err ==> tells(
                run_from(start, outputs_steps(job_groups(job.job()), job.output_level as int, next)),
                result,
            ),
    {
        let ghost groups = job_groups(job.job());
        let ghost g = outputs@.len() as int;
        let ghost level = job.output_level as int;
        let entries = KeyMap::from_sorted(entries);
        let ghost before = outputs@;
        proof {
            reveal(PebbleDB::writing);
            lemma_outputs_run(start, groups, level, next, g);
            assert(groups.take(g + 1).drop_last() =~= groups.take(g));
        }
        match self.write_level_file(job.output_level, &entries) {
            Ok(table) => {
                let size = table.file_size() as u64;
                outputs.push(table);
                proof {
                    assert(new_tables(groups.take(g + 1), level, next) =~= new_tables(groups.take(g), level, next).push(
                        new_table(level, next + g, groups[g]),
                    ));
                    assert(table_states(outputs@) =~= table_states(before).push(table_state(*table)));
                    assert(table_states(outputs@).drop_last() =~= table_states(before));
                    assert forall|i: int| 0 <= i < g + 1 implies table_len(
                        #[trigger] groups.take(g + 1)[i],
                        DEFAULT_BLOCK_SIZE,
                    ) <= u32::MAX by {
                        if i < g {
                            assert(groups.take(g)[i] == groups.take(g + 1)[i]);
                        }
                    }
                }
                Ok(size)
            },
            Err(error) => {
                proof {
                    lemma_ids_taken(start, groups, level, next, g + 1);
                }
                Err(error)
            },
        }
    }

    /// Writes what the inputs hold to table files.
    fn write_outputs(&mut self, job: &CompactionJob) -> (result: Result<(Vec<Arc<SSTable>>, u64)>)
        requires
            all_tables_wf(job.inputs@),
        ensures
            final(self).same_apart_from_trail(old(self)),
            ({
                let run = run_from(
                    old(self).trail(),
                    outputs_steps(job_groups(job.job()), job.output_level as int, old(self).next_sst_id as int),
                );
                &&& tells(run, result)
                &&& reaches(run, final(self).trail())
            }),
            match result {
                Ok((outputs, written)) => {
                    &&& table_states(outputs@) == job_outputs(job.job(), old(self).next_sst_id as int)
                    &&& files_wf(outputs@)
                    &&& final(self).next_sst_id == old(self).next_sst_id + job_groups(job.job()).len()
                    &&& groups_fit(job_groups(job.job()))
                    &&& written == at_most(total_bytes(table_states(outputs@)), u64::MAX as int)
                },
                Err(_) => final(self).next_sst_id == old(self).next_sst_id + ids_taken(
                    old(self).trail(),
                    job_groups(job.job()),
                    job.output_level as int,
                    old(self).next_sst_id as int,
                ),
            },
    {
        let ghost start = self.trail();
        let ghost next = self.next_sst_id as int;
        let ghost spec_job = job.job();
        let ghost groups = job_groups(spec_job);
        let ghost level = job.output_level as int;
        let ghost target = job.target_file_size as int;
        let ghost keep = !job.drop_tombstones;
        let mut merged = self.merged_inputs(job);
        let ghost rows = job_merged(spec_job);
        let ghost visible_rows = job_rows(spec_job);
        let mut outputs: Vec<Arc<SSTable>> = Vec::new();
        let mut written: u64 = 0;
        let mut current: Vec<(String, SSTableEntry)> = Vec::new();
        let mut current_bytes: usize = 0;
        let ghost mut p: int = 0;
        let ghost mut seen: int = 0;
        proof {
            reveal(PebbleDB::writing);
            merged.lemma_wf();
            lemma_visible(rows, keep);
            assert(groups.take(0) =~= Seq::<Seq<Row>>::empty());
            assert(table_states(outputs@) =~= new_tables(groups.take(0), level, next));
            assert(rows_of(current@) =~= Seq::<Row>::empty());
            assert(visible_rows.take(0) =~= Seq::<Row>::empty());
            assert(rows.take(0) =~= Seq::<Row>::empty());
            assert(rows_of(current@) =~= visible_rows.subrange(0, 0));
        }
        while merged.valid()
            invariant
                merged.wf(),
                merged.rows() == rows,
                merged.pos() == p,
                merged.settled(),
                0 <= p <= rows.len(),
                spec_job == job.job(),
                groups == job_groups(spec_job),
                level == job.output_level,
                target == job.target_file_size,
                keep == !job.drop_tombstones,
                rows == job_merged(spec_job),
                visible_rows == visible(rows, keep),
                groups == split_rows(visible_rows, target),
                sorted(visible_rows),
                seen == visible(rows.take(p), keep).len(),
                0 <= seen <= visible_rows.len(),
                start == old(self).trail(),
                next == old(self).next_sst_id,
                self.same_apart_from_trail(old(self)),
                self.writing(spec_job, start, next, outputs@),
                outputs@.len() <= groups.len(),
                written == at_most(total_bytes(table_states(outputs@)), u64::MAX as int),
                0 <= total_bytes(table_states(outputs@)),
                current@.len() <= seen,
                rows_of(current@) == visible_rows.subrange(seen - current@.len(), seen),
                current_bytes == at_most(rows_bytes(rows_of(current@)).len() as int, usize::MAX as int),
                current@.len() == 0 ==> seen == 0 && outputs@.len() == 0,
                split_rows(visible_rows.take(seen), target) == (if current@.len() > 0 {
                    groups.take(outputs@.len() as int).push(rows_of(current@))
                } else {
                    groups.take(outputs@.len() as int)
                }),
            decreases rows.len() - p,
        {
            let key = match merged.key() {
                Some(key) => key.to_string(),
                None => String::new(),
            };
            let entry = match merged.value() {
                Some(value) => SSTableEntry::Value(value.to_string()),
                None => SSTableEntry::Tombstone,
            };
            let ghost row = rows[p];
            proof {
                lemma_visible_step(rows, p, keep);
                lemma_visible_prefix(rows, p, keep);
                lemma_visible_prefix(rows, p + 1, keep);
                assert(row == (key@, entry.stored()));
            }
            merged.advance();
            proof {
                p = p + 1;
            }
            let deleted = match &entry {
                SSTableEntry::Tombstone => true,
                SSTableEntry::Value(_) => false,
            };
            if !(job.drop_tombstones && deleted) {
                let size = record_size(&key, entry.value());
                let fits = current_bytes <= job.target_file_size && size <= job.target_file_size - current_bytes;
                proof {
                    assert(visible_rows[seen] == row);
                    if current@.len() > 0 {
                        lemma_rows_bytes_positive(rows_of(current@));
                    }
                    assert(current@.len() > 0 ==> fits == (rows_bytes(rows_of(current@)).len() + record_len(row)
                        <= target));
                }
                if current.len() > 0 && !fits {
                    let ghost whole = rows_of(current@);
                    let ghost closed = groups.take(outputs@.len() as int);
                    proof {
                        lemma_closed(visible_rows, target, seen, closed, whole);
                        lemma_sorted_subrange(visible_rows, seen - current@.len(), seen);
                    }
                    let mut entries: Vec<(String, SSTableEntry)> = Vec::new();
                    entries.append(&mut current);
                    proof {
                        assert(rows_of(entries@) =~= whole);
                    }
                    match self.write_output(job, entries, &mut outputs, Ghost(start), Ghost(next)) {
                        Ok(size) => {
                            written = written.saturating_add(size);
                        },
                        Err(error) => {
                            return Err(error);
                        },
                    }
                    current_bytes = 0;
                    proof {
                        assert(rows_of(current@) =~= visible_rows.subrange(seen, seen));
                        assert(closed.push(whole) =~= groups.take(outputs@.len() as int));
                    }
                }
                let ghost before = current@;
                let ghost closed = groups.take(outputs@.len() as int);
                current.push((key, entry));
                proof {
                    assert(rows_of(current@) =~= rows_of(before).push(row));
                    lemma_group_step(visible_rows, target, seen, closed, rows_of(before));
                    seen = seen + 1;
                }
                current_bytes = current_bytes.saturating_add(size);
            }
        }
        proof {
            assert(rows.take(p) =~= rows);
            assert(visible_rows.take(seen) =~= visible_rows);
            assert(groups.take(groups.len() as int) =~= groups);
            reveal(PebbleDB::writing);
        }
        if current.len() > 0 {
            proof {
                assert(groups.last() == rows_of(current@));
                lemma_sorted_subrange(visible_rows, seen - current@.len(), seen);
            }
            match self.write_output(job, current, &mut outputs, Ghost(start), Ghost(next)) {
                Ok(size) => {
                    written = written.saturating_add(size);
                },
                Err(error) => {
                    return Err(error);
                },
            }
        }
        Ok((outputs, written))
    }

    /// A cursor over what the inputs hold together.
    fn merged_inputs(&self, job: &CompactionJob) -> (merged: MergeIterator<SSTableIterator>)
        requires
            all_tables_wf(job.inputs@),
        ensures
            merged.wf(),
            merged.rows() == job_merged(job.job()),
            merged.pos() == 0,
    {
        let sources = reading_order(&job.inputs);
        let ghost ordered = in_reading_order(placed_of(job.inputs@));
        let mut children: Vec<SSTableIterator> = Vec::new();
        let mut i: usize = 0;
        while i < sources.len()
            invariant
                i <= sources@.len(),
                placed_of(sources@) == ordered,
                all_tables_wf(sources@),
                children@.len() == i,
                all_wf(children@),
                forall|j: int| 0 <= j < i ==> (#[trigger] children@[j]).rows() == ordered[j].table.rows(),
            decreases sources@.len() - i,
        {
            let ghost before = children@;
            proof {
                assert(sources@[i as int].1.wf());
                crate::db::lemma_table_state(&sources@[i as int].1);
                assert(ordered[i as int] == placed_of(sources@)[i as int]);
            }
            children.push(SSTableIterator::new(share(&sources[i].1)));
            proof {
                assert forall|j: int| 0 <= j < children@.len() implies (#[trigger] children@[j]).wf() by {
                    if j < i {
                        assert(children@[j] == before[j]);
                    }
                }
            }
            i = i + 1;
        }
        proof {
            assert(source_rows(children@) =~= placed_rows(ordered));
        }
        MergeIterator::new_with_tombstones(children)
    }

    /// Records a merge as pending.
    fn write_pending_merge(&mut self, outputs: &Vec<Arc<SSTable>>, inputs: &Vec<(u32, Arc<SSTable>)>)
        ensures
            final(self).same_apart_from_trail(old(self)),
            final(self).next_sst_id == old(self).next_sst_id,
            final(self).fault == old(self).fault,
            ({
                let outputs = Seq::new(outputs@.len(), |i: int| outputs@[i].table_id());
                let marker = encode_utf8(pending_text(outputs, input_ids(placed_of(inputs@))));
                ops_of(final(self).journal@) == ops_of(old(self).journal@).push(
                    FileOp::Write { name: tmp_name(pending_name()), data: marker },
                ).push(FileOp::Rename { from: tmp_name(pending_name()), to: pending_name() })
            }),
    {
        let mut written: Vec<u64> = Vec::new();
        let mut i: usize = 0;
        while i < outputs.len()
            invariant
                i <= outputs@.len(),
                written@.len() == i,
                forall|j: int| 0 <= j < i ==> written@[j] == (#[trigger] outputs@[j]).table_id(),
            decreases outputs@.len() - i,
        {
            written.push(outputs[i].id());
            i = i + 1;
        }
        let mut read: Vec<u64> = Vec::new();
        let mut j: usize = 0;
        while j < inputs.len()
            invariant
                j <= inputs@.len(),
                read@.len() == j,
                forall|k: int| 0 <= k < j ==> read@[k] == (#[trigger] placed_of(inputs@)[k]).table.id,
            decreases inputs@.len() - j,
        {
            read.push(inputs[j].1.id());
            j = j + 1;
        }
        proof {
            assert(written@ =~= Seq::new(outputs@.len(), |i: int| outputs@[i].table_id()));
            assert(read@ =~= input_ids(placed_of(inputs@)));
        }
        let text = pending_merge_text(written.as_slice(), read.as_slice());
        let mut data: Vec<u8> = Vec::new();
        push_bytes(&mut data, text.as_str().as_bytes());
        proof {
            assert(data@ =~= encode_utf8(text@));
        }
        let marker = pending_file_name();
        let tmp = tmp_file_name(&marker);
        self.do_op(DiskOp::Write { name: tmp.clone(), data });
        self.do_op(DiskOp::Rename { from: tmp, to: marker });
    }

    /// Removes the files of the inputs.
    fn remove_inputs(&mut self, inputs: &Vec<(u32, Arc<SSTable>)>) -> (result: Result<()>)
        ensures
            final(self).same_apart_from_trail(old(self)),
            final(self).next_sst_id == old(self).next_sst_id,
            ({
                let run = run_from(old(self).trail(), remove_steps(placed_of(inputs@)));
                &&& tells(run, result)
                &&& reaches(run, final(self).trail())
            }),
    {
        let ghost start = self.trail();
        let ghost placed = placed_of(inputs@);
        let mut i: usize = 0;
        proof {
            assert(placed.take(0) =~= Seq::<Placed>::empty());
        }
        while i < inputs.len()
            invariant
                i <= inputs@.len(),
                start == old(self).trail(),
                placed == placed_of(inputs@),
                self.same_apart_from_trail(old(self)),
                self.next_sst_id == old(self).next_sst_id,
                self.trail() == run_from(start, remove_steps(placed.take(i as int))),
            decreases inputs@.len() - i,
        {
            let ghost own = seq![
                Step::Point(FaultPoint::BeforeObsoleteFileDelete),
                Step::Op(FileOp::Remove { name: placed[i as int].table.path }),
            ];
            let ghost before = self.trail();
            proof {
                lemma_remove_run(start, placed, i as int);
                lemma_next(before, own, 0);
                lemma_next(before, own, 1);
            }
            match self.fault.hit(FaultPoint::BeforeObsoleteFileDelete) {
                Ok(()) => {},
                Err(error) => {
                    return Err(error);
                },
            }
            self.do_op(DiskOp::Remove { name: inputs[i].1.path().to_string() });
            i = i + 1;
        }
        proof {
            assert(placed.take(i as int) =~= placed);
        }
        Ok(())
    }

    /// Makes sure that there is a level `level`.
    fn ensure_level(&mut self, level: u32)
        requires
            old(self).wf(),
        ensures
            final(self).wf(),
            final(self).same_apart_from_levels(old(self)),
            final(self).levels@.len() == at_least(old(self).levels@.len() as int, level + 1),
            forall|l: int|
                0 <= l < final(self).levels@.len() ==> #[trigger] level_states(final(self).levels@)[l] == level_at(
                    level_states(old(self).levels@),
                    l,
                ),
    {
        let ghost before = level_states(self.levels@);
        proof {
            assert forall|l: int| 0 <= l < self.levels@.len() implies #[trigger] level_states(self.levels@)[l] == level_at(
                before,
                l,
            ) by {}
        }
        while self.levels.len() <= level as usize
            invariant
                self.wf(),
                before == level_states(old(self).levels@),
                self.same_apart_from_levels(old(self)),
                self.levels@.len() == old(self).levels@.len() || self.levels@.len() <= level + 1,
                self.levels@.len() >= old(self).levels@.len(),
                forall|l: int|
                    0 <= l < self.levels@.len() ==> #[trigger] level_states(self.levels@)[l] == level_at(before, l),
            decreases level + 1 - self.levels@.len(),
        {
            let ghost earlier = self.levels@;
            self.levels.push(Vec::new());
            proof {
                assert forall|l: int, i: int|
                    0 <= l < self.levels@.len() && 0 <= i < self.levels@[l]@.len() implies (
                #[trigger] self.levels@[l]@[i]).wf() by {
                    assert(earlier[l]@[i].wf());
                }
                assert forall|l: int| 0 <= l < self.levels@.len() implies #[trigger] level_states(self.levels@)[l]
                    == level_at(before, l) by {
                    if l < earlier.len() {
                        assert(level_states(earlier)[l] == level_at(before, l));
                    } else {
                        assert(level_states(self.levels@)[l] =~= Seq::<TableState>::empty());
                    }
                }
            }
        }
    }

    /// Takes the inputs of a job out of the levels and puts its outputs in.
    fn install_outputs(&mut self, job: &CompactionJob, outputs: Vec<Arc<SSTable>>)
        requires
            old(self).wf(),
            files_wf(outputs@),
        ensures
            final(self).wf(),
            final(self).same_apart_from_levels(old(self)),
            level_states(final(self).levels@) == merged_levels(
                level_states(old(self).levels@),
                job.job().inputs,
                job.output_level as int,
                table_states(outputs@),
            ),
    {
        let ghost inputs = job.job().inputs;
        let ghost output = job.output_level as int;
        let ghost before = level_states(self.levels@);
        let ghost added = table_states(outputs@);
        self.ensure_level(job.output_level);
        let ghost grown = self.levels@;
        let mut outputs = outputs;
        let mut level: usize = 0;
        let mut levels: Vec<Vec<Arc<SSTable>>> = Vec::new();
        while level < self.levels.len()
            invariant
                self.wf(),
                self.levels@ == grown,
                level <= grown.len(),
                levels@.len() == level,
                inputs == placed_of(job.inputs@),
                output == job.output_level,
                level <= output ==> table_states(outputs@) == added,
                files_wf(outputs@),
                forall|l: int| 0 <= l < grown.len() ==> #[trigger] level_states(grown)[l] == level_at(before, l),
                forall|l: int| 0 <= l < level ==> files_wf((#[trigger] levels@[l])@),
                forall|l: int|
                    0 <= l < level ==> #[trigger] level_states(levels@)[l] == (if l == output {
                        sorted_by_id(without(level_at(before, l), inputs) + added)
                    } else {
                        without(level_at(before, l), inputs)
                    }),
            decreases grown.len() - level,
        {
            let ghost earlier = levels@;
            proof {
                assert(level_states(grown)[level as int] == level_at(before, level as int));
                assert forall|i: int| 0 <= i < self.levels@[level as int]@.len() implies (
                #[trigger] self.levels@[level as int]@[i]).wf() by {}
            }
            let mut kept = kept_files(&self.levels[level], &job.inputs);
            if level == job.output_level as usize {
                let ghost staying = kept@;
                let ghost joining = outputs@;
                kept.append(&mut outputs);
                proof {
                    assert(table_states(kept@) =~= table_states(staying) + table_states(joining));
                    assert forall|i: int| 0 <= i < kept@.len() implies (#[trigger] kept@[i]).wf() by {
                        if i < staying.len() {
                            assert(kept@[i] == staying[i]);
                        } else {
                            assert(kept@[i] == joining[i - staying.len()]);
                        }
                    }
                }
                kept = ordered_by_id(kept);
            }
            let ghost own = kept@;
            levels.push(kept);
            proof {
                assert forall|l: int| 0 <= l < level + 1 implies #[trigger] level_states(levels@)[l] == (if l == output {
                    sorted_by_id(without(level_at(before, l), inputs) + added)
                } else {
                    without(level_at(before, l), inputs)
                }) by {
                    if l < level {
                        assert(level_states(levels@)[l] == level_states(earlier)[l]);
                    } else {
                        assert(level_states(levels@)[l] == table_states(own));
                    }
                }
                assert forall|l: int| 0 <= l < level + 1 implies files_wf((#[trigger] levels@[l])@) by {
                    if l < level {
                        assert(levels@[l] == earlier[l]);
                    }
                }
            }
            level = level + 1;
        }
        self.levels = levels;
        proof {
            assert(level_states(self.levels@) =~= merged_levels(before, inputs, output, added));
            assert forall|l: int, i: int| 0 <= l < self.levels@.len() && 0 <= i < self.levels@[l]@.len() implies (
            #[trigger] self.levels@[l]@[i]).wf() by {
                assert(files_wf(levels@[l]@));
            }
        }
    }

    /// Merges tables: what they hold is written to new tables, which then take their place.
    fn execute_job(&mut self, job: CompactionJob) -> (result: Result<JobOutcome>)
        requires
            old(self).wf(),
            all_tables_wf(job.inputs@),
        ensures
            final(self).wf(),
            ({
                let run = run_from(old(self).trail(), job_steps(job.job(), old(self).next_sst_id as int));
                &&& tells(run, result)
                &&& reaches(run, final(self).trail())
            }),
            final(self).model() == (DbModel {
                tree: tree_after_attempt(old(self).tree(), old(self).trail(), job.job()),
                trail: final(self).trail(),
                ..old(self).model()
            }),
            result matches Ok(outcome) ==> {
                &&& outcome == job_outcome(job.job(), old(self).next_sst_id as int)
                &&& job_fits(job.job(), old(self).next_sst_id as int)
                &&& final(self).tree() == tree_after(old(self).tree(), job.job())
            },
    {
        let ghost start = self.trail();
        let ghost next = self.next_sst_id as int;
        let ghost spec_job = job.job();
        let ghost level = job.output_level as int;
        let ghost writing = outputs_steps(job_groups(spec_job), level, next);
        let ghost marking = mark_steps(spec_job, next);
        let ghost removing = remove_steps(spec_job.inputs);
        let ghost ending = seq![
            Step::Point(FaultPoint::AfterObsoleteFileDelete),
            Step::Point(FaultPoint::BeforeMetadataUpdate),
        ];
        let ghost behind = job_steps_behind();
        let ghost run_1 = run_from(start, writing);
        let ghost run_2 = run_from(run_1, marking);
        let ghost run_3 = run_from(run_2, removing);
        let ghost run_4 = run_from(run_3, ending);
        proof {
            lemma_run_concat(start, writing, marking);
            lemma_run_concat(start, writing + marking, removing);
            lemma_run_concat(start, writing + marking + removing, ending);
            lemma_run_concat(start, job_steps_before(spec_job, next), behind);
            if run_1.stop is Some {
                lemma_stopped(run_1, marking);
            }
            if run_2.stop is Some {
                lemma_stopped(run_2, removing);
            }
            if run_3.stop is Some {
                lemma_stopped(run_3, ending);
            }
            if run_4.stop is Some {
                lemma_stopped(run_4, behind);
            }
        }
        let bytes_read: u64 = input_bytes(&job.inputs);
        let input_files: u64 = job.inputs.len() as u64;
        let (outputs, bytes_written) = match self.write_outputs(&job) {
            Ok(written) => written,
            Err(error) => {
                return Err(error);
            },
        };
        proof {
            lemma_ids_of_groups(start, job_groups(spec_job), level, next);
            lemma_next(run_1, marking, 0);
            lemma_next(run_1, marking, 1);
            lemma_next(run_1, marking, 2);
            assert(Seq::new(outputs@.len(), |i: int| outputs@[i].table_id()) =~= output_ids(
                job_groups(spec_job).len() as int,
                next,
            )) by {
                assert forall|i: int| 0 <= i < outputs@.len() implies (#[trigger] outputs@[i]).table_id() == (next + i) as u64 by {
                    assert(table_states(outputs@)[i] == job_outputs(spec_job, next)[i]);
                }
            }
        }
        match self.fault.hit(FaultPoint::AfterCompactionOutputCreation) {
            Ok(()) => {},
            Err(error) => {
                return Err(error);
            },
        }
        self.write_pending_merge(&outputs, &job.inputs);
        match self.remove_inputs(&job.inputs) {
            Ok(()) => {},
            Err(error) => {
                return Err(error);
            },
        }
        proof {
            lemma_next(run_3, ending, 0);
            lemma_next(run_3, ending, 1);
        }
        match self.fault.hit(FaultPoint::AfterObsoleteFileDelete) {
            Ok(()) => {},
            Err(error) => {
                return Err(error);
            },
        }
        match self.fault.hit(FaultPoint::BeforeMetadataUpdate) {
            Ok(()) => {},
            Err(error) => {
                return Err(error);
            },
        }
        let output_files: u64 = outputs.len() as u64;
        self.install_outputs(&job, outputs);
        proof {
            lemma_next(run_4, behind, 0);
            lemma_next(run_4, behind, 1);
        }
        match self.fault.hit(FaultPoint::AfterMetadataUpdate) {
            Ok(()) => {},
            Err(error) => {
                return Err(error);
            },
        }
        self.do_op(DiskOp::Remove { name: pending_file_name() });
        Ok(JobOutcome { bytes_read, bytes_written, input_files, output_files })
    }

    /// Merges tables as long as a merge is due.
    pub(super) fn compact_pending(&mut self) -> (result: Result<()>)
        requires
            old(self).wf(),
        ensures
            final(self).wf(),
            compacted(old(self).model(), final(self).model(), result),
    {
        let config = self.options.level_config();
        let ghost before = self.model();
        let ghost target = self.options.target_file_size as int;
        let ghost mut rounds: nat = 0;
        proof {
            self.lemma_levels();
        }
        loop
            invariant
                self.wf(),
                before == old(self).model(),
                config == config_of(before.options),
                config.wf(),
                target == before.options.target_file_size,
                rounds_due(before.tree, config, target, rounds),
                self.trail() == run_from(before.trail, rounds_steps(before.tree, config, target, rounds)),
                self.model() == (DbModel {
                    tree: tree_after_rounds(before.tree, config, target, rounds),
                    metrics: metrics_after_rounds(before.metrics, before.tree, config, target, rounds),
                    trail: self.trail(),
                    ..before
                }),
            decreases remaining_work(level_states(self.levels@)),
        {
            let metas = self.file_metas();
            let ghost levels = level_states(self.levels@);
            let ghost next = self.next_sst_id as int;
            let ghost tree = self.tree();
            let plan = match pick_compaction(metas.as_slice(), &config) {
                Some(plan) => plan,
                None => {
                    proof {
                        assert(compacted_in(before, self.model(), Ok(()), rounds));
                    }
                    return Ok(());
                },
            };
            proof {
                lemma_plan_level(levels_metas(levels), config);
                self.lemma_levels();
            }
            let job = self.plan_job(&plan);
            let ghost spec_job = job.job();
            proof {
                assert(due_job(tree, config, target) == Some(spec_job));
                lemma_run_concat(
                    before.trail,
                    rounds_steps(before.tree, config, target, rounds),
                    job_steps(spec_job, next),
                );
                rounds = rounds + 1;
                assert(rounds_due(before.tree, config, target, rounds)) by {
                    assert forall|i: nat| i < rounds implies due_job(
                        #[trigger] tree_after_rounds(before.tree, config, target, i),
                        config,
                        target,
                    ) is Some by {
                        if i == rounds - 1 {
                            assert(tree_after_rounds(before.tree, config, target, i) == tree);
                        }
                    }
                }
            }
            match self.execute_job(job) {
                Ok(outcome) => {
                    self.metrics.record(Some(plan.level), &outcome);
                    proof {
                        law_compaction_makes_progress(levels, next, config, plan.plan(), target);
                    }
                },
                Err(error) => {
                    proof {
                        let result: Result<()> = Err(error);
                        assert(compacted_in(before, self.model(), result, rounds));
                    }
                    return Err(error);
                },
            }
        }
    }

    /// Merges all tables into one.
    pub(super) fn compact_all(&mut self) -> (result: Result<()>)
        requires
            old(self).wf(),
        ensures
            final(self).wf(),
            fully_compacted(old(self).model(), final(self).model(), result),
    {
        let inputs = self.all_inputs();
        if inputs.len() <= 1 {
            return Ok(());
        }
        let job = CompactionJob { inputs, output_level: 1, drop_tombstones: true, target_file_size: usize::MAX };
        match self.execute_job(job) {
            Ok(outcome) => {
                self.metrics.record(None, &outcome);
                Ok(())
            },
            Err(error) => Err(error),
        }
    }

    /// All tables with their levels.
    fn all_inputs(&self) -> (inputs: Vec<(u32, Arc<SSTable>)>)
        requires
            self.wf(),
        ensures
            placed_of(inputs@) == all_placed(level_states(self.levels@)),
            all_tables_wf(inputs@),
    {
        let mut inputs: Vec<(u32, Arc<SSTable>)> = Vec::new();
        let ghost states = level_states(self.levels@);
        let mut level: usize = 0;
        proof {
            assert(states.take(0) =~= Seq::<Seq<TableState>>::empty());
            assert(placed_of(inputs@) =~= Seq::<Placed>::empty());
        }
        while level < self.levels.len()
            invariant
                self.wf(),
                states == level_states(self.levels@),
                level <= self.levels@.len(),
                placed_of(inputs@) == all_placed(states.take(level as int)),
                all_tables_wf(inputs@),
            decreases self.levels@.len() - level,
        {
            let files = &self.levels[level];
            let ghost tables = table_states(files@);
            let ghost before = placed_of(inputs@);
            let ghost own = Seq::new(tables.len(), |i: int| Placed { level: level as int, table: tables[i] });
            let mut i: usize = 0;
            proof {
                assert(before + own.take(0) =~= before);
            }
            while i < files.len()
                invariant
                    self.wf(),
                    level < self.levels@.len(),
                    *files == self.levels@[level as int],
                    tables == table_states(files@),
                    own == Seq::new(tables.len(), |i: int| Placed { level: level as int, table: tables[i] }),
                    i <= files@.len(),
                    placed_of(inputs@) == before + own.take(i as int),
                    all_tables_wf(inputs@),
                decreases files@.len() - i,
            {
                let ghost earlier = inputs@;
                proof {
                    assert(self.levels@[level as int]@[i as int].wf());
                }
                inputs.push((level as u32, share(&files[i])));
                proof {
                    assert(placed_of(inputs@) =~= placed_of(earlier).push(own[i as int]));
                    assert(own.take(i + 1) =~= own.take(i as int).push(own[i as int]));
                    assert(placed_of(inputs@) =~= before + own.take(i + 1));
                }
                i = i + 1;
            }
            proof {
                assert(own.take(i as int) =~= own);
                assert(states.take(level + 1).drop_last() =~= states.take(level as int));
                assert(states.take(level + 1).last() == tables);
            }
            level = level + 1;
        }
        proof {
            assert(states.take(level as int) =~= states);
        }
        inputs
    }

    /// Whether the first outputs of a job are written, and nothing has stopped it.
    #[verifier::opaque]
    spec fn writing(&self, job: Job, start: Run, next: int, outputs: Seq<Arc<SSTable>>) -> bool {
        let groups = job_groups(job);
        let g = outputs.len() as int;
        let run = run_from(start, outputs_steps(groups.take(g), job.output_level, next));
        &&& g <= groups.len()
        &&& run.stop is None
        &&& reaches(run, self.trail())
        &&& self.next_sst_id == next + g
        &&& ids_taken(start, groups.take(g), job.output_level, next) == g
        &&& table_states(outputs) == new_tables(groups.take(g), job.output_level, next)
        &&& files_wf(outputs)
        &&& groups_fit(groups.take(g))
        &&& 0 <= next
    }

    /// Whether the writing of the outputs of a job has been stopped.
    spec fn gave_up(&self, job: Job, start: Run, next: int) -> bool {
        let run = run_from(start, outputs_steps(job_groups(job), job.output_level, next));
        &&& run.stop is Some
        &&& reaches(run, self.trail())
        &&& self.next_sst_id == next + ids_taken(start, job_groups(job), job.output_level, next)
    }

    /// What the choice of a compaction depends on, of every table.
    fn file_metas(&self) -> (metas: Vec<FileMeta>)
        requires
            self.wf(),
        ensures
            metas_of(metas@) == levels_metas(level_states(self.levels@)),
    {
        let mut metas: Vec<FileMeta> = Vec::new();
        let ghost states = level_states(self.levels@);
        let mut level: usize = 0;
        proof {
            assert(states.take(0) =~= Seq::<Seq<TableState>>::empty());
            assert(metas_of(metas@) =~= Seq::<Meta>::empty());
        }
        while level < self.levels.len()
            invariant
                self.wf(),
                states == level_states(self.levels@),
                level <= self.levels@.len(),
                metas_of(metas@) == levels_metas(states.take(level as int)),
            decreases self.levels@.len() - level,
        {
            let files = &self.levels[level];
            let ghost tables = table_states(files@);
            let ghost before = metas_of(metas@);
            let mut i: usize = 0;
            proof {
                assert(tables.take(0) =~= Seq::<TableState>::empty());
                assert(before + level_metas(tables.take(0), level as int) =~= before);
            }
            while i < files.len()
                invariant
                    self.wf(),
                    level < self.levels@.len(),
                    *files == self.levels@[level as int],
                    tables == table_states(files@),
                    i <= files@.len(),
                    metas_of(metas@) == before + level_metas(tables.take(i as int), level as int),
                decreases files@.len() - i,
            {
                let sst = &files[i];
                let ghost earlier = metas@;
                proof {
                    assert(self.levels@[level as int]@[i as int].wf());
                    crate::db::lemma_table_state(sst);
                    assert(tables.take(i + 1).drop_last() =~= tables.take(i as int));
                    assert(tables[i as int] == table_state(**sst));
                }
                if let Some((smallest, largest)) = sst.key_range() {
                    let meta = FileMeta {
                        id: sst.id(),
                        level: level as u32,
                        smallest: smallest.to_string(),
                        largest: largest.to_string(),
                        size: sst.file_size(),
                    };
                    metas.push(meta);
                    proof {
                        assert(meta.meta() == meta_of(tables[i as int], level as int));
                        assert(metas_of(metas@) =~= metas_of(earlier).push(meta.meta()));
                        assert(metas_of(earlier).push(meta.meta()) =~= before + level_metas(
                            tables.take(i as int),
                            level as int,
                        ).push(meta.meta()));
                    }
                }
                i = i + 1;
            }
            proof {
                assert(tables.take(i as int) =~= tables);
                assert(states.take(level + 1).drop_last() =~= states.take(level as int));
                assert(states.take(level + 1).last() == tables);
            }
            level = level + 1;
        }
        proof {
            assert(states.take(level as int) =~= states);
        }
        metas
    }

    /// The tables of a level that have one of the ids.
    fn chosen_files(&self, level: u32, ids: &Vec<u64>) -> (inputs: Vec<(u32, Arc<SSTable>)>)
        requires
            self.wf(),
        ensures
            placed_of(inputs@) == chosen(level_at(level_states(self.levels@), level as int), level as int, ids@),
            all_tables_wf(inputs@),
    {
        let mut inputs: Vec<(u32, Arc<SSTable>)> = Vec::new();
        let ghost states = level_states(self.levels@);
        let ghost tables = level_at(states, level as int);
        proof {
            assert(placed_of(inputs@) =~= Seq::<Placed>::empty());
        }
        if level as usize >= self.levels.len() {
            return inputs;
        }
        let files = &self.levels[level as usize];
        let mut i: usize = 0;
        proof {
            assert(tables == table_states(files@));
            assert(tables.take(0) =~= Seq::<TableState>::empty());
        }
        while i < files.len()
            invariant
                self.wf(),
                level < self.levels@.len(),
                *files == self.levels@[level as int],
                tables == table_states(files@),
                i <= files@.len(),
                placed_of(inputs@) == chosen(tables.take(i as int), level as int, ids@),
                all_tables_wf(inputs@),
            decreases files@.len() - i,
        {
            let ghost before = inputs@;
            proof {
                assert(self.levels@[level as int]@[i as int].wf());
                assert(tables.take(i + 1).drop_last() =~= tables.take(i as int));
            }
            if contains_id(ids, files[i].id()) {
                inputs.push((level, share(&files[i])));
                proof {
                    assert(placed_of(inputs@) =~= placed_of(before).push(
                        Placed { level: level as int, table: tables[i as int] },
                    ));
                }
            }
            i = i + 1;
        }
        proof {
            assert(tables.take(i as int) =~= tables);
        }
        inputs
    }

    /// The merge for a plan.
    fn plan_job(&self, plan: &CompactionPlan) -> (job: CompactionJob)
        requires
            self.wf(),
            plan.level < u32::MAX,
        ensures
            job.job() == plan_job(level_states(self.levels@), plan.plan(), self.options.target_file_size as int),
            all_tables_wf(job.inputs@),
    {
        let mut inputs = self.chosen_files(plan.level, &plan.inputs);
        let mut overlaps = self.chosen_files(plan.level + 1, &plan.overlaps);
        let ghost upper = inputs@;
        let ghost lower = overlaps@;
        inputs.append(&mut overlaps);
        proof {
            assert(placed_of(inputs@) =~= placed_of(upper) + placed_of(lower));
        }
        CompactionJob {
            inputs,
            output_level: plan.level + 1,
            drop_tombstones: plan.drop_tombstones,
            target_file_size: self.options.target_file_size,
        }
    }
}

}
