//! What a handle on a database gives, whether or not calls on it have failed.
//!
//! Nothing here speaks of the directory: what is said holds of what the handle keeps in memory.
use crate::compaction::{plan_for, LevelConfig};
use crate::crash::{law_due_merge_is_safe, law_full_merge_is_safe, safe_job, same_contents};
use crate::db::{
    compacted, compacted_in, config_of, flush_cut_short, flush_done, flushed, fully_compacted, is_read, row_applied,
    written, DbModel,
};
use crate::disk::{lemma_run_concat, lemma_stopped, run_from, FileOp, Image, Run, Step};
use crate::engine::{
    apply_steps, contents, due_job, flush_steps, flush_steps_before, ids_taken, job_steps, job_steps_before,
    lemma_lookup, log_steps, mark_steps, outputs_steps, remove_steps, rounds_due, rounds_steps, tree_after,
    tree_after_attempt, tree_after_rounds, write_steps, TreeState,
};
use crate::error::Result;
use crate::fault::FaultPoint;
use crate::levels::{job_rows, level_at, levels_get, value_of, Job, Levels};
use crate::merge::{
    all_placed, full_job, job_fits, job_groups, job_outputs, law_split_partitions_rows, lemma_job_outputs,
    lemma_member_wf, lemma_new_table, level_count_ok, levels_metas, levels_ok,
};
use crate::names::wal_name;
use crate::rows::{lemma_upsert, sorted, upsert, Row};
use crate::safety::{
    drained, law_written_row_is_read, lemma_behind_passed, lemma_flushed_contents, lemma_outputs_run_ops,
    lemma_write_run, ready, tree_with_flushed,
};
use crate::table::{table_len, DEFAULT_BLOCK_SIZE};
use vstd::prelude::*;

verus! {

/// What every call keeps of the tables in memory, also a call that fails.
pub open spec fn coherent_tree(tree: TreeState) -> bool {
    &&& levels_ok(tree.levels, tree.next_id)
    &&& level_count_ok(tree.levels)
    &&& 0 <= tree.next_id <= u64::MAX
}

/// What every call keeps of a handle, also a call that fails.
pub open spec fn coherent(model: DbModel) -> bool {
    &&& model.trail.stop is None
    &&& sorted(model.memtable)
    &&& coherent_tree(model.tree)
}

/// Every table holds something. Tables that flushes and merges write do; one that lies in the
/// directory when it is opened may not.
pub open spec fn none_empty(levels: Levels) -> bool {
    forall|l: int, i: int| 0 <= l < levels.len() && 0 <= i < levels[l].len() ==> (#[trigger] levels[l][i]).rows().len() > 0
}

/// A handle whose directory represents it is coherent.
pub proof fn law_ready_handle_is_coherent(model: DbModel, image: Image)
    requires
        ready(model, image),
    ensures
        coherent(model),
{
}

/// Taking the operations from the journal changes nothing of what a handle gives.
pub proof fn law_taking_operations_changes_nothing(model: DbModel)
    requires
        coherent(model),
    ensures
        coherent(drained(model)),
        same_contents(drained(model).memtable, drained(model).tree.levels, model.memtable, model.tree.levels),
{
}

/// Reading changes nothing of what a handle gives.
pub proof fn law_reading_changes_nothing(before: DbModel, key: Seq<char>, after: DbModel)
    requires
        coherent(before),
        is_read(before, key, after),
    ensures
        coherent(after),
        same_contents(after.memtable, after.tree.levels, before.memtable, before.tree.levels),
{
}

/// Ids that are not used do no harm.
proof fn lemma_more_ids(levels: Levels, next_id: int, later: int)
    requires
        levels_ok(levels, next_id),
        next_id <= later,
    ensures
        levels_ok(levels, later),
{
}

proof fn lemma_ids_bounds(start: Run, groups: Seq<Seq<Row>>, level: int, next_id: int)
    requires
        0 <= next_id <= u64::MAX,
    ensures
        0 <= ids_taken(start, groups, level, next_id) <= groups.len(),
        next_id + ids_taken(start, groups, level, next_id) <= u64::MAX,
    decreases groups.len(),
{
    if groups.len() > 0 {
        lemma_ids_bounds(start, groups.drop_last(), level, next_id);
    }
}

proof fn lemma_same_values(memtable: Seq<Row>, levels: Levels, others: Levels)
    requires
        forall|key: Seq<char>| value_of(#[trigger] levels_get(levels, key)) == value_of(levels_get(others, key)),
    ensures
        same_contents(memtable, levels, memtable, others),
{
    assert forall|key: Seq<char>| #[trigger] contents(memtable, levels, key) == contents(memtable, others, key) by {
        lemma_lookup(memtable, levels, key);
        lemma_lookup(memtable, others, key);
        assert(value_of(levels_get(levels, key)) == value_of(levels_get(others, key)));
    }
}

/// No table that a merge writes is empty.
proof fn lemma_outputs_hold_something(tree: TreeState, job: Job)
    requires
        coherent_tree(tree),
        safe_job(tree, job),
        job_fits(job, tree.next_id),
        none_empty(tree.levels),
    ensures
        none_empty(tree_after(tree, job).levels),
{
    let outputs = job_outputs(job, tree.next_id);
    let after = tree_after(tree, job).levels;
    assert forall|i: int| 0 <= i < job.inputs.len() implies (#[trigger] job.inputs[i]).table.wf() by {
        assert(job.inputs.contains(job.inputs[i]));
        lemma_member_wf(tree.levels, job.inputs[i].level, job.inputs[i].table);
    }
    lemma_job_outputs(job, tree.next_id);
    law_split_partitions_rows(job_rows(job), job.target_file_size);
    assert forall|l: int, i: int| 0 <= l < after.len() && 0 <= i < after[l].len() implies (
    #[trigger] after[l][i]).rows().len() > 0 by {
        let t = after[l][i];
        assert(after[l].contains(t));
        if level_at(tree.levels, l).contains(t) {
            let j = choose|j: int| 0 <= j < tree.levels[l].len() && tree.levels[l][j] == t;
            assert(tree.levels[l][j].rows().len() > 0);
        } else {
            let k = choose|k: int| 0 <= k < outputs.len() && outputs[k] == t;
            assert(outputs[k].rows() == job_groups(job)[k]);
        }
    }
}

/// A merge that came to where the levels change had room for its outputs.
pub proof fn lemma_finished_job_fits(tree: TreeState, start: Run, job: Job)
    requires
        0 <= tree.next_id <= u64::MAX,
        start.stop is None,
        run_from(start, job_steps_before(job, tree.next_id)).stop is None,
    ensures
        job_fits(job, tree.next_id),
{
    let next = tree.next_id;
    let groups = job_groups(job);
    let writing = outputs_steps(groups, job.output_level, next);
    let rest = mark_steps(job, next) + remove_steps(job.inputs) + seq![
        Step::Point(FaultPoint::AfterObsoleteFileDelete),
        Step::Point(FaultPoint::BeforeMetadataUpdate),
    ];
    assert(job_steps_before(job, next) =~= writing + rest);
    lemma_run_concat(start, writing, rest);
    if run_from(start, writing).stop is Some {
        lemma_stopped(run_from(start, writing), rest);
    }
    let (n, count) = lemma_outputs_run_ops(start, groups, job.output_level, next);
    assert(groups.take(n) =~= groups);
}

/// A merge, whether or not it comes to its end, leaves the tables coherent and every value alone.
proof fn lemma_attempt(tree: TreeState, start: Run, job: Job, memtable: Seq<Row>)
    requires
        coherent_tree(tree),
        safe_job(tree, job),
        start.stop is None,
    ensures
        coherent_tree(tree_after_attempt(tree, start, job)),
        same_contents(memtable, tree_after_attempt(tree, start, job).levels, memtable, tree.levels),
        none_empty(tree.levels) ==> none_empty(tree_after_attempt(tree, start, job).levels),
{
    let next = tree.next_id;
    let groups = job_groups(job);
    if run_from(start, job_steps_before(job, next)).stop is None {
        lemma_finished_job_fits(tree, start, job);
        lemma_same_values(memtable, tree_after(tree, job).levels, tree.levels);
        if none_empty(tree.levels) {
            lemma_outputs_hold_something(tree, job);
        }
    } else {
        lemma_ids_bounds(start, groups, job.output_level, next);
        lemma_more_ids(tree.levels, next, next + ids_taken(start, groups, job.output_level, next));
    }
}

proof fn lemma_due_is_safe(tree: TreeState, config: LevelConfig, target: int)
    requires
        coherent_tree(tree),
        config.wf(),
        due_job(tree, config, target) is Some,
    ensures
        safe_job(tree, due_job(tree, config, target)->Some_0),
{
    let plan = plan_for(levels_metas(tree.levels), config)->Some_0;
    law_due_merge_is_safe(tree, config, plan, target);
}

/// Merges that come to their end leave the tables coherent and every value alone.
proof fn lemma_rounds(tree: TreeState, config: LevelConfig, target: int, rounds: nat, start: Run, memtable: Seq<Row>)
    requires
        coherent_tree(tree),
        config.wf(),
        rounds_due(tree, config, target, rounds),
        start.stop is None,
        run_from(start, rounds_steps(tree, config, target, rounds)).stop is None,
    ensures
        coherent_tree(tree_after_rounds(tree, config, target, rounds)),
        same_contents(memtable, tree_after_rounds(tree, config, target, rounds).levels, memtable, tree.levels),
        none_empty(tree.levels) ==> none_empty(tree_after_rounds(tree, config, target, rounds).levels),
    decreases rounds,
{
    if rounds > 0 {
        let done = (rounds - 1) as nat;
        let earlier = run_from(start, rounds_steps(tree, config, target, done));
        let before = tree_after_rounds(tree, config, target, done);
        assert(due_job(before, config, target) is Some);
        let job = due_job(before, config, target)->Some_0;
        let steps = job_steps(job, before.next_id);
        assert(rounds_due(tree, config, target, done));
        lemma_run_concat(start, rounds_steps(tree, config, target, done), steps);
        if earlier.stop is Some {
            lemma_stopped(earlier, steps);
        }
        lemma_rounds(tree, config, target, done, start, memtable);
        lemma_due_is_safe(before, config, target);
        lemma_behind_passed(earlier, job, before.next_id);
        lemma_attempt(before, earlier, job, memtable);
        let after = tree_after_rounds(tree, config, target, rounds);
        assert(after == tree_after_attempt(before, earlier, job));
        assert forall|key: Seq<char>| #[trigger] contents(memtable, after.levels, key) == contents(
            memtable,
            tree.levels,
            key,
        ) by {
            assert(contents(memtable, before.levels, key) == contents(memtable, tree.levels, key));
        }
    }
}

/// Merging, however it ends, changes no value and keeps the handle coherent. It leaves no
/// table empty that was not.
pub proof fn law_compaction_changes_no_value(before: DbModel, after: DbModel, result: Result<()>)
    requires
        coherent(before),
        compacted(before, after, result),
    ensures
        coherent(after),
        after.memtable == before.memtable,
        same_contents(after.memtable, after.tree.levels, before.memtable, before.tree.levels),
        none_empty(before.tree.levels) ==> none_empty(after.tree.levels),
{
    let config = config_of(before.options);
    let target = before.options.target_file_size as int;
    let rounds = choose|rounds: nat| compacted_in(before, after, result, rounds);
    if result is Ok {
        lemma_rounds(before.tree, config, target, rounds, before.trail, before.memtable);
    } else {
        let done = (rounds - 1) as nat;
        let start = run_from(before.trail, rounds_steps(before.tree, config, target, done));
        let tree = tree_after_rounds(before.tree, config, target, done);
        assert(rounds_due(before.tree, config, target, done));
        lemma_rounds(before.tree, config, target, done, before.trail, before.memtable);
        assert(due_job(tree, config, target) is Some);
        lemma_due_is_safe(tree, config, target);
        lemma_attempt(tree, start, due_job(tree, config, target)->Some_0, before.memtable);
        assert forall|key: Seq<char>| #[trigger] contents(after.memtable, after.tree.levels, key) == contents(
            before.memtable,
            before.tree.levels,
            key,
        ) by {
            assert(contents(before.memtable, tree.levels, key) == contents(before.memtable, before.tree.levels, key));
        }
    }
}

/// Merging all tables, however it ends, changes no value and keeps the handle coherent.
/// It leaves no table empty that was not.
pub proof fn law_full_compaction_changes_no_value(before: DbModel, after: DbModel, result: Result<()>)
    requires
        coherent(before),
        fully_compacted(before, after, result),
    ensures
        coherent(after),
        after.memtable == before.memtable,
        same_contents(after.memtable, after.tree.levels, before.memtable, before.tree.levels),
        none_empty(before.tree.levels) ==> none_empty(after.tree.levels),
{
    if all_placed(before.tree.levels).len() > 1 {
        law_full_merge_is_safe(before.tree);
        lemma_attempt(before.tree, before.trail, full_job(before.tree.levels), before.memtable);
    }
}

/// A memtable that was written to a table fits in one.
pub proof fn lemma_flush_fits(start: Run, memtable: Seq<Row>, next_id: int)
    requires
        start.stop is None,
        run_from(start, flush_steps_before(memtable, next_id)).stop is None,
    ensures
        next_id < u64::MAX,
        table_len(memtable, DEFAULT_BLOCK_SIZE) <= u32::MAX,
{
    let writing = write_steps(0, next_id, memtable);
    let rest = seq![
        Step::Point(FaultPoint::BeforeWalTruncation),
        Step::Op(FileOp::Truncate { name: wal_name(), len: 0 }),
        Step::Op(FileOp::Sync { name: wal_name() }),
        Step::Point(FaultPoint::AfterWalTruncation),
        Step::Point(FaultPoint::BeforeMetadataUpdate),
    ];
    assert(flush_steps_before(memtable, next_id) =~= writing + rest);
    lemma_run_concat(start, writing, rest);
    if run_from(start, writing).stop is Some {
        lemma_stopped(run_from(start, writing), rest);
    }
    let count = lemma_write_run(start, 0, next_id, memtable);
}

/// Flushing, however it ends, changes no value and keeps the handle coherent. It leaves no
/// table empty that was not. When it succeeds, the memtable is empty.
pub proof fn law_flush_changes_no_value(before: DbModel, after: DbModel, result: Result<()>)
    requires
        coherent(before),
        flushed(before, after, result),
    ensures
        coherent(after),
        same_contents(after.memtable, after.tree.levels, before.memtable, before.tree.levels),
        none_empty(before.tree.levels) ==> none_empty(after.tree.levels),
        result is Ok ==> after.memtable.len() == 0,
{
    reveal(flushed);
    let next = before.tree.next_id;
    let early = run_from(before.trail, flush_steps_before(before.memtable, next));
    let run = run_from(before.trail, flush_steps(before.memtable, next));
    if before.memtable.len() > 0 {
        if early.stop is Some {
            lemma_more_ids(before.tree.levels, next, flush_cut_short(before).tree.next_id);
        } else {
            let done = DbModel { trail: run, ..flush_done(before) };
            lemma_flush_fits(before.trail, before.memtable, next);
            lemma_flushed_contents(before.tree, before.memtable);
            assert(done.tree == tree_with_flushed(before.tree, before.memtable));
            assert(sorted(Seq::<Row>::empty()));
            lemma_new_table(0, next, before.memtable);
            if none_empty(before.tree.levels) {
                let new = done.tree.levels;
                assert forall|l: int, i: int| 0 <= l < new.len() && 0 <= i < new[l].len() implies (
                #[trigger] new[l][i]).rows().len() > 0 by {
                    if l > 0 || i < before.tree.levels[0].len() {
                        assert(new[l][i] == before.tree.levels[l][i]);
                    }
                }
            }
            if run.stop is None {
                assert(coherent(done));
                law_compaction_changes_no_value(done, after, result);
                assert forall|key: Seq<char>| #[trigger] contents(after.memtable, after.tree.levels, key) == contents(
                    before.memtable,
                    before.tree.levels,
                    key,
                ) by {
                    assert(contents(done.memtable, done.tree.levels, key) == contents(
                        before.memtable,
                        before.tree.levels,
                        key,
                    ));
                }
            }
        }
    }
}

/// A write that succeeds gives its key the value and leaves every other key alone; one that fails
/// gives its key the value or leaves it, too, alone. However it ends, the handle stays coherent,
/// and no table is empty that was not.
pub proof fn law_write_gives_the_value(before: DbModel, row: Row, after: DbModel, result: Result<()>, key: Seq<char>)
    requires
        coherent(before),
        written(before, row, after, result),
    ensures
        coherent(after),
        key != row.0 ==> contents(after.memtable, after.tree.levels, key) == contents(
            before.memtable,
            before.tree.levels,
            key,
        ),
        result is Ok ==> contents(after.memtable, after.tree.levels, row.0) == row.1,
        result is Err ==> contents(after.memtable, after.tree.levels, row.0) == row.1 || contents(
            after.memtable,
            after.tree.levels,
            row.0,
        ) == contents(before.memtable, before.tree.levels, row.0),
        none_empty(before.tree.levels) ==> none_empty(after.tree.levels),
{
    reveal(written);
    let logging = run_from(before.trail, log_steps(row));
    let run = run_from(before.trail, apply_steps(row));
    let new = upsert(before.memtable, row);
    let levels = before.tree.levels;
    lemma_upsert(before.memtable, row);
    law_written_row_is_read(before.memtable, levels, row, key);
    law_written_row_is_read(before.memtable, levels, row, row.0);
    if logging.stop is None && run.stop is None {
        let applied = DbModel { trail: run, ..row_applied(before, row) };
        assert(applied.memtable == new);
        if new.len() >= before.options.flush_threshold {
            law_flush_changes_no_value(applied, after, result);
            assert(contents(after.memtable, after.tree.levels, key) == contents(new, levels, key));
            assert(contents(after.memtable, after.tree.levels, row.0) == contents(new, levels, row.0));
        }
    }
}

/// A write that succeeds leaves the memtable below the threshold: a memtable that reached it has
/// been flushed.
pub proof fn law_full_memtable_is_flushed(before: DbModel, row: Row, after: DbModel, result: Result<()>)
    requires
        coherent(before),
        written(before, row, after, result),
        result is Ok,
    ensures
        after.memtable.len() == 0 || after.memtable.len() < before.options.flush_threshold,
        after.options == before.options,
{
    reveal(written);
    reveal(flushed);
    let run = run_from(before.trail, apply_steps(row));
    let applied = DbModel { trail: run, ..row_applied(before, row) };
    lemma_upsert(before.memtable, row);
    if upsert(before.memtable, row).len() >= before.options.flush_threshold && run.stop is None {
        law_flush_changes_no_value(applied, after, result);
    }
}

/// Whether a call that does not write `key` leads from one state of a handle to another.
pub open spec fn passes_by(before: DbModel, after: DbModel, key: Seq<char>) -> bool {
    ||| exists|row: Row, result: Result<()>| #[trigger] written(before, row, after, result) && row.0 != key
    ||| exists|result: Result<()>| #[trigger] flushed(before, after, result)
    ||| exists|result: Result<()>| #[trigger] compacted(before, after, result)
    ||| exists|result: Result<()>| #[trigger] fully_compacted(before, after, result)
    ||| exists|read: Seq<char>| #[trigger] is_read(before, read, after)
    ||| after == drained(before)
}

proof fn lemma_passes_by(before: DbModel, after: DbModel, key: Seq<char>)
    requires
        coherent(before),
        passes_by(before, after, key),
    ensures
        coherent(after),
        contents(after.memtable, after.tree.levels, key) == contents(before.memtable, before.tree.levels, key),
{
    if exists|row: Row, result: Result<()>| #[trigger] written(before, row, after, result) && row.0 != key {
        let (row, result) = choose|row: Row, result: Result<()>| #[trigger]
            written(before, row, after, result) && row.0 != key;
        law_write_gives_the_value(before, row, after, result, key);
    } else if exists|result: Result<()>| #[trigger] flushed(before, after, result) {
        let result = choose|result: Result<()>| #[trigger] flushed(before, after, result);
        law_flush_changes_no_value(before, after, result);
    } else if exists|result: Result<()>| #[trigger] compacted(before, after, result) {
        let result = choose|result: Result<()>| #[trigger] compacted(before, after, result);
        law_compaction_changes_no_value(before, after, result);
    } else if exists|result: Result<()>| #[trigger] fully_compacted(before, after, result) {
        let result = choose|result: Result<()>| #[trigger] fully_compacted(before, after, result);
        law_full_compaction_changes_no_value(before, after, result);
    } else if exists|read: Seq<char>| #[trigger] is_read(before, read, after) {
        let read = choose|read: Seq<char>| #[trigger] is_read(before, read, after);
        law_reading_changes_nothing(before, read, after);
    }
}

/// A key keeps its value, or stays without one, through any number of calls that do not write it:
/// writes of other keys, flushes, merges and reads, whether they succeed or fail.
pub proof fn law_value_lasts(trace: Seq<DbModel>, key: Seq<char>)
    requires
        trace.len() > 0,
        coherent(trace[0]),
        forall|i: int| 0 <= i < trace.len() - 1 ==> passes_by(#[trigger] trace[i], trace[i + 1], key),
    ensures
        coherent(trace.last()),
        contents(trace.last().memtable, trace.last().tree.levels, key) == contents(
            trace[0].memtable,
            trace[0].tree.levels,
            key,
        ),
    decreases trace.len(),
{
    if trace.len() > 1 {
        let before = trace.drop_last();
        assert forall|i: int| 0 <= i < before.len() - 1 implies passes_by(#[trigger] before[i], before[i + 1], key) by {
            assert(passes_by(trace[i], trace[i + 1], key));
        }
        law_value_lasts(before, key);
        assert(passes_by(trace[trace.len() - 2], trace[trace.len() - 2 + 1], key));
        lemma_passes_by(before.last(), trace.last(), key);
    }
}

}
