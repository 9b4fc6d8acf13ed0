//! What flushes and merges leave in the tables, and what is counted.
use crate::compaction::{at_most, LevelConfig};
use crate::crash::safe_job;
use crate::db::{
    admits, compacted, compacted_in, config_of, flush_done, flushed, fully_compacted, is_lookup, is_read, probe_tables,
    read_tables, row_applied, written, DbModel, DbOptions, Lookup,
};
use crate::disk::{lemma_run_concat, lemma_stopped, run_from, Run};
use crate::engine::{
    apply_steps, due_job, flush_steps, job_outcome, log_steps, metrics_after_rounds, rounds_steps, tree_after_rounds,
    TreeState,
};
use crate::error::Result;
use crate::fault::{Fault, FaultInjector, FaultPoint};
use crate::keys::key_lt;
use crate::levels::{
    input_holds, inputs_wf, job_merged, job_rows, lemma_job_winner, level_at, tables_of, total_bytes, Job, Levels,
    Placed, TableState,
};
use crate::merge::{
    all_placed, full_job, groups_fit, job_fits, job_groups, job_outputs, law_full_compaction_writes_one_table,
    law_split_partitions_rows, lemma_job_outputs, lemma_member_wf, levels_after,
};
use crate::metrics::{recorded, MetricsState};
use crate::records::record_len;
use crate::rows::{
    has_key, index_of_key, lemma_rows_get_at, lemma_upsert, lemma_visible, lemma_visible_has, rows_get, sorted, upsert,
    Row,
};
use crate::steady::{coherent, coherent_tree};
use crate::table::concat_rows;
use vstd::prelude::*;
use vstd::utf8::encode_utf8;

verus! {

/// Whether an input of a merge has the newest record of a key: it stands above the others that have
/// one, or at the same level and has the largest id.
pub open spec fn has_the_newest(inputs: Seq<Placed>, i: int, key: Seq<char>) -> bool {
    &&& 0 <= i < inputs.len()
    &&& has_key(inputs[i].table.rows(), key)
    &&& forall|j: int|
        0 <= j < inputs.len() && has_key((#[trigger] inputs[j]).table.rows(), key) ==> inputs[i].level < inputs[j].level || (
        inputs[i].level == inputs[j].level && inputs[i].table.id >= inputs[j].table.id)
}

/// Whether a row is the newest record that the inputs of a merge have for its key.
pub open spec fn is_newest_record(inputs: Seq<Placed>, row: Row) -> bool {
    exists|i: int| #[trigger] has_the_newest(inputs, i, row.0) && rows_get(inputs[i].table.rows(), row.0) == Some(row.1)
}

proof fn lemma_newest_rows(job: Job)
    requires
        inputs_wf(job.inputs),
    ensures
        ({
            let rows = job_rows(job);
            &&& sorted(rows)
            &&& forall|i: int|
                0 <= i < rows.len() ==> is_newest_record(job.inputs, #[trigger] rows[i])
            &&& job.drop_tombstones ==> forall|i: int| 0 <= i < rows.len() ==> (#[trigger] rows[i]).1 is Some
        }),
{
    let rows = job_rows(job);
    let merged = job_merged(job);
    let _ = lemma_job_winner(job.inputs, Seq::empty());
    lemma_visible(merged, !job.drop_tombstones);
    assert forall|i: int| 0 <= i < rows.len() implies is_newest_record(job.inputs, #[trigger] rows[i]) by {
        let key = rows[i].0;
        let k = lemma_job_winner(job.inputs, key);
        assert(has_key(merged, key));
        lemma_winner_is_newest(job.inputs, k, key);
    }
}

proof fn lemma_winner_is_newest(inputs: Seq<Placed>, at: int, key: Seq<char>)
    requires
        0 <= at < inputs.len(),
        inputs[at].table.holds(key),
        forall|i: int|
            0 <= i < inputs.len() && (#[trigger] inputs[i]).table.holds(key) ==> !crate::levels::read_before(
                inputs[i],
                inputs[at],
            ),
    ensures
        has_the_newest(inputs, at, key),
{
    assert forall|j: int| 0 <= j < inputs.len() && has_key((#[trigger] inputs[j]).table.rows(), key) implies inputs[at].level
        < inputs[j].level || (inputs[at].level == inputs[j].level && inputs[at].table.id >= inputs[j].table.id) by {
        assert(inputs[j].table.holds(key));
    }
}

proof fn lemma_all_newest(job: Job)
    requires
        inputs_wf(job.inputs),
    ensures
        forall|k: int, key: Seq<char>|
            0 <= k < job.inputs.len() && #[trigger] has_key(job.inputs[k].table.rows(), key) ==> has_key(
                job_rows(job),
                key,
            ) || (job.drop_tombstones && is_newest_record(job.inputs, (key, None))),
{
    let rows = job_rows(job);
    let merged = job_merged(job);
    let keep = !job.drop_tombstones;
    assert forall|k: int, key: Seq<char>|
        0 <= k < job.inputs.len() && #[trigger] has_key(job.inputs[k].table.rows(), key) implies has_key(rows, key) || (
    job.drop_tombstones && is_newest_record(job.inputs, (key, None))) by {
        let at = lemma_job_winner(job.inputs, key);
        assert(job.inputs[k].table.holds(key));
        assert(input_holds(job.inputs, key));
        lemma_winner_is_newest(job.inputs, at, key);
        let p = index_of_key(merged, key);
        lemma_rows_get_at(merged, p);
        if keep || merged[p].1 is Some {
            let q = lemma_visible_has(merged, keep, p);
            assert(rows[q].0 == key);
        }
    }
}

/// A merge writes, in ascending order of the keys, the newest record of every key that its inputs
/// have. Where tombstones are dropped it writes no tombstone, and every value; where they are kept it
/// writes them all.
pub proof fn law_merge_writes_the_newest_records(job: Job, next_id: int)
    requires
        inputs_wf(job.inputs),
        groups_fit(job_groups(job)),
    ensures
        ({
            let rows = concat_rows(job_groups(job));
            let outputs = job_outputs(job, next_id);
            &&& outputs.len() == job_groups(job).len()
            &&& forall|i: int| 0 <= i < outputs.len() ==> (#[trigger] outputs[i]).rows() == job_groups(job)[i]
            &&& forall|i: int, j: int| 0 <= i < j < rows.len() ==> key_lt((#[trigger] rows[i]).0, (#[trigger] rows[j]).0)
            &&& forall|i: int|
                0 <= i < rows.len() ==> is_newest_record(job.inputs, #[trigger] rows[i])
            &&& job.drop_tombstones ==> forall|i: int| 0 <= i < rows.len() ==> (#[trigger] rows[i]).1 is Some
            &&& forall|k: int, key: Seq<char>|
                0 <= k < job.inputs.len() && #[trigger] has_key(job.inputs[k].table.rows(), key) ==> has_key(rows, key) || (
                job.drop_tombstones && is_newest_record(job.inputs, (key, None)))
        }),
{
    let rows = job_rows(job);
    lemma_job_outputs(job, next_id);
    law_split_partitions_rows(rows, job.target_file_size);
    lemma_newest_rows(job);
    lemma_all_newest(job);
}

/// A merge of all tables leaves nothing but its outputs.
proof fn lemma_only_outputs(tree: TreeState, job: Job, l: int)
    requires
        coherent_tree(tree),
        job == full_job(tree.levels),
        safe_job(tree, job),
        job_fits(job, tree.next_id),
        job_groups(job).len() <= 1,
    ensures
        ({
            let files = level_at(levels_after(tree.levels, job, tree.next_id), l);
            &&& l != 1 ==> files.len() == 0
            &&& files.len() <= 1
            &&& files.len() == 1 ==> job_groups(job).len() == 1 && files[0] == job_outputs(job, tree.next_id)[0]
        }),
{
    let after = levels_after(tree.levels, job, tree.next_id);
    let files = level_at(after, l);
    let outputs = job_outputs(job, tree.next_id);
    crate::merge::lemma_all_placed(tree.levels);
    assert forall|i: int| 0 <= i < files.len() implies l == 1 && job_groups(job).len() == 1 && #[trigger] files[i]
        == outputs[0] by {
        let t = files[i];
        assert(after[l].contains(t));
        if level_at(tree.levels, l).contains(t) {
            assert(all_placed(tree.levels).contains(Placed { level: l, table: t }));
        }
        let k = choose|k: int| 0 <= k < outputs.len() && outputs[k] == t;
        assert(k == 0);
    }
    if files.len() > 0 {
        assert(files[0] == outputs[0]);
    }
    if files.len() >= 2 {
        assert(files[1] == outputs[0]);
        assert(crate::levels::ascending(after[l]));
        assert(after[l][0].id < after[l][1].id);
    }
}

/// The tables that a merge of all tables leaves: one at level 1 with the newest value of every key
/// that has one, in ascending order and without tombstones, or none where no key has a value.
pub proof fn law_full_compaction_leaves_one_table(before: DbModel, after: DbModel, result: Result<()>)
    requires
        coherent(before),
        fully_compacted(before, after, result),
        result is Ok,
        all_placed(before.tree.levels).len() >= 2,
        crate::table::rows_bytes(job_rows(full_job(before.tree.levels))).len() <= usize::MAX,
    ensures
        forall|l: int| l != 1 ==> #[trigger] level_at(after.tree.levels, l).len() == 0,
        level_at(after.tree.levels, 1).len() <= 1,
        forall|i: int, j: int|
            0 <= i < level_at(after.tree.levels, 1).len() && 0 <= j < level_at(after.tree.levels, 1)[i].rows().len() ==> (
            #[trigger] level_at(after.tree.levels, 1)[i].rows()[j]).1 is Some,
        after.metrics.full_compactions == at_most(before.metrics.full_compactions + 1, u64::MAX as int),
        after.metrics.compactions == at_most(before.metrics.compactions + 1, u64::MAX as int),
{
    let levels = before.tree.levels;
    let next = before.tree.next_id;
    let job = full_job(levels);
    let outputs = job_outputs(job, next);
    crate::crash::law_full_merge_is_safe(before.tree);
    crate::safety::lemma_behind_passed(before.trail, job, next);
    let tree = crate::engine::tree_after(before.tree, job);
    assert(after.tree == tree);
    crate::steady::lemma_finished_job_fits(before.tree, before.trail, job);
    crate::merge::lemma_full_job(levels);
    crate::merge::lemma_all_placed(levels);
    law_full_compaction_writes_one_table(levels);
    assert forall|i: int| 0 <= i < job.inputs.len() implies (#[trigger] job.inputs[i]).table.wf() by {
        assert(job.inputs.contains(job.inputs[i]));
        lemma_member_wf(levels, job.inputs[i].level, job.inputs[i].table);
    }
    law_merge_writes_the_newest_records(job, next);
    assert(job_groups(job).len() <= 1);
    assert forall|l: int| l != 1 implies #[trigger] level_at(after.tree.levels, l).len() == 0 by {
        lemma_only_outputs(before.tree, job, l);
    }
    lemma_only_outputs(before.tree, job, 1);
    let files = level_at(after.tree.levels, 1);
    assert forall|i: int, j: int| 0 <= i < files.len() && 0 <= j < files[i].rows().len() implies (
    #[trigger] files[i].rows()[j]).1 is Some by {
        assert(outputs[0].rows() == job_groups(job)[0]);
        let rows = job_rows(job);
        law_split_partitions_rows(rows, job.target_file_size);
        assert(rows[j].1 is Some);
    }
}

proof fn lemma_upsert_len(rows: Seq<Row>, row: Row)
    requires
        sorted(rows),
    ensures
        upsert(rows, row).len() == rows.len() + (if has_key(rows, row.0) {
            0int
        } else {
            1
        }),
{
    broadcast use crate::keys::group_key_order;

    let at = crate::rows::lower_bound(rows, row.0);
    crate::rows::lemma_lower_bound(rows, row.0);
    if has_key(rows, row.0) {
        let i = index_of_key(rows, row.0);
        assert(rows[i].0 == row.0);
        if i < at {
            assert(key_lt(rows[i].0, row.0));
        } else if at < i {
            assert(key_lt(rows[at].0, rows[i].0));
        }
    }
}

/// A write goes to the log and to the memtable. A key that is there already keeps its place; another
/// one is one entry more. Only when the entries reach the threshold is the memtable flushed, and then
/// it is empty. The log grows by the record: seventeen bytes, the key and the value.
pub proof fn law_memtable_fills_up_to_the_threshold(before: DbModel, row: Row, after: DbModel, result: Result<()>)
    requires
        coherent(before),
        written(before, row, after, result),
        result is Ok,
    ensures
        ({
            let entries = before.memtable.len() + (if has_key(before.memtable, row.0) {
                0int
            } else {
                1
            });
            let value_len = match row.1 {
                Some(value) => encode_utf8(value).len(),
                None => 0,
            };
            &&& entries < before.options.flush_threshold ==> {
                &&& after.memtable.len() == entries
                &&& rows_get(after.memtable, row.0) == Some(row.1)
                &&& forall|key: Seq<char>| key != row.0 ==> #[trigger] rows_get(after.memtable, key) == rows_get(
                    before.memtable,
                    key,
                )
                &&& after.tree == before.tree
                &&& after.metrics == before.metrics
                &&& after.counters == before.counters
                &&& after.wal_size == at_most(
                    before.wal_size + 17 + encode_utf8(row.0).len() + value_len,
                    u64::MAX as int,
                )
            }
            &&& entries >= before.options.flush_threshold ==> after.memtable.len() == 0 && after.wal_size == 0
                && after.tree.next_id > before.tree.next_id
            &&& after.options == before.options
        }),
{
    reveal(written);
    let run = run_from(before.trail, apply_steps(row));
    lemma_upsert(before.memtable, row);
    lemma_upsert_len(before.memtable, row);
    let applied = DbModel { trail: run, ..row_applied(before, row) };
    lemma_logged(before.trail, row);
    crate::wal::lemma_log_entry_layout(row);
    crate::steady::law_full_memtable_is_flushed(before, row, after, result);
    if upsert(before.memtable, row).len() >= before.options.flush_threshold {
        crate::steady::law_flush_changes_no_value(applied, after, result);
        lemma_flush_takes_an_id(applied, after, result);
    }
}

/// A write that came to its end has gone to the log.
proof fn lemma_logged(start: Run, row: Row)
    requires
        start.stop is None,
    ensures
        run_from(start, log_steps(row)).stop is None ==> run_from(start, log_steps(row).take(2)).stop is None && record_len(
            row,
        ) <= u32::MAX,
{
    let steps = log_steps(row);
    let head = steps.take(2);
    let rest = steps.skip(2);
    assert(head + rest =~= steps);
    lemma_run_concat(start, head, rest);
    if run_from(start, head).stop is Some {
        lemma_stopped(run_from(start, head), rest);
    }
    crate::safety::lemma_log_run(start, row);
}

proof fn lemma_ids_grow(tree: TreeState, config: LevelConfig, target: int, rounds: nat)
    ensures
        tree_after_rounds(tree, config, target, rounds).next_id >= tree.next_id,
    decreases rounds,
{
    if rounds > 0 {
        lemma_ids_grow(tree, config, target, (rounds - 1) as nat);
    }
}

proof fn lemma_flush_takes_an_id(before: DbModel, after: DbModel, result: Result<()>)
    requires
        before.memtable.len() > 0,
        flushed(before, after, result),
        result is Ok,
    ensures
        after.tree.next_id > before.tree.next_id,
        after.wal_size == 0,
{
    reveal(flushed);
    let run = run_from(before.trail, flush_steps(before.memtable, before.tree.next_id));
    let done = DbModel { trail: run, ..flush_done(before) };
    assert(compacted(done, after, result));
    let rounds = choose|rounds: nat| compacted_in(done, after, result, rounds);
    lemma_ids_grow(done.tree, config_of(before.options), before.options.target_file_size as int, rounds);
}

/// What a merge adds to the totals: itself, at the level of its upper inputs, the tables and the bytes
/// that it read, and the tables and the bytes that it wrote.
pub proof fn law_merge_is_counted(metrics: MetricsState, job: Job, next_id: int)
    requires
        job.inputs.len() <= u64::MAX,
        job_groups(job).len() <= u64::MAX,
        job.output_level >= 1,
    ensures
        ({
            let after = recorded(metrics, Some(job.output_level - 1), job_outcome(job, next_id));
            let read = total_bytes(tables_of(job.inputs));
            let wrote = total_bytes(job_outputs(job, next_id));
            let level = job.output_level - 1;
            let old_count = if level < metrics.compactions_by_level.len() {
                metrics.compactions_by_level[level] as int
            } else {
                0
            };
            &&& metrics.compactions < u64::MAX ==> after.compactions == metrics.compactions + 1
            &&& after.full_compactions == metrics.full_compactions
            &&& 0 <= level < after.compactions_by_level.len()
            &&& old_count < u64::MAX ==> after.compactions_by_level[level] == old_count + 1
            &&& forall|l: int|
                0 <= l < metrics.compactions_by_level.len() && l != level ==> #[trigger] after.compactions_by_level[l]
                    == metrics.compactions_by_level[l]
            &&& 0 <= read && metrics.bytes_read + read <= u64::MAX ==> after.bytes_read == metrics.bytes_read + read
            &&& 0 <= wrote && metrics.bytes_written + wrote <= u64::MAX ==> after.bytes_written == metrics.bytes_written
                + wrote
            &&& metrics.input_files + job.inputs.len() <= u64::MAX ==> after.input_files == metrics.input_files
                + job.inputs.len()
            &&& metrics.output_files + job_outputs(job, next_id).len() <= u64::MAX ==> after.output_files
                == metrics.output_files + job_outputs(job, next_id).len()
            &&& after.bytes_flushed == metrics.bytes_flushed
        }),
{
}

proof fn lemma_merges_counted(metrics: MetricsState, tree: TreeState, config: LevelConfig, target: int, rounds: nat)
    requires
        crate::engine::rounds_due(tree, config, target, rounds),
    ensures
        ({
            let after = metrics_after_rounds(metrics, tree, config, target, rounds);
            &&& after.compactions == at_most(metrics.compactions + rounds, u64::MAX as int)
            &&& after.full_compactions == metrics.full_compactions
            &&& after.bytes_flushed == metrics.bytes_flushed
        }),
    decreases rounds,
{
    if rounds > 0 {
        let done = (rounds - 1) as nat;
        assert(crate::engine::rounds_due(tree, config, target, done));
        lemma_merges_counted(metrics, tree, config, target, done);
        assert(due_job(tree_after_rounds(tree, config, target, done), config, target) is Some);
    }
}

/// `compact` counts every merge that it makes, and nothing as flushed.
pub proof fn law_compaction_counts_its_merges(before: DbModel, after: DbModel, result: Result<()>)
    requires
        compacted(before, after, result),
        result is Ok,
    ensures
        after.metrics.compactions >= before.metrics.compactions,
        before.metrics.compactions < u64::MAX && after.metrics.compactions == before.metrics.compactions ==> after == before,
        after.metrics.full_compactions == before.metrics.full_compactions,
        after.metrics.bytes_flushed == before.metrics.bytes_flushed,
        after.counters == before.counters,
        after.wal_size == before.wal_size,
{
    let config = config_of(before.options);
    let target = before.options.target_file_size as int;
    let rounds = choose|rounds: nat| compacted_in(before, after, result, rounds);
    lemma_merges_counted(before.metrics, before.tree, config, target, rounds);
    if rounds == 0 {
        assert(run_from(before.trail, rounds_steps(before.tree, config, target, 0)) == before.trail);
        assert(after.trail == before.trail);
    }
}

proof fn lemma_probe_counts(tables: Seq<TableState>, key: Seq<char>)
    ensures
        ({
            let probe = probe_tables(tables, key);
            &&& probe.rejects + probe.reads <= tables.len()
            &&& (forall|i: int| 0 <= i < tables.len() ==> !has_key((#[trigger] tables[i]).rows(), key)) ==> probe.rejects
                + probe.reads == tables.len()
            &&& (forall|i: int| 0 <= i < tables.len() ==> admits(#[trigger] tables[i], key)) ==> probe.rejects == 0
            &&& (forall|i: int| 0 <= i < tables.len() ==> !admits(#[trigger] tables[i], key)) ==> probe.reads == 0
                && probe.rejects == tables.len()
            &&& tables.len() > 0 && admits(tables[0], key) && has_key(tables[0].rows(), key) ==> probe.rejects == 0
                && probe.reads == 1
        }),
    decreases tables.len(),
{
    if tables.len() > 0 {
        let rest = tables.skip(1);
        lemma_probe_counts(rest, key);
        if forall|i: int| 0 <= i < tables.len() ==> !has_key((#[trigger] tables[i]).rows(), key) {
            assert forall|i: int| 0 <= i < rest.len() implies !has_key((#[trigger] rest[i]).rows(), key) by {
                assert(rest[i] == tables[i + 1]);
            }
            assert(!has_key(tables[0].rows(), key));
        }
        if forall|i: int| 0 <= i < tables.len() ==> admits(#[trigger] tables[i], key) {
            assert forall|i: int| 0 <= i < rest.len() implies admits(#[trigger] rest[i], key) by {
                assert(rest[i] == tables[i + 1]);
            }
            assert(admits(tables[0], key));
        }
        if forall|i: int| 0 <= i < tables.len() ==> !admits(#[trigger] tables[i], key) {
            assert forall|i: int| 0 <= i < rest.len() implies !admits(#[trigger] rest[i], key) by {
                assert(rest[i] == tables[i + 1]);
            }
            assert(!admits(tables[0], key));
        }
    }
}

/// What a read counts. A key that the memtable has, also as deleted, is looked up in no table. Else
/// every table on the way either is passed over for its filter or has a block read, up to the first
/// that has the key, and all of them where none has it.
pub proof fn law_read_counts_what_it_took(found: Lookup, memtable: Seq<Row>, levels: Levels, key: Seq<char>)
    requires
        is_lookup(found, memtable, levels, key),
        read_tables(levels).len() <= u64::MAX,
    ensures
        found.memtable_hit <==> (has_key(memtable, key) && rows_get(memtable, key) != Some(None::<Seq<char>>)),
        has_key(memtable, key) ==> found.bloom_rejects == 0 && found.block_reads == 0,
        !has_key(memtable, key) ==> {
            let tables = read_tables(levels);
            &&& found.bloom_rejects + found.block_reads <= tables.len()
            &&& (forall|i: int| 0 <= i < tables.len() ==> !has_key((#[trigger] tables[i]).rows(), key))
                ==> found.bloom_rejects + found.block_reads == tables.len()
            &&& (forall|i: int| 0 <= i < tables.len() ==> !admits(#[trigger] tables[i], key)) ==> found.bloom_rejects
                == tables.len()
            &&& (forall|i: int| 0 <= i < tables.len() ==> admits(#[trigger] tables[i], key)) ==> found.bloom_rejects == 0
            &&& tables.len() > 0 && admits(tables[0], key) && has_key(tables[0].rows(), key) ==> found.bloom_rejects == 0
                && found.block_reads == 1
        },
{
    let probe = probe_tables(read_tables(levels), key);
    lemma_probe_counts(read_tables(levels), key);
    vstd::arithmetic::div_mod::lemma_small_mod(probe.rejects, 18446744073709551616);
    vstd::arithmetic::div_mod::lemma_small_mod(probe.reads, 18446744073709551616);
}

/// The thresholds of the options are used as they are, but for values with which merging would not
/// come to an end.
pub proof fn law_options_are_used_as_given(options: DbOptions)
    ensures
        options.l0_compaction_threshold >= 1 ==> config_of(options).l0_compaction_threshold
            == options.l0_compaction_threshold,
        options.l0_compaction_threshold == 0 ==> config_of(options).l0_compaction_threshold == 1,
        options.level_size_multiplier >= 2 ==> config_of(options).level_size_multiplier == options.level_size_multiplier,
        options.level_size_multiplier < 2 ==> config_of(options).level_size_multiplier == 2,
        options.target_level_size >= 1 ==> config_of(options).target_level_size == options.target_level_size,
        options.target_level_size == 0 ==> config_of(options).target_level_size == 1,
{
}

/// An injector after a boundary was reached so many times.
pub open spec fn reached_often(injector: FaultInjector, point: FaultPoint, times: nat) -> FaultInjector
    decreases times,
{
    if times == 0 {
        injector
    } else {
        reached_often(injector, point, (times - 1) as nat).reached(point)
    }
}

proof fn lemma_hits(fault: Fault, point: FaultPoint, times: nat)
    ensures
        ({
            let injector = reached_often(FaultInjector { fault: Some(fault), hits: 0 }, point, times);
            &&& injector.fault == Some(fault)
            &&& injector.hits == (if fault.point == point {
                at_most(times as int, u64::MAX as int)
            } else {
                0
            })
        }),
    decreases times,
{
    if times > 0 {
        lemma_hits(fault, point, (times - 1) as nat);
    }
}

/// A fault lets its boundary be passed until it has been reached as often as was asked for, and stops
/// there and every time after that. Other boundaries it never stops.
pub proof fn law_fault_stops_from_its_hit_on(fault: Fault, point: FaultPoint, before: nat)
    requires
        before < u64::MAX,
        fault.at >= 1,
    ensures
        ({
            let injector = reached_often(FaultInjector { fault: Some(fault), hits: 0 }, point, before);
            injector.fires(point) <==> fault.point == point && before + 1 >= fault.at
        }),
{
    lemma_hits(fault, point, before);
}

/// A read changes nothing but the counters, which grow by what it took, as far as they can count.
pub proof fn law_read_changes_the_counters_alone(before: DbModel, key: Seq<char>, after: DbModel)
    requires
        is_read(before, key, after),
    ensures
        exists|found: Lookup|
            {
                &&& #[trigger] is_lookup(found, before.memtable, before.tree.levels, key)
                &&& before.counters.memtable_hits < u64::MAX ==> after.counters.memtable_hits
                    == before.counters.memtable_hits + (if found.memtable_hit {
                    1int
                } else {
                    0
                })
                &&& before.counters.bloom_rejects + found.bloom_rejects <= u64::MAX ==> after.counters.bloom_rejects
                    == before.counters.bloom_rejects + found.bloom_rejects
                &&& before.counters.block_reads + found.block_reads <= u64::MAX ==> after.counters.block_reads
                    == before.counters.block_reads + found.block_reads
            },
        after.memtable == before.memtable,
        after.tree == before.tree,
        after.trail == before.trail,
        after.options == before.options,
        after.wal_size == before.wal_size,
        after.metrics == before.metrics,
{
    let found = choose|found: Lookup| #[trigger]
        is_lookup(found, before.memtable, before.tree.levels, key) && after == (DbModel {
            counters: crate::db::counted(before.counters, found),
            ..before
        });
    assert(is_lookup(found, before.memtable, before.tree.levels, key));
}

/// Tables are read from the top level down, and within a level from the newest to the oldest.
pub proof fn law_tables_are_read_from_the_newest_on(levels: Levels, i: int)
    requires
        levels.len() > 0,
    ensures
        read_tables(levels).len() == levels[0].len() + read_tables(levels.skip(1)).len(),
        0 <= i < levels[0].len() ==> read_tables(levels)[i] == levels[0][levels[0].len() - 1 - i],
        levels[0].len() <= i < read_tables(levels).len() ==> read_tables(levels)[i] == read_tables(levels.skip(1))[i
            - levels[0].len()],
        read_tables(Seq::empty()).len() == 0,
{
}

/// Flushing an empty memtable does nothing, and neither does merging all tables where there is at most
/// one.
pub proof fn law_nothing_is_done_for_nothing(before: DbModel, after: DbModel, result: Result<()>)
    ensures
        before.memtable.len() == 0 && flushed(before, after, result) ==> result is Ok && after == before,
        all_placed(before.tree.levels).len() <= 1 && fully_compacted(before, after, result) ==> result is Ok && after
            == before,
{
    reveal(flushed);
}

}
