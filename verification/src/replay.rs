//! What a call does is determined by the state that it starts from, faults and all; and what it
//! takes for a write to succeed.
use crate::compaction::LevelConfig;
use crate::db::{
    compacted, compacted_in, config_of, flush_done, flushed, fully_compacted, row_applied, written, DbModel,
    DbOptions,
};
use crate::disk::{
    all_ops, law_only_limits_stop_without_a_fault, law_run_does_a_prefix, lemma_run_concat, lemma_stopped, run_from,
    tells, FileOp, Run, Step, Stop,
};
use crate::engine::{
    apply_steps, due_job, flush_steps, flush_steps_before, job_steps, job_steps_before, job_steps_behind, log_steps,
    mark_steps, outputs_steps, remove_steps, rounds_steps, tree_after_rounds, write_steps, TreeState,
};
use crate::error::{PebbleError, Result};
use crate::fault::FaultPoint;
use crate::levels::{Job, Placed};
use crate::merge::{all_placed, full_job, job_groups};
use crate::names::wal_name;
use crate::records::{record_len, value_bytes};
use crate::rows::{upsert, Row};
use crate::table::table_len;
use crate::wal::log_entry;
use vstd::prelude::*;
use vstd::utf8::encode_utf8;

verus! {

/// Whether two results tell the same.
pub open spec fn same_outcome(a: Result<()>, b: Result<()>) -> bool {
    match (a, b) {
        (Ok(_), Ok(_)) => true,
        (Err(a), Err(b)) => a.text() == b.text(),
        _ => false,
    }
}

/// Merges that are stopped within some rounds are stopped within more of them.
proof fn lemma_rounds_stopped(start: Run, tree: TreeState, config: LevelConfig, target: int, a: nat, b: nat)
    requires
        a <= b,
        run_from(start, rounds_steps(tree, config, target, a)).stop is Some,
    ensures
        run_from(start, rounds_steps(tree, config, target, b)).stop is Some,
    decreases b,
{
    if a < b {
        let c = (b - 1) as nat;
        lemma_rounds_stopped(start, tree, config, target, a, c);
        let before = tree_after_rounds(tree, config, target, c);
        let last = match due_job(before, config, target) {
            Some(job) => job_steps(job, before.next_id),
            None => Seq::<Step>::empty(),
        };
        lemma_run_concat(start, rounds_steps(tree, config, target, c), last);
        lemma_stopped(run_from(start, rounds_steps(tree, config, target, c)), last);
    }
}

/// Of two accounts of the same merges, neither tells of more rounds than the other.
proof fn lemma_rounds_agree(before: DbModel, a: DbModel, result_a: Result<()>, m: nat, b: DbModel, result_b: Result<()>, n: nat)
    requires
        compacted_in(before, a, result_a, m),
        compacted_in(before, b, result_b, n),
    ensures
        n <= m,
{
    let config = config_of(before.options);
    let target = before.options.target_file_size as int;
    if m < n {
        assert(due_job(tree_after_rounds(before.tree, config, target, m), config, target) is Some);
        assert(result_a is Err);
        let done = (n - 1) as nat;
        if result_b is Err {
            lemma_rounds_stopped(before.trail, before.tree, config, target, m, done);
        } else {
            lemma_rounds_stopped(before.trail, before.tree, config, target, m, n);
        }
    }
}

/// How far a run came decides what is told of it.
proof fn lemma_told_alike(run: Run, result_a: Result<()>, result_b: Result<()>)
    requires
        tells(run, result_a),
        tells(run, result_b),
    ensures
        same_outcome(result_a, result_b),
{
}

proof fn lemma_same_rounds(before: DbModel, a: DbModel, result_a: Result<()>, b: DbModel, result_b: Result<()>, rounds: nat)
    requires
        a.trail.stop is None,
        b.trail.stop is None,
        compacted_in(before, a, result_a, rounds),
        compacted_in(before, b, result_b, rounds),
    ensures
        a == b,
        same_outcome(result_a, result_b),
{
    let config = config_of(before.options);
    let target = before.options.target_file_size as int;
    lemma_told_alike(run_from(before.trail, rounds_steps(before.tree, config, target, rounds)), result_a, result_b);
    assert(a.trail == b.trail);
}

/// Merging again from the same state makes the same merges, and comes to the same end.
pub proof fn law_compaction_is_reproducible(before: DbModel, a: DbModel, result_a: Result<()>, b: DbModel, result_b: Result<()>)
    requires
        compacted(before, a, result_a),
        compacted(before, b, result_b),
    ensures
        a == b,
        same_outcome(result_a, result_b),
{
    let m = choose|rounds: nat| compacted_in(before, a, result_a, rounds);
    let n = choose|rounds: nat| compacted_in(before, b, result_b, rounds);
    lemma_rounds_agree(before, a, result_a, m, b, result_b, n);
    lemma_rounds_agree(before, b, result_b, n, a, result_a, m);
    lemma_same_rounds(before, a, result_a, b, result_b, m);
}

/// Merging all tables again from the same state does the same.
pub proof fn law_full_compaction_is_reproducible(
    before: DbModel,
    a: DbModel,
    result_a: Result<()>,
    b: DbModel,
    result_b: Result<()>,
)
    requires
        fully_compacted(before, a, result_a),
        fully_compacted(before, b, result_b),
    ensures
        a == b,
        same_outcome(result_a, result_b),
{
    if a != before || b != before {
        assert(a.trail == b.trail);
    }
}

/// Flushing again from the same state does the same.
pub proof fn law_flush_is_reproducible(before: DbModel, a: DbModel, result_a: Result<()>, b: DbModel, result_b: Result<()>)
    requires
        flushed(before, a, result_a),
        flushed(before, b, result_b),
    ensures
        a == b,
        same_outcome(result_a, result_b),
{
    reveal(flushed);
    let run = run_from(before.trail, flush_steps(before.memtable, before.tree.next_id));
    let full = DbModel { trail: run, ..flush_done(before) };
    if before.memtable.len() > 0 {
        if compacted(full, a, result_a) && compacted(full, b, result_b) {
            law_compaction_is_reproducible(full, a, result_a, b, result_b);
        } else {
            assert(a.trail == b.trail);
        }
    }
}

/// The same write to the same state does the same: a run that ends at a fault ends there again.
pub proof fn law_write_is_reproducible(
    before: DbModel,
    row: Row,
    a: DbModel,
    result_a: Result<()>,
    b: DbModel,
    result_b: Result<()>,
)
    requires
        written(before, row, a, result_a),
        written(before, row, b, result_b),
    ensures
        a == b,
        same_outcome(result_a, result_b),
{
    reveal(written);
    let run = run_from(before.trail, apply_steps(row));
    let applied = DbModel { trail: run, ..row_applied(before, row) };
    if flushed(applied, a, result_a) && flushed(applied, b, result_b) {
        law_flush_is_reproducible(applied, a, result_a, b, result_b);
    } else {
        assert(a.trail == b.trail);
    }
}

proof fn lemma_run_extends(start: Run, steps: Seq<Step>)
    requires
        start.stop is None,
    ensures
        start.ops.is_prefix_of(run_from(start, steps).ops),
{
    law_run_does_a_prefix(start, steps);
}

proof fn lemma_compacted_extends(before: DbModel, after: DbModel, result: Result<()>)
    requires
        before.trail.stop is None,
        compacted(before, after, result),
    ensures
        before.trail.ops.is_prefix_of(after.trail.ops),
{
    let config = config_of(before.options);
    let target = before.options.target_file_size as int;
    let rounds = choose|rounds: nat| compacted_in(before, after, result, rounds);
    lemma_run_extends(before.trail, rounds_steps(before.tree, config, target, rounds));
}

proof fn lemma_flushed_extends(before: DbModel, after: DbModel, result: Result<()>)
    requires
        before.trail.stop is None,
        flushed(before, after, result),
    ensures
        before.trail.ops.is_prefix_of(after.trail.ops),
{
    reveal(flushed);
    let early = flush_steps_before(before.memtable, before.tree.next_id);
    let steps = flush_steps(before.memtable, before.tree.next_id);
    let run = run_from(before.trail, steps);
    lemma_run_extends(before.trail, early);
    lemma_run_extends(before.trail, steps);
    if before.memtable.len() > 0 && run_from(before.trail, early).stop is None && run.stop is None {
        let full = DbModel { trail: run, ..flush_done(before) };
        lemma_compacted_extends(full, after, result);
        assert(before.trail.ops.is_prefix_of(after.trail.ops));
    }
}

/// A write that succeeds has first of all gone to the log, which was forced to the device.
pub proof fn law_acknowledged_write_is_synced(before: DbModel, row: Row, after: DbModel, result: Result<()>)
    requires
        before.trail.stop is None,
        written(before, row, after, result),
        result is Ok,
    ensures
        (before.trail.ops + seq![
            FileOp::Append { name: wal_name(), data: log_entry(row) },
            FileOp::Sync { name: wal_name() },
        ]).is_prefix_of(after.trail.ops),
{
    reveal(written);
    let steps = apply_steps(row);
    let run = run_from(before.trail, steps);
    let ops = seq![
        FileOp::Append { name: wal_name(), data: log_entry(row) },
        FileOp::Sync { name: wal_name() },
    ];
    lemma_run_concat(before.trail, log_steps(row), seq![Step::Point(FaultPoint::AfterMemtableUpdate)]);
    let count = law_run_does_a_prefix(before.trail, steps);
    reveal_with_fuel(all_ops, 8);
    assert(steps.drop_last().drop_last().drop_last().drop_last().drop_last().drop_last().drop_last()
        =~= Seq::<Step>::empty());
    assert(all_ops(steps) =~= ops);
    assert(run.stop is None);
    assert(ops.take(count) =~= ops);
    assert(run.ops == before.trail.ops + ops);
    let applied = DbModel { trail: run, ..row_applied(before, row) };
    if applied.memtable.len() >= before.options.flush_threshold {
        lemma_flushed_extends(applied, after, result);
    }
}

/// Where no fault is configured, a write whose record fits succeeds, unless it fills the memtable.
pub proof fn law_write_succeeds_without_a_fault(before: DbModel, row: Row, after: DbModel, result: Result<()>)
    requires
        before.trail.stop is None,
        before.trail.injector.fault is None,
        record_len(row) <= u32::MAX,
        upsert(before.memtable, row).len() < before.options.flush_threshold,
        written(before, row, after, result),
    ensures
        result is Ok,
        after.memtable == upsert(before.memtable, row),
        after.tree == before.tree,
{
    reveal(written);
    law_only_limits_stop_without_a_fault(before.trail, log_steps(row));
    law_only_limits_stop_without_a_fault(before.trail, apply_steps(row));
}

/// Whether an error tells of a limit of the file formats.
pub open spec fn is_limit(error: PebbleError) -> bool {
    error is WalCorruption || error is SSTableCorruption
}

proof fn lemma_no_fault(start: Run, steps: Seq<Step>)
    requires
        start.stop is None,
        start.injector.fault is None,
    ensures
        run_from(start, steps).injector == start.injector,
        run_from(start, steps).stop matches Some(stop) ==> stop is Limit,
    decreases steps.len(),
{
    if steps.len() > 0 {
        lemma_no_fault(start, steps.drop_last());
    }
}

proof fn lemma_compacting_without_a_fault(before: DbModel, after: DbModel, result: Result<()>)
    requires
        before.trail.stop is None,
        before.trail.injector.fault is None,
        compacted(before, after, result),
    ensures
        result matches Err(error) ==> is_limit(error),
{
    let config = config_of(before.options);
    let target = before.options.target_file_size as int;
    let rounds = choose|rounds: nat| compacted_in(before, after, result, rounds);
    lemma_no_fault(before.trail, rounds_steps(before.tree, config, target, rounds));
}

proof fn lemma_flushing_without_a_fault(before: DbModel, after: DbModel, result: Result<()>)
    requires
        before.trail.stop is None,
        before.trail.injector.fault is None,
        flushed(before, after, result),
    ensures
        result matches Err(error) ==> is_limit(error),
{
    reveal(flushed);
    let steps = flush_steps(before.memtable, before.tree.next_id);
    let run = run_from(before.trail, steps);
    lemma_no_fault(before.trail, flush_steps_before(before.memtable, before.tree.next_id));
    lemma_no_fault(before.trail, steps);
    if before.memtable.len() > 0 && run.stop is None {
        let full = DbModel { trail: run, ..flush_done(before) };
        if compacted(full, after, result) {
            lemma_compacting_without_a_fault(full, after, result);
        }
    }
}

/// Where no fault is configured, only a limit of the file formats makes a write fail.
pub proof fn law_only_limits_fail_a_write(before: DbModel, row: Row, after: DbModel, result: Result<()>)
    requires
        before.trail.stop is None,
        before.trail.injector.fault is None,
        written(before, row, after, result),
    ensures
        result matches Err(error) ==> is_limit(error),
{
    reveal(written);
    let run = run_from(before.trail, apply_steps(row));
    lemma_no_fault(before.trail, log_steps(row));
    lemma_no_fault(before.trail, apply_steps(row));
    let applied = DbModel { trail: run, ..row_applied(before, row) };
    if run.stop is None && flushed(applied, after, result) {
        lemma_flushing_without_a_fault(applied, after, result);
    }
}

/// Whether no limit stands in the way of the steps.
spec fn unlimited(steps: Seq<Step>) -> bool {
    forall|i: int| 0 <= i < steps.len() ==> (#[trigger] steps[i] matches Step::Limit { holds, .. } ==> holds)
}

proof fn lemma_unlimited_concat(a: Seq<Step>, b: Seq<Step>)
    requires
        unlimited(a),
        unlimited(b),
    ensures
        unlimited(a + b),
{
    let all = a + b;
    assert forall|i: int| 0 <= i < all.len() implies (#[trigger] all[i] matches Step::Limit { holds, .. } ==> holds) by {
        if i < a.len() {
            assert(all[i] == a[i]);
        } else {
            assert(all[i] == b[i - a.len()]);
        }
    }
}

proof fn lemma_writing_is_unlimited(level: int, id: int, rows: Seq<Row>)
    requires
        id < u64::MAX,
        table_len(rows, 4096) <= 4294967295,
    ensures
        unlimited(write_steps(level, id, rows)),
{
    reveal(write_steps);
}

proof fn lemma_outputs_are_unlimited(groups: Seq<Seq<Row>>, level: int, next_id: int)
    requires
        forall|i: int| 0 <= i < groups.len() ==> table_len(#[trigger] groups[i], 4096) <= 4294967295,
        next_id + groups.len() <= u64::MAX,
    ensures
        unlimited(outputs_steps(groups, level, next_id)),
    decreases groups.len(),
{
    if groups.len() > 0 {
        let before = groups.drop_last();
        assert forall|i: int| 0 <= i < before.len() implies table_len(#[trigger] before[i], 4096) <= 4294967295 by {
            assert(before[i] == groups[i]);
        }
        lemma_outputs_are_unlimited(before, level, next_id);
        assert(table_len(groups[groups.len() - 1], 4096) <= 4294967295);
        lemma_writing_is_unlimited(level, next_id + groups.len() - 1, groups.last());
        lemma_unlimited_concat(
            outputs_steps(before, level, next_id),
            write_steps(level, next_id + groups.len() - 1, groups.last()),
        );
    }
}

proof fn lemma_removing_is_unlimited(inputs: Seq<Placed>)
    ensures
        unlimited(remove_steps(inputs)),
    decreases inputs.len(),
{
    if inputs.len() > 0 {
        lemma_removing_is_unlimited(inputs.drop_last());
        lemma_unlimited_concat(
            remove_steps(inputs.drop_last()),
            seq![
                Step::Point(FaultPoint::BeforeObsoleteFileDelete),
                Step::Op(FileOp::Remove { name: inputs.last().table.path }),
            ],
        );
    }
}

/// Whether every table that a merge writes takes at most four gigabytes, and ids are left for all of them.
pub open spec fn has_room(job: Job, next_id: int) -> bool {
    &&& forall|i: int| 0 <= i < job_groups(job).len() ==> table_len(#[trigger] job_groups(job)[i], 4096) <= 4294967295
    &&& next_id + job_groups(job).len() <= 18446744073709551615
}

proof fn lemma_job_passes(start: Run, job: Job, next_id: int)
    requires
        start.stop is None,
        start.injector.fault is None,
        has_room(job, next_id),
    ensures
        run_from(start, job_steps(job, next_id)).stop is None,
{
    let outputs = outputs_steps(job_groups(job), job.output_level, next_id);
    let marking = mark_steps(job, next_id);
    let removing = remove_steps(job.inputs);
    let ending = seq![
        Step::Point(FaultPoint::AfterObsoleteFileDelete),
        Step::Point(FaultPoint::BeforeMetadataUpdate),
    ];
    lemma_outputs_are_unlimited(job_groups(job), job.output_level, next_id);
    lemma_removing_is_unlimited(job.inputs);
    lemma_unlimited_concat(outputs, marking);
    lemma_unlimited_concat(outputs + marking, removing);
    lemma_unlimited_concat(outputs + marking + removing, ending);
    lemma_unlimited_concat(job_steps_before(job, next_id), job_steps_behind());
    law_only_limits_stop_without_a_fault(start, job_steps(job, next_id));
}

/// Where no fault is configured, a merge of all tables succeeds if there is room for what it writes.
pub proof fn law_full_compaction_succeeds_without_a_fault(before: DbModel, after: DbModel, result: Result<()>)
    requires
        before.trail.stop is None,
        before.trail.injector.fault is None,
        has_room(full_job(before.tree.levels), before.tree.next_id),
        fully_compacted(before, after, result),
    ensures
        result is Ok,
{
    if all_placed(before.tree.levels).len() > 1 {
        lemma_job_passes(before.trail, full_job(before.tree.levels), before.tree.next_id);
    }
}

/// Whether the merge that is due after so many others has no room for what it writes.
pub open spec fn lacks_room_after(tree: TreeState, options: DbOptions, rounds: nat) -> bool {
    let config = config_of(options);
    let target = options.target_file_size as int;
    let then = tree_after_rounds(tree, config, target, rounds);
    due_job(then, config, target) matches Some(job) && !has_room(job, then.next_id)
}

/// Whether one of the merges that come due one after the other has no room for what it writes.
pub open spec fn lacks_room(tree: TreeState, options: DbOptions) -> bool {
    exists|rounds: nat| lacks_room_after(tree, options, rounds)
}

/// Where no fault is configured, merging succeeds if there is room for what the merges write.
pub proof fn law_compaction_succeeds_without_a_fault(before: DbModel, after: DbModel, result: Result<()>)
    requires
        before.trail.stop is None,
        before.trail.injector.fault is None,
        !lacks_room(before.tree, before.options),
        compacted(before, after, result),
    ensures
        result is Ok,
{
    let config = config_of(before.options);
    let target = before.options.target_file_size as int;
    let rounds = choose|rounds: nat| compacted_in(before, after, result, rounds);
    if result is Err {
        let done = (rounds - 1) as nat;
        let tree = tree_after_rounds(before.tree, config, target, done);
        let first = rounds_steps(before.tree, config, target, done);
        let start = run_from(before.trail, first);
        assert(due_job(tree, config, target) is Some);
        let job = due_job(tree, config, target)->Some_0;
        lemma_no_fault(before.trail, first);
        assert(!lacks_room_after(before.tree, before.options, done));
        lemma_job_passes(start, job, tree.next_id);
        lemma_run_concat(before.trail, first, job_steps(job, tree.next_id));
        assert(rounds_steps(before.tree, config, target, rounds) =~= first + job_steps(job, tree.next_id));
    }
}

/// Where no fault is configured, a flush succeeds if the memtable fits in a file, an id is left, and there
/// is room for what the merges write that are then due.
pub proof fn law_flush_succeeds_without_a_fault(before: DbModel, after: DbModel, result: Result<()>)
    requires
        before.trail.stop is None,
        before.trail.injector.fault is None,
        table_len(before.memtable, 4096) <= 4294967295,
        before.tree.next_id < 18446744073709551615,
        !lacks_room(flush_done(before).tree, before.options),
        flushed(before, after, result),
    ensures
        result is Ok,
{
    reveal(flushed);
    let next = before.tree.next_id;
    let writing = write_steps(0, next, before.memtable);
    let rest = seq![
        Step::Point(FaultPoint::BeforeWalTruncation),
        Step::Op(FileOp::Truncate { name: wal_name(), len: 0 }),
        Step::Op(FileOp::Sync { name: wal_name() }),
        Step::Point(FaultPoint::AfterWalTruncation),
        Step::Point(FaultPoint::BeforeMetadataUpdate),
    ];
    lemma_writing_is_unlimited(0, next, before.memtable);
    lemma_unlimited_concat(writing, rest);
    lemma_unlimited_concat(flush_steps_before(before.memtable, next), seq![Step::Point(FaultPoint::AfterMetadataUpdate)]);
    law_only_limits_stop_without_a_fault(before.trail, flush_steps_before(before.memtable, next));
    law_only_limits_stop_without_a_fault(before.trail, flush_steps(before.memtable, next));
    if before.memtable.len() > 0 {
        let run = run_from(before.trail, flush_steps(before.memtable, next));
        law_compaction_succeeds_without_a_fault(DbModel { trail: run, ..flush_done(before) }, after, result);
    }
}

/// Where no fault is configured, a write succeeds if its record fits in the log, and, where it fills the
/// memtable, there is room for the flush and for the merges that are then due.
pub proof fn law_write_succeeds_where_there_is_room(before: DbModel, row: Row, after: DbModel, result: Result<()>)
    requires
        before.trail.stop is None,
        before.trail.injector.fault is None,
        9 + encode_utf8(row.0).len() + value_bytes(row).len() <= 4294967295,
        table_len(upsert(before.memtable, row), 4096) <= 4294967295,
        before.tree.next_id < 18446744073709551615,
        !lacks_room(flush_done(row_applied(before, row)).tree, before.options),
        written(before, row, after, result),
    ensures
        result is Ok,
{
    reveal(written);
    law_only_limits_stop_without_a_fault(before.trail, log_steps(row));
    law_only_limits_stop_without_a_fault(before.trail, apply_steps(row));
    let run = run_from(before.trail, apply_steps(row));
    let applied = DbModel { trail: run, ..row_applied(before, row) };
    if applied.memtable.len() >= before.options.flush_threshold {
        law_flush_succeeds_without_a_fault(applied, after, result);
    }
}

/// A record that is too large for the log is refused, and nothing is changed by it.
pub proof fn law_oversized_record_is_refused(before: DbModel, row: Row, after: DbModel, result: Result<()>)
    requires
        before.trail.stop is None,
        before.trail.injector.fault is None,
        9 + encode_utf8(row.0).len() + value_bytes(row).len() > 4294967295,
        written(before, row, after, result),
    ensures
        result matches Err(PebbleError::WalCorruption(text)) && text@ == "record too large"@,
        after == before,
{
    reveal(written);
    let steps = log_steps(row);
    let head = steps.take(2);
    let rest = steps.skip(2);
    assert(head + rest =~= steps);
    assert(head.drop_last().drop_last() =~= Seq::<Step>::empty());
    assert(run_from(before.trail, head.drop_last().drop_last()) == before.trail);
    assert(run_from(before.trail, head.drop_last()) == before.trail);
    lemma_run_concat(before.trail, head, rest);
    lemma_stopped(run_from(before.trail, head), rest);
    assert(after.trail == before.trail);
}

/// A call succeeds just where nothing stopped it, and its error tells what did: the fault, or the limit of
/// the log or of a table in words.
pub proof fn law_result_tells_what_stopped(run: Run, result: Result<()>)
    requires
        tells(run, result),
    ensures
        result is Ok <==> run.stop is None,
        run.stop matches Some(Stop::Limit { in_log: true, problem }) ==> (result matches Err(PebbleError::WalCorruption(text))
            && text@ == problem),
        run.stop matches Some(Stop::Limit { in_log: false, problem }) ==> (result matches Err(
            PebbleError::SSTableCorruption(text),
        ) && text@ == problem),
        run.stop matches Some(Stop::Fault { point, injector }) ==> (result matches Err(error) && injector.is_failure(
            point,
            error,
        )),
{
}

}
