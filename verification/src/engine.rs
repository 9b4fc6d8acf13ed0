//! What the operations of the database do, step by step.
use crate::compaction::{at_most, plan_for, LevelConfig};
use crate::disk::{lemma_run_concat, run_from, FileOp, Run, Step};
use crate::fault::FaultPoint;
use crate::levels::{table_sources, tables_of, total_bytes, Job, Levels, Placed};
use crate::merge::{job_groups, job_outputs, levels_after, levels_metas, plan_job, split_rows};
use crate::metrics::{recorded, JobOutcome, MetricsState};
use crate::names::{pending_name, pending_text, table_name, tmp_name, wal_name};
use crate::records::record_len;
use crate::rows::{sources_get, Row};
use crate::table::{rows_bytes, table_bytes, table_len, DEFAULT_BLOCK_SIZE};
use crate::wal::log_entry;
use vstd::prelude::*;
use vstd::utf8::encode_utf8;

verus! {

/// Writing a table file: under a temporary name first, then renamed.
#[verifier::opaque]
pub open spec fn write_steps(level: int, id: int, rows: Seq<Row>) -> Seq<Step> {
    let name = table_name(level as u32, id as u64);
    seq![
        Step::Limit { holds: id < u64::MAX, in_log: false, problem: "table ids are used up"@ },
        Step::Point(FaultPoint::BeforeSstableCreation),
        Step::Limit {
            holds: table_len(rows, DEFAULT_BLOCK_SIZE) <= u32::MAX,
            in_log: false,
            problem: "table too large"@,
        },
        Step::Op(FileOp::Write { name: tmp_name(name), data: table_bytes(rows, DEFAULT_BLOCK_SIZE) }),
        Step::Point(FaultPoint::AfterSstableWrite),
        Step::Point(FaultPoint::BeforeAtomicRename),
        Step::Op(FileOp::Rename { from: tmp_name(name), to: name }),
        Step::Point(FaultPoint::AfterAtomicRename),
    ]
}

/// Writing several table files, with ids from `next_id` on.
pub open spec fn outputs_steps(groups: Seq<Seq<Row>>, level: int, next_id: int) -> Seq<Step>
    decreases groups.len(),
{
    if groups.len() == 0 {
        Seq::empty()
    } else {
        outputs_steps(groups.drop_last(), level, next_id) + write_steps(
            level,
            next_id + groups.len() - 1,
            groups.last(),
        )
    }
}

/// How many ids are taken when the files of the groups are written.
pub open spec fn ids_taken(start: Run, groups: Seq<Seq<Row>>, level: int, next_id: int) -> int
    decreases groups.len(),
{
    if groups.len() == 0 {
        0
    } else {
        let before = ids_taken(start, groups.drop_last(), level, next_id);
        if run_from(start, outputs_steps(groups.drop_last(), level, next_id)).stop is None && next_id + groups.len() - 1
            < u64::MAX {
            before + 1
        } else {
            before
        }
    }
}

/// Removing the files of several tables.
pub open spec fn remove_steps(inputs: Seq<Placed>) -> Seq<Step>
    decreases inputs.len(),
{
    if inputs.len() == 0 {
        Seq::empty()
    } else {
        remove_steps(inputs.drop_last()) + seq![
            Step::Point(FaultPoint::BeforeObsoleteFileDelete),
            Step::Op(FileOp::Remove { name: inputs.last().table.path }),
        ]
    }
}

pub open spec fn input_ids(inputs: Seq<Placed>) -> Seq<u64> {
    Seq::new(inputs.len(), |i: int| inputs[i].table.id)
}

pub open spec fn output_ids(count: int, next_id: int) -> Seq<u64> {
    Seq::new(count as nat, |i: int| (next_id + i) as u64)
}

/// The marker of a job.
pub open spec fn job_marker(job: Job, next_id: int) -> Seq<u8> {
    encode_utf8(pending_text(output_ids(job_groups(job).len() as int, next_id), input_ids(job.inputs)))
}

/// Recording a job as pending: the marker is written under a temporary name, then renamed.
pub open spec fn mark_steps(job: Job, next_id: int) -> Seq<Step> {
    seq![
        Step::Point(FaultPoint::AfterCompactionOutputCreation),
        Step::Op(FileOp::Write { name: tmp_name(pending_name()), data: job_marker(job, next_id) }),
        Step::Op(FileOp::Rename { from: tmp_name(pending_name()), to: pending_name() }),
    ]
}

/// What a job does up to where the levels change.
pub open spec fn job_steps_before(job: Job, next_id: int) -> Seq<Step> {
    outputs_steps(job_groups(job), job.output_level, next_id) + mark_steps(job, next_id) + remove_steps(job.inputs) + seq![
        Step::Point(FaultPoint::AfterObsoleteFileDelete),
        Step::Point(FaultPoint::BeforeMetadataUpdate),
    ]
}

/// What a job does after the levels have changed.
pub open spec fn job_steps_behind() -> Seq<Step> {
    seq![
        Step::Point(FaultPoint::AfterMetadataUpdate),
        Step::Op(FileOp::Remove { name: pending_name() }),
    ]
}

/// Merging tables: the outputs are written, the merge is recorded as pending, the inputs are
/// removed, and the record goes.
pub open spec fn job_steps(job: Job, next_id: int) -> Seq<Step> {
    job_steps_before(job, next_id) + job_steps_behind()
}

/// Writing the memtable to a table file of level 0, up to where the levels change.
pub open spec fn flush_steps_before(memtable: Seq<Row>, next_id: int) -> Seq<Step> {
    write_steps(0, next_id, memtable) + seq![
        Step::Point(FaultPoint::BeforeWalTruncation),
        Step::Op(FileOp::Truncate { name: wal_name(), len: 0 }),
        Step::Op(FileOp::Sync { name: wal_name() }),
        Step::Point(FaultPoint::AfterWalTruncation),
        Step::Point(FaultPoint::BeforeMetadataUpdate),
    ]
}

/// Writing the memtable to a table file of level 0.
pub open spec fn flush_steps(memtable: Seq<Row>, next_id: int) -> Seq<Step> {
    flush_steps_before(memtable, next_id) + seq![Step::Point(FaultPoint::AfterMetadataUpdate)]
}

/// Making a write durable: it goes to the log, which is forced to the device.
pub open spec fn log_steps(row: Row) -> Seq<Step> {
    seq![
        Step::Point(FaultPoint::BeforeWalAppend),
        Step::Limit { holds: record_len(row) <= u32::MAX, in_log: true, problem: "record too large"@ },
        Step::Op(FileOp::Append { name: wal_name(), data: log_entry(row) }),
        Step::Point(FaultPoint::AfterWalAppend),
        Step::Op(FileOp::Sync { name: wal_name() }),
        Step::Point(FaultPoint::AfterWalFsync),
    ]
}

/// A write, up to where a full memtable would be flushed.
pub open spec fn apply_steps(row: Row) -> Seq<Step> {
    log_steps(row) + seq![Step::Point(FaultPoint::AfterMemtableUpdate)]
}

/// The tables, and the id that the next one will get.
pub struct TreeState {
    pub levels: Levels,
    pub next_id: int,
}

/// The merge that is due, if one is.
pub open spec fn due_job(tree: TreeState, config: LevelConfig, target_file_size: int) -> Option<Job> {
    match plan_for(levels_metas(tree.levels), config) {
        Some(plan) => Some(plan_job(tree.levels, plan, target_file_size)),
        None => None,
    }
}

/// The tables after a merge.
pub open spec fn tree_after(tree: TreeState, job: Job) -> TreeState {
    TreeState {
        levels: levels_after(tree.levels, job, tree.next_id),
        next_id: tree.next_id + job_groups(job).len(),
    }
}

/// The tables after `rounds` merges, each of them due when it is made.
pub open spec fn tree_after_rounds(tree: TreeState, config: LevelConfig, target_file_size: int, rounds: nat) -> TreeState
    decreases rounds,
{
    if rounds == 0 {
        tree
    } else {
        let before = tree_after_rounds(tree, config, target_file_size, (rounds - 1) as nat);
        match due_job(before, config, target_file_size) {
            Some(job) => tree_after(before, job),
            None => before,
        }
    }
}

/// What those merges do.
pub open spec fn rounds_steps(tree: TreeState, config: LevelConfig, target_file_size: int, rounds: nat) -> Seq<Step>
    decreases rounds,
{
    if rounds == 0 {
        Seq::empty()
    } else {
        let before = tree_after_rounds(tree, config, target_file_size, (rounds - 1) as nat);
        rounds_steps(tree, config, target_file_size, (rounds - 1) as nat) + (match due_job(
            before,
            config,
            target_file_size,
        ) {
            Some(job) => job_steps(job, before.next_id),
            None => Seq::empty(),
        })
    }
}

/// Each of the first `rounds` merges is due when its turn comes.
pub open spec fn rounds_due(tree: TreeState, config: LevelConfig, target_file_size: int, rounds: nat) -> bool {
    forall|i: nat| i < rounds ==> due_job(
        #[trigger] tree_after_rounds(tree, config, target_file_size, i),
        config,
        target_file_size,
    ) is Some
}

/// What a merge read and wrote.
pub open spec fn job_outcome(job: Job, next_id: int) -> JobOutcome {
    JobOutcome {
        bytes_read: at_most(total_bytes(tables_of(job.inputs)), u64::MAX as int) as u64,
        bytes_written: at_most(total_bytes(job_outputs(job, next_id)), u64::MAX as int) as u64,
        input_files: job.inputs.len() as u64,
        output_files: job_groups(job).len() as u64,
    }
}

/// The totals after `rounds` merges.
pub open spec fn metrics_after_rounds(
    metrics: MetricsState,
    tree: TreeState,
    config: LevelConfig,
    target_file_size: int,
    rounds: nat,
) -> MetricsState
    decreases rounds,
{
    if rounds == 0 {
        metrics
    } else {
        let earlier = metrics_after_rounds(metrics, tree, config, target_file_size, (rounds - 1) as nat);
        let before = tree_after_rounds(tree, config, target_file_size, (rounds - 1) as nat);
        match due_job(before, config, target_file_size) {
            Some(job) => recorded(earlier, Some(job.output_level - 1), job_outcome(job, before.next_id)),
            None => earlier,
        }
    }
}

/// The tables after a merge that was begun at `start`, whether or not it came to its end.
pub open spec fn tree_after_attempt(tree: TreeState, start: Run, job: Job) -> TreeState {
    if run_from(start, job_steps_before(job, tree.next_id)).stop is None {
        tree_after(tree, job)
    } else {
        TreeState {
            levels: tree.levels,
            next_id: tree.next_id + ids_taken(start, job_groups(job), job.output_level, tree.next_id),
        }
    }
}

/// The sources of a database in the order in which they are read.
pub open spec fn read_sources(memtable: Seq<Row>, levels: Levels) -> Seq<Seq<Row>> {
    seq![memtable] + table_sources(levels)
}

/// What a database stores under a key: a value, a tombstone or nothing.
pub open spec fn lookup(memtable: Seq<Row>, levels: Levels, key: Seq<char>) -> Option<Option<Seq<char>>> {
    sources_get(read_sources(memtable, levels), key)
}

/// The value of a key.
pub open spec fn contents(memtable: Seq<Row>, levels: Levels, key: Seq<char>) -> Option<Seq<char>> {
    crate::levels::value_of(lookup(memtable, levels, key))
}

/// The memtable decides where it holds the key, and the tables where it does not.
pub proof fn lemma_lookup(memtable: Seq<Row>, levels: Levels, key: Seq<char>)
    ensures
        lookup(memtable, levels, key) == (if crate::rows::has_key(memtable, key) {
            crate::rows::rows_get(memtable, key)
        } else {
            crate::levels::levels_get(levels, key)
        }),
{
    let sources = read_sources(memtable, levels);
    assert(sources[0] == memtable);
    assert(sources.drop_first() =~= table_sources(levels));
    crate::levels::lemma_table_sources(levels, key);
}

/// A group that is closed stays as it is when more rows follow.
pub proof fn lemma_split_prefix(rows: Seq<Row>, target: int, i: int, k: int)
    requires
        0 <= i <= rows.len(),
        0 <= k < split_rows(rows.take(i), target).len(),
        k < split_rows(rows.take(i), target).len() - 1 || (i < rows.len() && rows_bytes(
            split_rows(rows.take(i), target)[k],
        ).len() + record_len(rows[i]) > target),
    ensures
        k < split_rows(rows, target).len(),
        split_rows(rows, target)[k] == split_rows(rows.take(i), target)[k],
    decreases rows.len() - i,
{
    if i == rows.len() {
        assert(rows.take(i) =~= rows);
    } else {
        let groups = split_rows(rows.take(i), target);
        let next = split_rows(rows.take(i + 1), target);
        assert(rows.take(i + 1).drop_last() =~= rows.take(i));
        assert(next[k] == groups[k]);
        lemma_split_prefix(rows, target, i + 1, k);
    }
}

/// The steps for the first groups come first.
pub proof fn lemma_outputs_steps_split(groups: Seq<Seq<Row>>, level: int, next_id: int, g: int)
    requires
        0 <= g <= groups.len(),
    ensures
        outputs_steps(groups, level, next_id) == outputs_steps(groups.take(g), level, next_id) + outputs_steps(
            groups.skip(g),
            level,
            next_id + g,
        ),
    decreases groups.len() - g,
{
    if g == groups.len() {
        assert(groups.take(g) =~= groups);
        assert(groups.skip(g) =~= Seq::<Seq<Row>>::empty());
        assert(outputs_steps(groups, level, next_id) + Seq::<Step>::empty() =~= outputs_steps(groups, level, next_id));
    } else {
        let before = groups.drop_last();
        lemma_outputs_steps_split(before, level, next_id, g);
        assert(before.take(g) =~= groups.take(g));
        let rest = groups.skip(g);
        assert(rest.drop_last() =~= before.skip(g));
        let last = write_steps(level, next_id + groups.len() - 1, groups.last());
        assert((next_id + g) + rest.len() - 1 == next_id + groups.len() - 1);
        assert(outputs_steps(groups.take(g), level, next_id) + (outputs_steps(before.skip(g), level, next_id + g) + last)
            =~= outputs_steps(before, level, next_id) + last);
    }
}

/// The group number `g` is written behind those before it, whatever is done afterwards.
pub proof fn lemma_outputs_run(
    start: Run,
    groups: Seq<Seq<Row>>,
    level: int,
    next_id: int,
    g: int,
)
    requires
        0 <= g < groups.len(),
    ensures
        ({
            let before = run_from(start, outputs_steps(groups.take(g), level, next_id));
            let through = run_from(before, write_steps(level, next_id + g, groups[g]));
            &&& run_from(start, outputs_steps(groups.take(g + 1), level, next_id)) == through
            &&& through.stop is Some ==> run_from(start, outputs_steps(groups, level, next_id)) == through
        }),
{
    let upto = groups.take(g + 1);
    assert(upto.drop_last() =~= groups.take(g));
    lemma_run_concat(
        start,
        outputs_steps(groups.take(g), level, next_id),
        write_steps(level, next_id + g, groups[g]),
    );
    lemma_outputs_steps_split(groups, level, next_id, g + 1);
    lemma_run_concat(
        start,
        outputs_steps(upto, level, next_id),
        outputs_steps(groups.skip(g + 1), level, next_id + g + 1),
    );
    let through = run_from(start, outputs_steps(upto, level, next_id));
    if through.stop is Some {
        crate::disk::lemma_stopped(through, outputs_steps(groups.skip(g + 1), level, next_id + g + 1));
    }
}

/// Once the writing has stopped, no more ids are taken.
pub proof fn lemma_ids_taken(start: Run, groups: Seq<Seq<Row>>, level: int, next_id: int, g: int)
    requires
        0 <= g <= groups.len(),
        run_from(start, outputs_steps(groups.take(g), level, next_id)).stop is Some,
    ensures
        ids_taken(start, groups, level, next_id) == ids_taken(start, groups.take(g), level, next_id),
        run_from(start, outputs_steps(groups, level, next_id)).stop is Some,
    decreases groups.len() - g,
{
    if g == groups.len() {
        assert(groups.take(g) =~= groups);
    } else {
        let before = groups.drop_last();
        assert(before.take(g) =~= groups.take(g));
        lemma_ids_taken(start, before, level, next_id, g);
        let last = write_steps(level, next_id + groups.len() - 1, groups.last());
        lemma_run_concat(start, outputs_steps(before, level, next_id), last);
        crate::disk::lemma_stopped(run_from(start, outputs_steps(before, level, next_id)), last);
    }
}

/// The steps for the first inputs come first.
pub proof fn lemma_remove_run(start: Run, inputs: Seq<Placed>, i: int)
    requires
        0 <= i < inputs.len(),
    ensures
        ({
            let before = run_from(start, remove_steps(inputs.take(i)));
            let through = run_from(
                before,
                seq![
                    Step::Point(FaultPoint::BeforeObsoleteFileDelete),
                    Step::Op(FileOp::Remove { name: inputs[i].table.path }),
                ],
            );
            &&& run_from(start, remove_steps(inputs.take(i + 1))) == through
            &&& through.stop is Some ==> run_from(start, remove_steps(inputs)) == through
        }),
    decreases inputs.len() - i,
{
    let upto = inputs.take(i + 1);
    let own = seq![
        Step::Point(FaultPoint::BeforeObsoleteFileDelete),
        Step::Op(FileOp::Remove { name: inputs[i].table.path }),
    ];
    assert(upto.drop_last() =~= inputs.take(i));
    lemma_run_concat(start, remove_steps(inputs.take(i)), own);
    let through = run_from(start, remove_steps(upto));
    if i + 1 == inputs.len() {
        assert(upto =~= inputs);
    } else if through.stop is Some {
        lemma_remove_run(start, inputs, i + 1);
        crate::disk::lemma_stopped(
            through,
            seq![
                Step::Point(FaultPoint::BeforeObsoleteFileDelete),
                Step::Op(FileOp::Remove { name: inputs[i + 1].table.path }),
            ],
        );
    }
}

}
