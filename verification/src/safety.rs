//! No operation loses anything when the process ends in the middle of it.
use crate::compaction::{plan_for, LevelConfig};
use crate::crash::{
    are_new, finish_ops, law_due_merge_is_safe, law_full_merge_is_safe, law_placing_is_atomic, lemma_crash_prefix,
    lemma_finish_crash, lemma_log_row_crash, lemma_outputs_crash, lemma_outputs_placed, lemma_recovers,
    lemma_recovers_same, lemma_tables_added, lemma_tables_ops_applied, lemma_tmp_is_harmless, lemma_two_ops,
    log_row_ops, place_ops, recovers, remove_ops, safe_job, same_contents, tables_ops, with_logged, with_tables,
};
use crate::db::{
    compacted, compacted_in, config_of, flush_done, flushed, fully_compacted, lemma_sources_sorted, row_applied,
    written, DbModel, DbOptions,
};
use crate::disk::{
    all_ops, applied, applied_all, crash_leaves, law_run_does_a_prefix, lemma_all_ops_concat, lemma_applied_concat,
    lemma_crash_concat, lemma_next, lemma_run_concat, lemma_stopped, run_from, FileOp, Image, Run, Step,
};
use crate::durability::{law_opening_can_be_interrupted, law_opening_finds_what_is_there, lists, represents, settled};
use crate::engine::{
    apply_steps, contents, due_job, flush_steps, flush_steps_before, job_marker, job_steps, job_steps_before,
    job_steps_behind, lemma_lookup, log_steps, mark_steps, outputs_steps, read_sources, remove_steps, rounds_due,
    rounds_steps, tree_after, tree_after_rounds, write_steps, TreeState,
};
use crate::error::Result;
use crate::fault::FaultPoint;
use crate::levels::{level_at, levels_get, levels_wf, value_of, Job, Levels, Placed, TableState};
use crate::merge::{
    all_placed, full_job, groups_fit, job_fits, job_groups, job_outputs, law_flush_adds_the_newest, lemma_new_table,
    levels_metas, levels_ok, levels_with_flushed, new_table, new_tables, outputs_fit,
};
use crate::keys::key_lt;
use crate::names::{law_names_are_apart, law_table_name_roundtrip, pending_name, tmp_name, wal_name};
use crate::records::record_len;
use crate::recovery::{log_in, opened, opening, opening_ops, replayed, Opening};
use crate::rows::{
    has_key, index_of_key, law_merge_newest_wins, lemma_rows_get_at, lemma_upsert, lemma_visible, lemma_visible_has,
    live_rows, merge_rows, rows_get, sorted, upsert, Row,
};
use crate::table::{table_len, DEFAULT_BLOCK_SIZE};
use crate::wal::scan_log;
use vstd::prelude::*;

verus! {

/// The operations that a run has added.
pub open spec fn added_ops(start: Run, run: Run) -> Seq<FileOp> {
    run.ops.skip(start.ops.len() as int)
}

/// How far the writing of a table file can come.
pub proof fn lemma_write_run(start: Run, level: int, id: int, rows: Seq<Row>) -> (count: int)
    requires
        start.stop is None,
    ensures
        ({
            let run = run_from(start, write_steps(level, id, rows));
            let table = new_table(level, id, rows);
            let ops = place_ops(table.path, table.bytes);
            let fits = id < u64::MAX && table_len(rows, DEFAULT_BLOCK_SIZE) <= u32::MAX;
            &&& 0 <= count <= 2
            &&& run.ops == start.ops + ops.take(count)
            &&& !fits ==> count == 0
            &&& run.stop is None ==> fits && count == 2
        }),
{
    let steps = write_steps(level, id, rows);
    let table = new_table(level, id, rows);
    let ops = place_ops(table.path, table.bytes);
    reveal(write_steps);
    lemma_next(start, steps, 0);
    lemma_next(start, steps, 1);
    lemma_next(start, steps, 2);
    lemma_next(start, steps, 3);
    lemma_next(start, steps, 4);
    lemma_next(start, steps, 5);
    lemma_next(start, steps, 6);
    lemma_next(start, steps, 7);
    let r3 = run_from(start, steps.take(3));
    let r6 = run_from(start, steps.take(6));
    assert(start.ops + ops.take(0) =~= start.ops);
    assert(start.ops + ops.take(1) =~= start.ops.push(ops[0]));
    assert(start.ops + ops.take(2) =~= start.ops.push(ops[0]).push(ops[1]));
    assert(r3.ops == start.ops);
    if r3.stop is Some {
        0
    } else if r6.stop is Some {
        1
    } else {
        2
    }
}

proof fn lemma_take_concat(a: Seq<FileOp>, b: Seq<FileOp>, c: int)
    requires
        0 <= c <= b.len(),
    ensures
        (a + b).take(a.len() + c) == a + b.take(c),
{
    assert((a + b).take(a.len() + c) =~= a + b.take(c));
}

/// How far the writing of several table files can come: `n` of them were begun.
#[verifier::rlimit(40)]
#[verifier::spinoff_prover]
pub proof fn lemma_outputs_run_ops(start: Run, groups: Seq<Seq<Row>>, level: int, next_id: int) -> (reached: (int, int))
    requires
        start.stop is None,
        0 <= next_id <= u64::MAX,
    ensures
        ({
            let (n, count) = reached;
            let run = run_from(start, outputs_steps(groups, level, next_id));
            let ops = tables_ops(new_tables(groups.take(n), level, next_id));
            &&& 0 <= n <= groups.len()
            &&& groups_fit(groups.take(n))
            &&& next_id + n <= u64::MAX
            &&& 0 <= count <= ops.len()
            &&& run.ops == start.ops + ops.take(count)
            &&& run.stop is None ==> n == groups.len() && count == ops.len()
        }),
    decreases groups.len(),
{
    if groups.len() == 0 {
        assert(groups.take(0) =~= groups);
        assert(new_tables(groups, level, next_id) =~= Seq::<TableState>::empty());
        assert(start.ops + Seq::<FileOp>::empty().take(0) =~= start.ops);
        (0, 0)
    } else {
        let before = groups.drop_last();
        let last = groups.last();
        let (n, count) = lemma_outputs_run_ops(start, before, level, next_id);
        let earlier = run_from(start, outputs_steps(before, level, next_id));
        let id = next_id + groups.len() - 1;
        let steps = write_steps(level, id, last);
        lemma_run_concat(start, outputs_steps(before, level, next_id), steps);
        assert(groups.take(n) =~= before.take(n));
        if earlier.stop is Some {
            lemma_stopped(earlier, steps);
            (n, count)
        } else {
            let c = lemma_write_run(earlier, level, id, last);
            let table = new_table(level, id, last);
            let place = place_ops(table.path, table.bytes);
            let done = tables_ops(new_tables(before, level, next_id));
            assert(before.take(n) =~= before);
            assert(done.take(count) =~= done);
            if id < u64::MAX && table_len(last, DEFAULT_BLOCK_SIZE) <= u32::MAX {
                let all = new_tables(groups, level, next_id);
                let whole = groups.len() as int;
                assert(groups.take(whole) =~= groups);
                assert(all.drop_last() =~= new_tables(before, level, next_id));
                assert(all.last() == table);
                assert(tables_ops(all) == done + place);
                lemma_take_concat(done, place, c);
                assert(start.ops + (done + place).take(done.len() + c) == earlier.ops + place.take(c)) by {
                    assert(start.ops + done + place.take(c) =~= start.ops + (done + place.take(c)));
                }
                assert forall|i: int| 0 <= i < groups.len() implies table_len(#[trigger] groups[i], DEFAULT_BLOCK_SIZE)
                    <= u32::MAX by {
                    if i < before.len() {
                        assert(table_len(before[i], DEFAULT_BLOCK_SIZE) <= u32::MAX);
                    }
                }
                (whole, done.len() + c)
            } else {
                assert(earlier.ops + place.take(0) =~= earlier.ops);
                (n, count)
            }
        }
    }
}

/// The operations of the steps behind the writing of the outputs.
proof fn lemma_finish_steps(job: Job, next_id: int)
    ensures
        all_ops(
            mark_steps(job, next_id) + remove_steps(job.inputs) + seq![
                Step::Point(FaultPoint::AfterObsoleteFileDelete),
                Step::Point(FaultPoint::BeforeMetadataUpdate),
            ] + job_steps_behind(),
        ) == finish_ops(job, next_id),
{
    let marking = mark_steps(job, next_id);
    let removing = remove_steps(job.inputs);
    let ending = seq![
        Step::Point(FaultPoint::AfterObsoleteFileDelete),
        Step::Point(FaultPoint::BeforeMetadataUpdate),
    ];
    let behind = job_steps_behind();
    lemma_all_ops_concat(marking + removing + ending, behind);
    lemma_all_ops_concat(marking + removing, ending);
    lemma_all_ops_concat(marking, removing);
    lemma_removing_ops(job.inputs);
    reveal_with_fuel(all_ops, 4);
    assert(marking.drop_last().drop_last().drop_last() =~= Seq::<Step>::empty());
    assert(ending.drop_last().drop_last() =~= Seq::<Step>::empty());
    assert(behind.drop_last().drop_last() =~= Seq::<Step>::empty());
    assert(all_ops(marking) =~= place_ops(pending_name(), job_marker(job, next_id)));
    assert(all_ops(ending) =~= Seq::<FileOp>::empty());
    assert(all_ops(behind) =~= seq![FileOp::Remove { name: pending_name() }]);
    assert(all_ops(marking) + all_ops(removing) + all_ops(ending) + all_ops(behind) =~= finish_ops(job, next_id));
}

proof fn lemma_removing_ops(inputs: Seq<Placed>)
    ensures
        all_ops(remove_steps(inputs)) == remove_ops(inputs),
    decreases inputs.len(),
{
    if inputs.len() == 0 {
        assert(remove_ops(inputs) =~= Seq::<FileOp>::empty());
    } else {
        let before = inputs.drop_last();
        let own = seq![
            Step::Point(FaultPoint::BeforeObsoleteFileDelete),
            Step::Op(FileOp::Remove { name: inputs.last().table.path }),
        ];
        lemma_removing_ops(before);
        lemma_all_ops_concat(remove_steps(before), own);
        reveal_with_fuel(all_ops, 3);
        assert(own.drop_last().drop_last() =~= Seq::<Step>::empty());
        assert(all_ops(own) =~= seq![FileOp::Remove { name: inputs.last().table.path }]);
        assert(remove_ops(inputs) =~= remove_ops(before) + all_ops(own));
    }
}

/// What a run of a safe merge leaves, wherever the process ends or the merge is stopped.
pub proof fn lemma_job_run(image: Image, tree: TreeState, memtable: Seq<Row>, job: Job, start: Run, left: Image)
    requires
        settled(image),
        represents(image, tree, memtable),
        safe_job(tree, job),
        start.stop is None,
    ensures
        ({
            let run = run_from(start, job_steps(job, tree.next_id));
            let ops = added_ops(start, run);
            let end = applied_all(image, ops);
            &&& run.ops == start.ops + ops
            &&& crash_leaves(image, ops, left) ==> recovers(left, memtable, tree.levels)
            &&& run.stop is None ==> {
                &&& job_fits(job, tree.next_id)
                &&& settled(end)
                &&& represents(end, tree_after(tree, job), memtable)
                &&& same_contents(memtable, tree_after(tree, job).levels, memtable, tree.levels)
            }
            &&& run_from(start, job_steps_before(job, tree.next_id)).stop is None ==> {
                &&& job_fits(job, tree.next_id)
                &&& same_contents(memtable, tree_after(tree, job).levels, memtable, tree.levels)
            }
        }),
{
    let next = tree.next_id;
    let level = job.output_level;
    let groups = job_groups(job);
    let writing = outputs_steps(groups, level, next);
    let marking = mark_steps(job, next);
    let removing = remove_steps(job.inputs);
    let ending = seq![
        Step::Point(FaultPoint::AfterObsoleteFileDelete),
        Step::Point(FaultPoint::BeforeMetadataUpdate),
    ];
    let behind = job_steps_behind();
    let rest = marking + removing + ending + behind;
    let steps = job_steps(job, next);
    assert(steps =~= writing + rest);
    assert(job_steps_before(job, next) =~= writing + (marking + removing + ending));
    lemma_run_concat(start, writing, rest);
    lemma_run_concat(start, writing, marking + removing + ending);
    let first = run_from(start, writing);
    let run = run_from(start, steps);
    let ops = added_ops(start, run);
    let (n, count) = lemma_outputs_run_ops(start, groups, level, next);
    let outputs = job_outputs(job, next).take(n);
    assert(new_tables(groups.take(n), level, next) =~= outputs);
    let output_ops = tables_ops(outputs);
    assert(outputs_fit(job, next, n));
    if first.stop is Some {
        lemma_stopped(first, rest);
        lemma_stopped(first, marking + removing + ending);
        assert(ops =~= output_ops.take(count));
        assert(run.ops =~= start.ops + ops);
        if crash_leaves(image, ops, left) {
            lemma_crash_prefix(image, output_ops, count, left);
            lemma_outputs_crash(image, tree, memtable, job, n, left);
        }
    } else {
        let all = job_outputs(job, next);
        assert(outputs =~= all);
        assert(groups.take(n) =~= groups);
        assert(output_ops.take(count) =~= output_ops);
        let c = law_run_does_a_prefix(first, rest);
        lemma_finish_steps(job, next);
        let finish = finish_ops(job, next);
        let placed = with_tables(image, all);
        lemma_outputs_placed(image, tree, memtable, job, n);
        lemma_tables_ops_applied(image, all, level, next);
        assert(run.ops =~= start.ops + (output_ops + finish.take(c)));
        assert(ops =~= output_ops + finish.take(c));
        lemma_finish_crash(image, tree, memtable, job, left);
        if crash_leaves(image, ops, left) {
            lemma_crash_concat(image, output_ops, finish.take(c), left);
            if crash_leaves(image, output_ops, left) {
                lemma_outputs_crash(image, tree, memtable, job, n, left);
            } else {
                lemma_crash_prefix(placed, finish, c, left);
            }
        }
        if run.stop is None {
            assert(finish.take(c) =~= finish);
            lemma_applied_concat(image, output_ops, finish);
        }
    }
}

/// What the merges that are due leave, wherever the process ends or one of them is stopped.
pub proof fn lemma_rounds_run(
    image: Image,
    tree: TreeState,
    memtable: Seq<Row>,
    config: LevelConfig,
    target: int,
    rounds: nat,
    start: Run,
    left: Image,
)
    requires
        settled(image),
        represents(image, tree, memtable),
        config.wf(),
        rounds_due(tree, config, target, rounds),
        start.stop is None,
    ensures
        ({
            let run = run_from(start, rounds_steps(tree, config, target, rounds));
            let ops = added_ops(start, run);
            let end = applied_all(image, ops);
            let after = tree_after_rounds(tree, config, target, rounds);
            &&& run.ops == start.ops + ops
            &&& crash_leaves(image, ops, left) ==> recovers(left, memtable, tree.levels)
            &&& run.stop is None ==> {
                &&& settled(end)
                &&& represents(end, after, memtable)
                &&& same_contents(memtable, after.levels, memtable, tree.levels)
            }
        }),
    decreases rounds,
{
    let run = run_from(start, rounds_steps(tree, config, target, rounds));
    let ops = added_ops(start, run);
    if rounds == 0 {
        assert(ops =~= Seq::<FileOp>::empty());
        assert(run.ops =~= start.ops + ops);
        if crash_leaves(image, ops, left) {
            assert(left == image);
            lemma_recovers(image, tree, memtable, memtable, tree.levels);
        }
    } else {
        let done = (rounds - 1) as nat;
        assert(rounds_due(tree, config, target, done));
        lemma_rounds_run(image, tree, memtable, config, target, done, start, left);
        let earlier = run_from(start, rounds_steps(tree, config, target, done));
        let before = tree_after_rounds(tree, config, target, done);
        assert(due_job(before, config, target) is Some);
        let job = due_job(before, config, target)->Some_0;
        lemma_run_concat(start, rounds_steps(tree, config, target, done), job_steps(job, before.next_id));
        let first = added_ops(start, earlier);
        if earlier.stop is Some {
            lemma_stopped(earlier, job_steps(job, before.next_id));
        } else {
            let middle = applied_all(image, first);
            let plan = plan_for(levels_metas(before.levels), config)->Some_0;
            law_due_merge_is_safe(before, config, plan, target);
            lemma_job_run(middle, before, memtable, job, earlier, left);
            let second = added_ops(earlier, run);
            assert(run.ops =~= start.ops + (first + second));
            assert(ops =~= first + second);
            lemma_applied_concat(image, first, second);
            if crash_leaves(image, ops, left) {
                lemma_crash_concat(image, first, second, left);
                if crash_leaves(middle, second, left) {
                    lemma_recovers_same(left, memtable, before.levels, memtable, tree.levels);
                }
            }
            if run.stop is None {
                let after = tree_after_rounds(tree, config, target, rounds);
                assert(after == tree_after(before, job));
                assert forall|key: Seq<char>| #[trigger] contents(memtable, after.levels, key) == contents(
                    memtable,
                    tree.levels,
                    key,
                ) by {
                    assert(contents(memtable, before.levels, key) == contents(memtable, tree.levels, key));
                }
            }
        }
    }
}

/// The tree with the memtable in a table of its own.
pub open spec fn tree_with_flushed(tree: TreeState, memtable: Seq<Row>) -> TreeState {
    TreeState {
        levels: levels_with_flushed(tree.levels, new_table(0, tree.next_id, memtable)),
        next_id: tree.next_id + 1,
    }
}

/// A memtable that is in a table, too, or in a table alone, gives every key the same value.
pub proof fn lemma_flushed_contents(tree: TreeState, memtable: Seq<Row>)
    requires
        levels_ok(tree.levels, tree.next_id),
        sorted(memtable),
        table_len(memtable, DEFAULT_BLOCK_SIZE) <= u32::MAX,
        0 <= tree.next_id < u64::MAX,
    ensures
        levels_ok(tree_with_flushed(tree, memtable).levels, tree.next_id + 1),
        same_contents(memtable, tree_with_flushed(tree, memtable).levels, memtable, tree.levels),
        same_contents(Seq::empty(), tree_with_flushed(tree, memtable).levels, memtable, tree.levels),
{
    let table = new_table(0, tree.next_id, memtable);
    let levels = tree_with_flushed(tree, memtable).levels;
    let none = Seq::<Row>::empty();
    lemma_new_table(0, tree.next_id, memtable);
    law_flush_adds_the_newest(tree.levels, tree.next_id, table);
    assert forall|key: Seq<char>| #[trigger] contents(memtable, levels, key) == contents(memtable, tree.levels, key) by {
        lemma_lookup(memtable, levels, key);
        lemma_lookup(memtable, tree.levels, key);
        assert(levels_get(levels, key) == (if table.holds(key) {
            table.get(key)
        } else {
            levels_get(tree.levels, key)
        }));
    }
    assert forall|key: Seq<char>| #[trigger] contents(none, levels, key) == contents(memtable, tree.levels, key) by {
        lemma_lookup(none, levels, key);
        lemma_lookup(memtable, tree.levels, key);
        assert(levels_get(levels, key) == (if table.holds(key) {
            table.get(key)
        } else {
            levels_get(tree.levels, key)
        }));
    }
}

/// The directory with the table of the memtable, while the log still holds it.
proof fn lemma_memtable_placed(image: Image, tree: TreeState, memtable: Seq<Row>)
    requires
        settled(image),
        represents(image, tree, memtable),
        sorted(memtable),
        table_len(memtable, DEFAULT_BLOCK_SIZE) <= u32::MAX,
        tree.next_id < u64::MAX,
    ensures
        ({
            let table = new_table(0, tree.next_id, memtable);
            let placed = image.insert(table.path, table.bytes);
            &&& settled(placed)
            &&& represents(placed, tree_with_flushed(tree, memtable), memtable)
            &&& placed[wal_name()] == image[wal_name()]
        }),
{
    let table = new_table(0, tree.next_id, memtable);
    let tables = seq![table];
    let levels = tree_with_flushed(tree, memtable).levels;
    lemma_flushed_contents(tree, memtable);
    assert(are_new(tables, 0, tree.next_id));
    assert(tables.drop_last() =~= Seq::<TableState>::empty());
    assert(with_tables(image, tables.drop_last()) == image);
    assert(with_tables(image, tables) == image.insert(table.path, table.bytes));
    assert forall|l: int, t: TableState| #[trigger] level_at(levels, l).contains(t) <==> level_at(tree.levels, l).contains(
        t,
    ) || (l == 0 && tables.contains(t)) by {
        let own = level_at(tree.levels, l);
        if l == 0 {
            assert(level_at(levels, 0) == own.push(table));
            if level_at(levels, 0).contains(t) {
                let i = choose|i: int| 0 <= i < own.push(table).len() && own.push(table)[i] == t;
                if i < own.len() {
                    assert(own[i] == t);
                } else {
                    assert(tables[0] == t);
                }
            }
            if own.contains(t) {
                let i = choose|i: int| 0 <= i < own.len() && own[i] == t;
                assert(own.push(table)[i] == t);
            }
            if tables.contains(t) {
                assert(own.push(table)[own.len() as int] == t);
            }
        } else {
            assert(level_at(levels, l) == own);
        }
    }
    lemma_tables_added(image, tree, memtable, tables, 0, levels);
    law_table_name_roundtrip(0, tree.next_id as u64);
    law_names_are_apart(table.path);
}

/// The directory when the log has been emptied, too.
proof fn lemma_log_emptied(image: Image, tree: TreeState, memtable: Seq<Row>)
    requires
        settled(image),
        represents(image, tree, memtable),
    ensures
        ({
            let end = applied(image, FileOp::Truncate { name: wal_name(), len: 0 });
            &&& settled(end)
            &&& represents(end, tree, Seq::empty())
        }),
{
    let none = Seq::<u8>::empty();
    let end = applied(image, FileOp::Truncate { name: wal_name(), len: 0 });
    crate::crash::lemma_log_differs(image, none);
    assert(scan_log(none).rows =~= Seq::<Row>::empty());
    assert(scan_log(none).end is Clean);
    if image[wal_name()].len() > 0 {
        assert(image[wal_name()].take(0) =~= none);
        assert(end == image.insert(wal_name(), none));
    } else {
        assert(image[wal_name()] =~= none);
        assert(image.insert(wal_name(), none) =~= image);
    }
    crate::durability::lemma_same_tables(image, end, tree, memtable);
}

/// What the writing of the memtable to a table leaves, wherever the process ends or it is stopped.
pub proof fn lemma_flush_run(image: Image, tree: TreeState, memtable: Seq<Row>, start: Run, left: Image)
    requires
        settled(image),
        represents(image, tree, memtable),
        sorted(memtable),
        start.stop is None,
    ensures
        ({
            let run = run_from(start, flush_steps(memtable, tree.next_id));
            let ops = added_ops(start, run);
            let end = applied_all(image, ops);
            let after = tree_with_flushed(tree, memtable);
            &&& run.ops == start.ops + ops
            &&& crash_leaves(image, ops, left) ==> recovers(left, memtable, tree.levels)
            &&& run.stop is None ==> run_from(start, flush_steps_before(memtable, tree.next_id)).stop is None
            &&& run_from(start, flush_steps_before(memtable, tree.next_id)).stop is None ==> {
                &&& ops.len() > 0
                &&& settled(end)
                &&& represents(end, after, Seq::empty())
                &&& same_contents(Seq::empty(), after.levels, memtable, tree.levels)
            }
        }),
{
    let next = tree.next_id;
    let table = new_table(0, next, memtable);
    let place = place_ops(table.path, table.bytes);
    let writing = write_steps(0, next, memtable);
    let rest = seq![
        Step::Point(FaultPoint::BeforeWalTruncation),
        Step::Op(FileOp::Truncate { name: wal_name(), len: 0 }),
        Step::Op(FileOp::Sync { name: wal_name() }),
        Step::Point(FaultPoint::AfterWalTruncation),
        Step::Point(FaultPoint::BeforeMetadataUpdate),
    ];
    let last = seq![Step::Point(FaultPoint::AfterMetadataUpdate)];
    let all_rest = rest + last;
    let steps = flush_steps(memtable, next);
    assert(steps =~= writing + all_rest);
    lemma_run_concat(start, writing, all_rest);
    lemma_run_concat(start, writing, rest);
    let first = run_from(start, writing);
    let run = run_from(start, steps);
    let ops = added_ops(start, run);
    let c = lemma_write_run(start, 0, next, memtable);
    let fits = next < u64::MAX && table_len(memtable, DEFAULT_BLOCK_SIZE) <= u32::MAX;
    if fits {
        lemma_memtable_placed(image, tree, memtable);
        lemma_flushed_contents(tree, memtable);
    }
    if first.stop is Some {
        lemma_stopped(first, all_rest);
        lemma_stopped(first, rest);
        assert(ops =~= place.take(c));
        assert(run.ops =~= start.ops + ops);
        if crash_leaves(image, ops, left) {
            if fits {
                lemma_crash_prefix(image, place, c, left);
                lemma_placing_crash(image, tree, memtable, left);
            } else {
                assert(ops =~= Seq::<FileOp>::empty());
                assert(left == image);
                lemma_recovers(image, tree, memtable, memtable, tree.levels);
            }
        }
    } else {
        let cut = FileOp::Truncate { name: wal_name(), len: 0 };
        let sync = FileOp::Sync { name: wal_name() };
        let tail = seq![cut, sync];
        let placed = image.insert(table.path, table.bytes);
        let k = law_run_does_a_prefix(first, all_rest);
        reveal_with_fuel(all_ops, 7);
        assert(all_rest.drop_last().drop_last().drop_last().drop_last().drop_last().drop_last() =~= Seq::<Step>::empty());
        assert(all_ops(all_rest) =~= tail);
        assert(place.take(c) =~= place);
        assert(run.ops =~= start.ops + (place + tail.take(k)));
        assert(ops =~= place + tail.take(k));
        law_names_are_apart(table.path);
        law_placing_is_atomic(image, table.path, table.bytes, left);
        lemma_applied_concat(image, place, tail.take(k));
        lemma_two_ops(placed, cut, sync, left);
        lemma_log_emptied(placed, tree_with_flushed(tree, memtable), memtable);
        if crash_leaves(image, ops, left) {
            lemma_crash_concat(image, place, tail.take(k), left);
            if crash_leaves(image, place, left) {
                lemma_placing_crash(image, tree, memtable, left);
            } else {
                lemma_crash_prefix(placed, tail, k, left);
                if left == placed {
                    lemma_recovers(left, tree_with_flushed(tree, memtable), memtable, memtable, tree.levels);
                } else {
                    assert(left == applied(placed, cut));
                    lemma_recovers(left, tree_with_flushed(tree, memtable), Seq::empty(), memtable, tree.levels);
                }
            }
        }
        lemma_run_concat(first, rest, last);
        if run_from(first, rest).stop is None {
            let m = law_run_does_a_prefix(first, rest);
            assert(all_rest.drop_last() =~= rest);
            assert(all_ops(rest) =~= tail);
            assert(tail.take(m) =~= tail);
            assert(last.drop_last() =~= Seq::<Step>::empty());
            assert(run.ops == run_from(first, rest).ops);
            assert(tail.take(k) =~= tail) by {
                assert((start.ops + (place + tail.take(k))).len() == (first.ops + tail).len());
            }
        } else {
            lemma_stopped(run_from(first, rest), last);
        }
    }
}

proof fn lemma_placing_crash(image: Image, tree: TreeState, memtable: Seq<Row>, left: Image)
    requires
        settled(image),
        represents(image, tree, memtable),
        sorted(memtable),
        table_len(memtable, DEFAULT_BLOCK_SIZE) <= u32::MAX,
        tree.next_id < u64::MAX,
        ({
            let table = new_table(0, tree.next_id, memtable);
            crash_leaves(image, place_ops(table.path, table.bytes), left)
        }),
    ensures
        recovers(left, memtable, tree.levels),
{
    let table = new_table(0, tree.next_id, memtable);
    lemma_memtable_placed(image, tree, memtable);
    lemma_flushed_contents(tree, memtable);
    law_names_are_apart(table.path);
    law_placing_is_atomic(image, table.path, table.bytes, left);
    if left == image {
        lemma_recovers(left, tree, memtable, memtable, tree.levels);
    } else if left == image.insert(table.path, table.bytes) {
        lemma_recovers(left, tree_with_flushed(tree, memtable), memtable, memtable, tree.levels);
    } else {
        let part = choose|part: Seq<u8>| left == #[trigger] image.insert(tmp_name(table.path), part);
        lemma_tmp_is_harmless(image, tree, memtable, tmp_name(table.path), part);
        lemma_recovers(left, tree, memtable, memtable, tree.levels);
    }
}

/// Whether a database has carried out everything, and its directory represents it.
pub open spec fn ready(model: DbModel, image: Image) -> bool {
    &&& model.trail.stop is None
    &&& model.trail.ops.len() == 0
    &&& sorted(model.memtable)
    &&& settled(image)
    &&& represents(image, model.tree, model.memtable)
}

/// The state when the operations have been taken from the journal.
pub open spec fn drained(model: DbModel) -> DbModel {
    DbModel { trail: Run { ops: Seq::empty(), ..model.trail }, ..model }
}

proof fn lemma_compacted(before: DbModel, after: DbModel, result: Result<()>, image: Image, left: Image)
    requires
        settled(image),
        represents(image, before.tree, before.memtable),
        before.trail.stop is None,
        compacted(before, after, result),
    ensures
        ({
            let ops = added_ops(before.trail, after.trail);
            let end = applied_all(image, ops);
            &&& after.trail.ops == before.trail.ops + ops
            &&& crash_leaves(image, ops, left) ==> recovers(left, before.memtable, before.tree.levels)
            &&& after.memtable == before.memtable
            &&& same_contents(after.memtable, after.tree.levels, before.memtable, before.tree.levels)
            &&& result is Ok ==> settled(end) && represents(end, after.tree, after.memtable)
        }),
{
    let config = config_of(before.options);
    let target = before.options.target_file_size as int;
    let rounds = choose|rounds: nat| compacted_in(before, after, result, rounds);
    lemma_rounds_run(image, before.tree, before.memtable, config, target, rounds, before.trail, left);
    if result is Err {
        let done = (rounds - 1) as nat;
        let tree = tree_after_rounds(before.tree, config, target, done);
        let start = run_from(before.trail, rounds_steps(before.tree, config, target, done));
        assert(rounds_due(before.tree, config, target, done));
        lemma_rounds_run(image, before.tree, before.memtable, config, target, done, before.trail, left);
        assert(due_job(tree, config, target) is Some);
        let job = due_job(tree, config, target)->Some_0;
        let middle = applied_all(image, added_ops(before.trail, start));
        let plan = plan_for(levels_metas(tree.levels), config)->Some_0;
        law_due_merge_is_safe(tree, config, plan, target);
        lemma_job_run(middle, tree, before.memtable, job, start, left);
        assert forall|key: Seq<char>| #[trigger] contents(after.memtable, after.tree.levels, key) == contents(
            before.memtable,
            before.tree.levels,
            key,
        ) by {
            assert(contents(before.memtable, tree.levels, key) == contents(before.memtable, before.tree.levels, key));
        }
    }
}

/// However the merges that are due end, every key keeps its value; and wherever the process ends
/// in the middle of them, opening the directory finds every value again. When they succeed, the
/// directory represents the merged tables.
pub proof fn law_compaction_is_safe(before: DbModel, after: DbModel, result: Result<()>, image: Image, left: Image)
    requires
        ready(before, image),
        compacted(before, after, result),
    ensures
        same_contents(after.memtable, after.tree.levels, before.memtable, before.tree.levels),
        crash_leaves(image, after.trail.ops, left) ==> recovers(left, before.memtable, before.tree.levels),
        result is Ok ==> ready(drained(after), applied_all(image, after.trail.ops)),
{
    lemma_compacted(before, after, result, image, left);
    assert(added_ops(before.trail, after.trail) =~= after.trail.ops);
}

/// The same of a merge of all tables.
pub proof fn law_full_compaction_is_safe(before: DbModel, after: DbModel, result: Result<()>, image: Image, left: Image)
    requires
        ready(before, image),
        fully_compacted(before, after, result),
    ensures
        same_contents(after.memtable, after.tree.levels, before.memtable, before.tree.levels),
        crash_leaves(image, after.trail.ops, left) ==> recovers(left, before.memtable, before.tree.levels),
        result is Ok ==> ready(drained(after), applied_all(image, after.trail.ops)),
{
    let job = full_job(before.tree.levels);
    if all_placed(before.tree.levels).len() <= 1 {
        assert(after.trail.ops =~= Seq::<FileOp>::empty());
        if crash_leaves(image, after.trail.ops, left) {
            assert(left == image);
            lemma_recovers(image, before.tree, before.memtable, before.memtable, before.tree.levels);
        }
    } else {
        law_full_merge_is_safe(before.tree);
        lemma_job_run(image, before.tree, before.memtable, job, before.trail, left);
        let run = run_from(before.trail, job_steps(job, before.tree.next_id));
        assert(added_ops(before.trail, run) =~= after.trail.ops);
        if run.stop is None {
            lemma_behind_passed(before.trail, job, before.tree.next_id);
        }
    }
}

/// A merge that came to its end came to where the levels change.
pub proof fn lemma_behind_passed(start: Run, job: Job, next_id: int)
    requires
        run_from(start, job_steps(job, next_id)).stop is None,
    ensures
        run_from(start, job_steps_before(job, next_id)).stop is None,
{
    lemma_run_concat(start, job_steps_before(job, next_id), job_steps_behind());
    let middle = run_from(start, job_steps_before(job, next_id));
    if middle.stop is Some {
        lemma_stopped(middle, job_steps_behind());
    }
}

/// Whether a flush stopped before it did anything or right behind the change of the levels, so that
/// the directory and the database agree.
pub open spec fn flush_in_step(before: DbModel, after: DbModel) -> bool {
    ||| after.trail.ops == before.trail.ops
    ||| {
        &&& before.memtable.len() > 0
        &&& run_from(before.trail, flush_steps_before(before.memtable, before.tree.next_id)).stop is None
        &&& run_from(before.trail, flush_steps(before.memtable, before.tree.next_id)).stop is Some
    }
}

proof fn lemma_flushed(before: DbModel, after: DbModel, result: Result<()>, image: Image, left: Image)
    requires
        settled(image),
        represents(image, before.tree, before.memtable),
        before.trail.stop is None,
        sorted(before.memtable),
        flushed(before, after, result),
    ensures
        ({
            let ops = added_ops(before.trail, after.trail);
            let end = applied_all(image, ops);
            &&& after.trail.ops == before.trail.ops + ops
            &&& after.trail.stop is None
            &&& crash_leaves(image, ops, left) ==> recovers(left, before.memtable, before.tree.levels)
            &&& sorted(after.memtable)
            &&& same_contents(after.memtable, after.tree.levels, before.memtable, before.tree.levels)
            &&& result is Ok || flush_in_step(before, after) ==> settled(end) && represents(
                end,
                after.tree,
                after.memtable,
            )
        }),
{
    reveal(flushed);
    let next = before.tree.next_id;
    let steps_before = flush_steps_before(before.memtable, next);
    let run_before = run_from(before.trail, steps_before);
    let last = seq![Step::Point(FaultPoint::AfterMetadataUpdate)];
    let run = run_from(before.trail, flush_steps(before.memtable, next));
    let ops = added_ops(before.trail, after.trail);
    if before.memtable.len() == 0 {
        assert(ops =~= Seq::<FileOp>::empty());
        assert(after.trail.ops =~= before.trail.ops + ops);
        if crash_leaves(image, ops, left) {
            assert(left == image);
            lemma_recovers(image, before.tree, before.memtable, before.memtable, before.tree.levels);
        }
    } else {
        lemma_flush_run(image, before.tree, before.memtable, before.trail, left);
        lemma_run_concat(before.trail, steps_before, last);
        if run_before.stop is Some {
            lemma_stopped(run_before, last);
            if after.trail.ops == before.trail.ops {
                assert(ops =~= Seq::<FileOp>::empty());
                assert(represents(image, after.tree, after.memtable));
            }
        } else if run.stop is Some {
            assert(sorted(Seq::<Row>::empty()));
        } else {
            let done = DbModel { trail: run, ..flush_done(before) };
            let first = added_ops(before.trail, run);
            let middle = applied_all(image, first);
            assert(sorted(Seq::<Row>::empty()));
            assert(done.tree == tree_with_flushed(before.tree, before.memtable));
            lemma_compacted(done, after, result, middle, left);
            let second = added_ops(run, after.trail);
            assert(after.trail.ops =~= before.trail.ops + (first + second));
            assert(ops =~= first + second);
            lemma_applied_concat(image, first, second);
            if crash_leaves(image, ops, left) {
                lemma_crash_concat(image, first, second, left);
                if crash_leaves(middle, second, left) {
                    lemma_recovers_same(left, done.memtable, done.tree.levels, before.memtable, before.tree.levels);
                }
            }
            assert forall|key: Seq<char>| #[trigger] contents(after.memtable, after.tree.levels, key) == contents(
                before.memtable,
                before.tree.levels,
                key,
            ) by {
                assert(contents(done.memtable, done.tree.levels, key) == contents(
                    before.memtable,
                    before.tree.levels,
                    key,
                ));
            }
        }
    }
}

/// However the writing of the memtable to a table ends, every key keeps its value; and wherever the
/// process ends in the middle of it, opening the directory finds every value again. The database is
/// ready for more when the flush succeeds, and when it fails with the directory and the database in
/// step.
pub proof fn law_flush_is_safe(before: DbModel, after: DbModel, result: Result<()>, image: Image, left: Image)
    requires
        ready(before, image),
        flushed(before, after, result),
    ensures
        same_contents(after.memtable, after.tree.levels, before.memtable, before.tree.levels),
        crash_leaves(image, after.trail.ops, left) ==> recovers(left, before.memtable, before.tree.levels),
        result is Ok || flush_in_step(before, after) ==> ready(drained(after), applied_all(image, after.trail.ops)),
{
    lemma_flushed(before, after, result, image, left);
    assert(added_ops(before.trail, after.trail) =~= after.trail.ops);
}

/// A row that is written is what its key gives from then on, and other keys give what they gave.
pub proof fn law_written_row_is_read(memtable: Seq<Row>, levels: Levels, row: Row, key: Seq<char>)
    requires
        sorted(memtable),
    ensures
        contents(upsert(memtable, row), levels, key) == (if key == row.0 {
            row.1
        } else {
            contents(memtable, levels, key)
        }),
{
    let after = upsert(memtable, row);
    lemma_upsert(memtable, row);
    lemma_lookup(memtable, levels, key);
    lemma_lookup(after, levels, key);
}

/// The operations of logging a row, and how far a run of it can come.
pub proof fn lemma_log_run(start: Run, row: Row)
    requires
        start.stop is None,
    ensures
        ({
            let run = run_from(start, log_steps(row));
            let ops = added_ops(start, run);
            &&& run.ops == start.ops + ops
            &&& exists|c: int| 0 <= c <= 2 && ops == #[trigger] log_row_ops(row).take(c)
            &&& run.stop is None ==> ops == log_row_ops(row) && record_len(row) <= u32::MAX
            &&& record_len(row) > u32::MAX ==> ops.len() == 0
        }),
{
    let steps = log_steps(row);
    let run = run_from(start, steps);
    let c = law_run_does_a_prefix(start, steps);
    reveal_with_fuel(all_ops, 7);
    assert(steps.drop_last().drop_last().drop_last().drop_last().drop_last().drop_last() =~= Seq::<Step>::empty());
    assert(all_ops(steps) =~= log_row_ops(row));
    let ops = added_ops(start, run);
    assert(ops =~= log_row_ops(row).take(c));
    assert(run.ops =~= start.ops + ops);
    lemma_next(start, steps, 0);
    lemma_next(start, steps, 1);
    if record_len(row) > u32::MAX {
        assert(run_from(start, steps.take(2)).stop is Some);
        assert(run.ops == start.ops);
    }
    if run.stop is None {
        assert(log_row_ops(row).take(c) =~= log_row_ops(row));
    }
}

/// Whether a write stopped before the log or right behind the memtable, or in a flush that left them
/// in step, so that the directory and the database agree.
pub open spec fn in_step(before: DbModel, row: Row, after: DbModel) -> bool {
    let run = run_from(before.trail, apply_steps(row));
    ||| after.trail.ops == before.trail.ops
    ||| {
        &&& run_from(before.trail, log_steps(row)).stop is None
        &&& run.stop is Some || flush_in_step(DbModel { trail: run, ..row_applied(before, row) }, after)
    }
}

/// What writing a row leaves, wherever the process ends or it is stopped.
proof fn lemma_written(before: DbModel, row: Row, after: DbModel, result: Result<()>, image: Image, left: Image)
    requires
        settled(image),
        represents(image, before.tree, before.memtable),
        before.trail.stop is None,
        sorted(before.memtable),
        written(before, row, after, result),
    ensures
        ({
            let ops = added_ops(before.trail, after.trail);
            let end = applied_all(image, ops);
            let new = upsert(before.memtable, row);
            &&& after.trail.ops == before.trail.ops + ops
            &&& after.trail.stop is None
            &&& sorted(after.memtable)
            &&& crash_leaves(image, ops, left) ==> {
                ||| recovers(left, before.memtable, before.tree.levels)
                ||| recovers(left, new, before.tree.levels)
            }
            &&& if run_from(before.trail, log_steps(row)).stop is None {
                &&& same_contents(after.memtable, after.tree.levels, new, before.tree.levels)
                &&& recovers(end, new, before.tree.levels)
            } else {
                &&& result is Err
                &&& same_contents(after.memtable, after.tree.levels, before.memtable, before.tree.levels)
            }
            &&& result is Ok || in_step(before, row, after) ==> settled(end) && represents(end, after.tree, after.memtable)
        }),
{
    reveal(written);
    let tree = before.tree;
    let memtable = before.memtable;
    let new = upsert(memtable, row);
    let logging = run_from(before.trail, log_steps(row));
    let last = seq![Step::Point(FaultPoint::AfterMemtableUpdate)];
    let run = run_from(before.trail, apply_steps(row));
    let ops = added_ops(before.trail, after.trail);
    let log_ops = log_row_ops(row);
    let logged = with_logged(image, row);
    lemma_log_run(before.trail, row);
    lemma_run_concat(before.trail, log_steps(row), last);
    lemma_upsert(memtable, row);
    if record_len(row) <= u32::MAX {
        lemma_log_row_crash(image, tree, memtable, row, left);
        lemma_recovers(logged, tree, new, new, tree.levels);
    }
    if record_len(row) > u32::MAX {
        assert(logging.stop is Some);
        assert(ops =~= Seq::<FileOp>::empty());
        if crash_leaves(image, ops, left) {
            assert(left == image);
            lemma_recovers(image, tree, memtable, memtable, tree.levels);
        }
    } else if logging.stop is Some {
        let c = choose|c: int| 0 <= c <= 2 && ops == #[trigger] log_row_ops(row).take(c);
        if crash_leaves(image, ops, left) {
            lemma_crash_prefix(image, log_ops, c, left);
            lemma_logged_left(left, tree, memtable, row);
        }
    } else {
        assert(run_from(logging, last) == run);
        assert(run.ops == logging.ops) by {
            assert(last.drop_last() =~= Seq::<Step>::empty());
            assert(run_from(logging, last.drop_last()) == logging);
        }
        if run.stop is Some || new.len() < before.options.flush_threshold {
            assert(ops == log_ops);
            if crash_leaves(image, ops, left) {
                lemma_logged_left(left, tree, memtable, row);
            }
        } else {
            let full = DbModel { trail: run, ..row_applied(before, row) };
            let more = added_ops(run, after.trail);
            let rest_end = applied_all(logged, more);
            lemma_flushed(full, after, result, logged, left);
            lemma_flushed(full, after, result, logged, rest_end);
            assert(after.trail.ops =~= before.trail.ops + (log_ops + more));
            assert(ops =~= log_ops + more);
            lemma_applied_concat(image, log_ops, more);
            assert(crash_leaves(logged, more, rest_end));
            if crash_leaves(image, ops, left) {
                lemma_crash_concat(image, log_ops, more, left);
                if crash_leaves(image, log_ops, left) {
                    lemma_logged_left(left, tree, memtable, row);
                }
            }
        }
    }
}

/// Wherever the process ends while a row is written, opening the directory finds every value, with
/// the row or without it; with it once the log has been forced to the device, and when the write
/// succeeds. In memory, too, the row is there as a whole or not at all. The database is ready for more
/// when the write succeeds, and when it fails with the directory and the database in step.
pub proof fn law_write_is_safe(
    before: DbModel,
    row: Row,
    after: DbModel,
    result: Result<()>,
    image: Image,
    left: Image,
)
    requires
        ready(before, image),
        written(before, row, after, result),
    ensures
        crash_leaves(image, after.trail.ops, left) ==> {
            ||| recovers(left, before.memtable, before.tree.levels)
            ||| recovers(left, upsert(before.memtable, row), before.tree.levels)
        },
        if run_from(before.trail, log_steps(row)).stop is None {
            &&& same_contents(after.memtable, after.tree.levels, upsert(before.memtable, row), before.tree.levels)
            &&& recovers(
                applied_all(image, after.trail.ops),
                upsert(before.memtable, row),
                before.tree.levels,
            )
        } else {
            &&& result is Err
            &&& same_contents(after.memtable, after.tree.levels, before.memtable, before.tree.levels)
        },
        result is Ok || in_step(before, row, after) ==> ready(drained(after), applied_all(image, after.trail.ops)),
{
    lemma_written(before, row, after, result, image, left);
    assert(added_ops(before.trail, after.trail) =~= after.trail.ops);
}

proof fn lemma_logged_left(left: Image, tree: TreeState, memtable: Seq<Row>, row: Row)
    requires
        represents(left, tree, memtable) || represents(left, tree, upsert(memtable, row)),
    ensures
        recovers(left, memtable, tree.levels) || recovers(left, upsert(memtable, row), tree.levels),
{
    if represents(left, tree, memtable) {
        lemma_recovers(left, tree, memtable, memtable, tree.levels);
    } else {
        lemma_recovers(left, tree, upsert(memtable, row), upsert(memtable, row), tree.levels);
    }
}

proof fn lemma_replayed_sorted(rows: Seq<Row>)
    ensures
        sorted(replayed(rows)),
    decreases rows.len(),
{
    if rows.len() > 0 {
        lemma_replayed_sorted(rows.drop_last());
        lemma_upsert(replayed(rows.drop_last()), rows.last());
    }
}

/// Opening a directory from which every value recovers gives a database that is ready and has
/// every value, whatever the order in which the directory lists its files.
pub proof fn law_reopening_recovers(
    names: Seq<Seq<char>>,
    image: Image,
    memtable: Seq<Row>,
    levels: Levels,
    options: DbOptions,
)
    requires
        lists(names, image),
        recovers(image, memtable, levels),
    ensures
        opening(names, image) matches Opening::Done { tree: found, memtable: rows } && {
            &&& ready(opened(found, rows, image, options), applied_all(image, opening_ops(names, image)))
            &&& same_contents(rows, found.levels, memtable, levels)
        },
{
    let (tree, rows) = choose|tree: TreeState, rows: Seq<Row>| #[trigger]
        represents(image, tree, rows) && same_contents(rows, tree.levels, memtable, levels);
    law_opening_finds_what_is_there(names, image, tree, rows);
    lemma_replayed_sorted(scan_log(log_in(image)).rows);
    let found = opening(names, image)->tree;
    assert forall|key: Seq<char>| #[trigger] contents(rows, found.levels, key) == contents(memtable, levels, key) by {
        assert(contents(rows, tree.levels, key) == contents(memtable, levels, key));
    }
}

/// Opening the directory after a write, whether the write succeeded, failed, or was cut off by the
/// end of the process: every other key has the value that it had before the write, and the key of
/// the write has that value or the one that was written; the written one where the write succeeded
/// and all was carried out.
pub proof fn law_reopening_after_a_write(
    names: Seq<Seq<char>>,
    image: Image,
    before: DbModel,
    row: Row,
    after: DbModel,
    result: Result<()>,
    left: Image,
    key: Seq<char>,
)
    requires
        ready(before, image),
        written(before, row, after, result),
        crash_leaves(image, after.trail.ops, left),
        lists(names, left),
    ensures
        opening(names, left) matches Opening::Done { tree: found, memtable: rows } && {
            let old_value = contents(before.memtable, before.tree.levels, key);
            let new_value = contents(rows, found.levels, key);
            &&& key != row.0 ==> new_value == old_value
            &&& key == row.0 ==> new_value == old_value || new_value == row.1
            &&& key == row.0 && result is Ok && left == applied_all(image, after.trail.ops) ==> new_value == row.1
        },
{
    let new = upsert(before.memtable, row);
    let levels = before.tree.levels;
    law_write_is_safe(before, row, after, result, image, left);
    law_written_row_is_read(before.memtable, levels, row, key);
    if result is Ok && left == applied_all(image, after.trail.ops) {
        law_reopening_recovers(names, left, new, levels, before.options);
        let found = opening(names, left);
        assert(contents(found->memtable, found->tree.levels, key) == contents(new, levels, key));
    } else if recovers(left, before.memtable, levels) {
        law_reopening_recovers(names, left, before.memtable, levels, before.options);
        let found = opening(names, left);
        assert(contents(found->memtable, found->tree.levels, key) == contents(before.memtable, levels, key));
    } else {
        law_reopening_recovers(names, left, new, levels, before.options);
        let found = opening(names, left);
        assert(contents(found->memtable, found->tree.levels, key) == contents(new, levels, key));
    }
}

/// Closing a database and opening it again gives every key the value that it had.
pub proof fn law_reopening_keeps_contents(names: Seq<Seq<char>>, image: Image, model: DbModel, options: DbOptions)
    requires
        lists(names, image),
        ready(model, image),
    ensures
        opening(names, image) matches Opening::Done { tree: found, memtable: rows } && {
            &&& ready(opened(found, rows, image, options), applied_all(image, opening_ops(names, image)))
            &&& same_contents(rows, found.levels, model.memtable, model.tree.levels)
        },
{
    lemma_recovers(image, model.tree, model.memtable, model.memtable, model.tree.levels);
    law_reopening_recovers(names, image, model.memtable, model.tree.levels, options);
}

/// Opening that is itself interrupted, as often as it may be, loses nothing.
pub proof fn law_interrupted_reopening_recovers(
    names: Seq<Seq<char>>,
    image: Image,
    memtable: Seq<Row>,
    levels: Levels,
    left: Image,
)
    requires
        lists(names, image),
        recovers(image, memtable, levels),
        crash_leaves(image, opening_ops(names, image), left),
    ensures
        recovers(left, memtable, levels),
{
    let (tree, rows) = choose|tree: TreeState, rows: Seq<Row>| #[trigger]
        represents(image, tree, rows) && same_contents(rows, tree.levels, memtable, levels);
    law_opening_can_be_interrupted(names, image, tree, rows, left);
    lemma_recovers(left, tree, rows, memtable, levels);
}

/// An empty directory is one of a database that holds nothing.
pub proof fn law_empty_directory_holds_nothing(image: Image)
    requires
        image == Map::<Seq<char>, Seq<u8>>::empty(),
    ensures
        recovers(image, Seq::empty(), seq![Seq::empty()]),
        forall|key: Seq<char>| #[trigger] contents(Seq::empty(), seq![Seq::empty()], key) is None,
{
    let levels: Levels = seq![Seq::<TableState>::empty()];
    let tree = TreeState { levels, next_id: 0 };
    let none = Seq::<Row>::empty();
    assert(log_in(image) =~= Seq::<u8>::empty());
    assert(scan_log(log_in(image)).rows =~= Seq::<Row>::empty());
    assert forall|l: int, t: TableState| !#[trigger] level_at(levels, l).contains(t) by {}
    assert(levels_ok(levels, 0)) by {
        assert forall|l: int| 0 <= l < levels.len() implies crate::levels::ascending(#[trigger] levels[l]) by {}
    }
    assert(represents(image, tree, none));
    lemma_recovers(image, tree, none, none, levels);
    assert forall|key: Seq<char>| #[trigger] contents(none, levels, key) is None by {
        lemma_lookup(none, levels, key);
        crate::levels::lemma_levels_get_none(levels, key);
    }
}

/// All live keys of a database, in order: the keys that have a value, each once with its value.
pub proof fn law_scan_is_the_contents(memtable: Seq<Row>, levels: Levels)
    requires
        sorted(memtable),
        levels_wf(levels),
    ensures
        ({
            let rows = live_rows(merge_rows(read_sources(memtable, levels)));
            &&& sorted(rows)
            &&& forall|key: Seq<char>| #[trigger] contents(memtable, levels, key) == value_of(rows_get(rows, key))
            &&& forall|i: int|
                0 <= i < rows.len() ==> (#[trigger] rows[i]).1 is Some && rows[i].1 == contents(memtable, levels, rows[i].0)
            &&& forall|i: int, j: int| 0 <= i < j < rows.len() ==> key_lt((#[trigger] rows[i]).0, (#[trigger] rows[j]).0)
            &&& forall|key: Seq<char>| #[trigger]
                contents(memtable, levels, key) is Some ==> exists|i: int| 0 <= i < rows.len() && (#[trigger] rows[i]).0 == key
        }),
{
    let sources = read_sources(memtable, levels);
    let merged = merge_rows(sources);
    let rows = live_rows(merged);
    lemma_sources_sorted(memtable, levels);
    law_merge_newest_wins(sources);
    lemma_visible(merged, false);
    assert forall|key: Seq<char>| #[trigger] contents(memtable, levels, key) == value_of(rows_get(rows, key)) by {
        assert(rows_get(merged, key) == crate::rows::sources_get(sources, key));
        if has_key(rows, key) {
            let q = index_of_key(rows, key);
            lemma_rows_get_at(rows, q);
        } else if has_key(merged, key) {
            let p = index_of_key(merged, key);
            lemma_rows_get_at(merged, p);
            if merged[p].1 is Some {
                let q = lemma_visible_has(merged, false, p);
                assert(rows[q].0 == key);
            }
        }
    }
    assert forall|i: int| 0 <= i < rows.len() implies (#[trigger] rows[i]).1 is Some && rows[i].1 == contents(
        memtable,
        levels,
        rows[i].0,
    ) by {
        lemma_rows_get_at(rows, i);
        assert(contents(memtable, levels, rows[i].0) == value_of(rows_get(rows, rows[i].0)));
    }
    assert forall|key: Seq<char>| #[trigger] contents(memtable, levels, key) is Some implies exists|i: int|
        0 <= i < rows.len() && (#[trigger] rows[i]).0 == key by {
        assert(has_key(rows, key));
        assert(rows[index_of_key(rows, key)].0 == key);
    }
}

}
