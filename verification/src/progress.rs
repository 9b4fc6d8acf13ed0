//! Why compaction comes to an end: every merge moves records down, and none moves up.
use crate::compaction::{plan_for, LevelConfig, Plan};
use crate::levels::{
    in_reading_order, inputs_wf, insert_source, job_merged, job_rows, level_at, levels_wf, placed_rows, Job, Levels,
    Placed, TableState,
};
use crate::merge::{
    chosen, has_input_id, insert_by_id, job_fits, job_groups, job_outputs, law_split_partitions_rows, lemma_chosen,
    lemma_job_outputs, lemma_plan_has_input, lemma_plan_inputs_wf, lemma_plan_members, level_count_ok, levels_after,
    levels_metas, plan_job, sorted_by_id, without,
};
use crate::rows::{lower_bound, merge_rows, overlay, visible, Row};
use crate::table::concat_rows;
use vstd::prelude::*;

verus! {

/// The records of several tables.
pub open spec fn record_count(files: Seq<TableState>) -> int
    decreases files.len(),
{
    if files.len() == 0 {
        0
    } else {
        record_count(files.drop_last()) + files.last().rows().len()
    }
}

pub open spec fn placed_count(inputs: Seq<Placed>) -> int
    decreases inputs.len(),
{
    if inputs.len() == 0 {
        0
    } else {
        placed_count(inputs.drop_last()) + inputs.last().table.rows().len()
    }
}

/// The records of the first `n` levels, each counted with its distance from the bottom `depth`.
pub open spec fn weight(levels: Levels, depth: int, n: nat) -> int
    decreases n,
{
    if n == 0 {
        0
    } else {
        weight(levels, depth, (n - 1) as nat) + record_count(level_at(levels, n - 1)) * (depth - (n - 1))
    }
}

proof fn lemma_record_count_nonnegative(files: Seq<TableState>)
    ensures
        record_count(files) >= 0,
    decreases files.len(),
{
    if files.len() > 0 {
        lemma_record_count_nonnegative(files.drop_last());
    }
}

proof fn lemma_record_count_concat(a: Seq<TableState>, b: Seq<TableState>)
    ensures
        record_count(a + b) == record_count(a) + record_count(b),
    decreases b.len(),
{
    if b.len() == 0 {
        assert(a + b =~= a);
    } else {
        assert((a + b).drop_last() =~= a + b.drop_last());
        lemma_record_count_concat(a, b.drop_last());
    }
}

proof fn lemma_placed_count_concat(a: Seq<Placed>, b: Seq<Placed>)
    ensures
        placed_count(a + b) == placed_count(a) + placed_count(b),
    decreases b.len(),
{
    if b.len() == 0 {
        assert(a + b =~= a);
    } else {
        assert((a + b).drop_last() =~= a + b.drop_last());
        lemma_placed_count_concat(a, b.drop_last());
    }
}

pub proof fn lemma_weight_nonnegative(levels: Levels, depth: int, n: nat)
    requires
        n <= depth,
    ensures
        weight(levels, depth, n) >= 0,
    decreases n,
{
    if n > 0 {
        lemma_weight_nonnegative(levels, depth, (n - 1) as nat);
        let count = record_count(level_at(levels, n - 1));
        lemma_record_count_nonnegative(level_at(levels, n - 1));
        assert(count * (depth - (n - 1)) >= 0) by (nonlinear_arith)
            requires
                count >= 0,
                depth - (n - 1) >= 0,
        ;
    }
}

/// What stays in a level and what is chosen from it make up no more than the level.
proof fn lemma_kept_and_chosen(files: Seq<TableState>, level: int, ids: Seq<u64>, inputs: Seq<Placed>)
    requires
        forall|t: TableState| #[trigger] files.contains(t) && ids.contains(t.id) ==> has_input_id(inputs, t.id),
    ensures
        record_count(without(files, inputs)) + placed_count(chosen(files, level, ids)) <= record_count(files),
        placed_count(chosen(files, level, ids)) >= 0,
        record_count(without(files, inputs)) <= record_count(files),
    decreases files.len(),
{
    if files.len() > 0 {
        let before = files.drop_last();
        let last = files.last();
        assert(files.contains(last)) by {
            assert(files[files.len() - 1] == last);
        }
        assert forall|t: TableState| #[trigger] before.contains(t) && ids.contains(t.id) implies has_input_id(
            inputs,
            t.id,
        ) by {
            let i = choose|i: int| 0 <= i < before.len() && before[i] == t;
            assert(files[i] == t);
            assert(files.contains(t));
        }
        lemma_kept_and_chosen(before, level, ids, inputs);
        let kept = without(before, inputs);
        assert(kept.push(last).drop_last() =~= kept);
        let picked = chosen(before, level, ids);
        assert(picked.push(Placed { level, table: last }).drop_last() =~= picked);
    }
}

proof fn lemma_insert_count(sources: Seq<Placed>, source: Placed)
    ensures
        placed_count(insert_source(sources, source)) == placed_count(sources) + source.table.rows().len(),
    decreases sources.len(),
{
    let new = insert_source(sources, source);
    if sources.len() == 0 {
        assert(new.drop_last() =~= Seq::<Placed>::empty());
        reveal_with_fuel(placed_count, 2);
    } else {
        lemma_insert_count(sources.drop_last(), source);
        if crate::levels::read_before(source, sources.last()) {
            assert(new.drop_last() =~= insert_source(sources.drop_last(), source));
        } else {
            assert(new.drop_last() =~= sources);
        }
    }
}

proof fn lemma_reading_order_count(inputs: Seq<Placed>)
    ensures
        placed_count(in_reading_order(inputs)) == placed_count(inputs),
    decreases inputs.len(),
{
    if inputs.len() > 0 {
        lemma_reading_order_count(inputs.drop_last());
        lemma_insert_count(in_reading_order(inputs.drop_last()), inputs.last());
    }
}

proof fn lemma_overlay_len(base: Seq<Row>, newer: Seq<Row>)
    ensures
        overlay(base, newer).len() <= base.len() + newer.len(),
    decreases newer.len(),
{
    if newer.len() > 0 {
        lemma_overlay_len(base, newer.drop_last());
        let under = overlay(base, newer.drop_last());
        lemma_lower_bound_in_range(under, newer.last().0);
    }
}

proof fn lemma_lower_bound_in_range(rows: Seq<Row>, key: Seq<char>)
    ensures
        0 <= lower_bound(rows, key) <= rows.len(),
    decreases rows.len(),
{
    if rows.len() > 0 {
        lemma_lower_bound_in_range(rows.drop_last(), key);
    }
}

/// A merge has no more rows than its sources together.
proof fn lemma_merge_len(sources: Seq<Placed>)
    ensures
        merge_rows(placed_rows(sources)).len() <= placed_count(sources),
    decreases sources.len(),
{
    let rows = placed_rows(sources);
    if sources.len() > 0 {
        let rest = sources.drop_first();
        assert(rows.drop_first() =~= placed_rows(rest));
        lemma_merge_len(rest);
        lemma_overlay_len(merge_rows(placed_rows(rest)), rows[0]);
        assert(seq![sources[0]] + rest =~= sources);
        lemma_placed_count_concat(seq![sources[0]], rest);
        assert(seq![sources[0]].drop_last() =~= Seq::<Placed>::empty());
        reveal_with_fuel(placed_count, 2);
    }
}

proof fn lemma_visible_len(rows: Seq<Row>, keep: bool)
    ensures
        visible(rows, keep).len() <= rows.len(),
    decreases rows.len(),
{
    if rows.len() > 0 {
        lemma_visible_len(rows.drop_last(), keep);
        crate::rows::lemma_live_push(rows.drop_last(), rows.last());
        assert(rows.drop_last().push(rows.last()) =~= rows);
    } else {
        crate::rows::lemma_live_push(rows, (Seq::empty(), None));
        assert(rows =~= Seq::<Row>::empty());
    }
}

proof fn lemma_groups_len(outputs: Seq<TableState>, groups: Seq<Seq<Row>>)
    requires
        outputs.len() == groups.len(),
        forall|i: int| 0 <= i < groups.len() ==> (#[trigger] outputs[i]).rows() == groups[i],
    ensures
        record_count(outputs) == concat_rows(groups).len(),
    decreases groups.len(),
{
    if groups.len() > 0 {
        let before = outputs.drop_last();
        assert forall|i: int| 0 <= i < groups.len() - 1 implies (#[trigger] before[i]).rows() == groups.drop_last()[i] by {
            assert(before[i] == outputs[i]);
        }
        lemma_groups_len(before, groups.drop_last());
        assert(outputs[outputs.len() - 1].rows() == groups[groups.len() - 1]);
    }
}

/// The outputs of a job have no more records than its inputs.
proof fn lemma_job_shrinks(job: Job, next_id: int)
    requires
        inputs_wf(job.inputs),
        job_fits(job, next_id),
        0 <= next_id,
    ensures
        record_count(job_outputs(job, next_id)) <= placed_count(job.inputs),
{
    let rows = job_rows(job);
    lemma_job_outputs(job, next_id);
    law_split_partitions_rows(rows, job.target_file_size);
    lemma_groups_len(job_outputs(job, next_id), job_groups(job));
    lemma_visible_len(job_merged(job), !job.drop_tombstones);
    lemma_merge_len(in_reading_order(job.inputs));
    lemma_reading_order_count(job.inputs);
}

/// Levels that lose `upper` records at `p`, and gain at most that many at the next level, weigh
/// less.
proof fn lemma_weight_drops(before: Levels, after: Levels, depth: int, p: int, upper: int, n: nat)
    requires
        0 <= p,
        p + 1 < depth,
        n <= depth,
        upper >= 1,
        record_count(level_at(after, p)) <= record_count(level_at(before, p)) - upper,
        record_count(level_at(after, p + 1)) <= record_count(level_at(before, p + 1)) + upper,
        forall|l: int|
            0 <= l && l != p && l != p + 1 ==> record_count(#[trigger] level_at(after, l)) <= record_count(
                level_at(before, l),
            ),
    ensures
        n <= p ==> weight(after, depth, n) <= weight(before, depth, n),
        n == p + 1 ==> weight(after, depth, n) <= weight(before, depth, n) - upper * (depth - p),
        n > p + 1 ==> weight(after, depth, n) <= weight(before, depth, n) - upper,
    decreases n,
{
    if n > 0 {
        let l = n - 1;
        lemma_weight_drops(before, after, depth, p, upper, l as nat);
        let a = record_count(level_at(after, l));
        let b = record_count(level_at(before, l));
        let d = depth - l;
        if l == p {
            assert(a * d <= b * d - upper * d) by (nonlinear_arith)
                requires
                    a <= b - upper,
                    d >= 0,
            ;
        } else if l == p + 1 {
            assert(a * d <= b * d + upper * d) by (nonlinear_arith)
                requires
                    a <= b + upper,
                    d >= 0,
            ;
            assert(upper * (d + 1) == upper * d + upper) by (nonlinear_arith);
        } else {
            assert(a <= b);
            assert(a * d <= b * d) by (nonlinear_arith)
                requires
                    a <= b,
                    d >= 0,
            ;
        }
    }
}

/// How far down the levels reach that compaction can touch.
pub open spec fn depth_of(levels: Levels) -> int {
    if levels.len() > 66 {
        levels.len() as int
    } else {
        66
    }
}

/// What compaction still has to do, as a number.
pub open spec fn remaining_work(levels: Levels) -> int {
    weight(levels, depth_of(levels), depth_of(levels) as nat)
}

proof fn lemma_insert_by_id_count(files: Seq<TableState>, table: TableState)
    ensures
        record_count(insert_by_id(files, table)) == record_count(files) + table.rows().len(),
    decreases files.len(),
{
    let new = insert_by_id(files, table);
    if files.len() == 0 {
        assert(new.drop_last() =~= Seq::<TableState>::empty());
        reveal_with_fuel(record_count, 2);
    } else {
        lemma_insert_by_id_count(files.drop_last(), table);
        if files.last().id > table.id {
            assert(new.drop_last() =~= insert_by_id(files.drop_last(), table));
        } else {
            assert(new.drop_last() =~= files);
        }
    }
}

proof fn lemma_sorted_by_id_count(files: Seq<TableState>)
    ensures
        record_count(sorted_by_id(files)) == record_count(files),
    decreases files.len(),
{
    if files.len() > 0 {
        lemma_sorted_by_id_count(files.drop_last());
        lemma_insert_by_id_count(sorted_by_id(files.drop_last()), files.last());
    }
}

/// Carrying out a plan that is due leaves less work.
pub proof fn law_compaction_makes_progress(
    levels: Levels,
    next_id: int,
    config: LevelConfig,
    plan: Plan,
    target_file_size: int,
)
    requires
        config.wf(),
        0 <= next_id,
        levels_wf(levels),
        level_count_ok(levels),
        plan_for(levels_metas(levels), config) == Some(plan),
        job_fits(plan_job(levels, plan, target_file_size), next_id),
    ensures
        ({
            let after = levels_after(levels, plan_job(levels, plan, target_file_size), next_id);
            0 <= remaining_work(after) < remaining_work(levels)
        }),
{
    let job = plan_job(levels, plan, target_file_size);
    let inputs = job.inputs;
    let outputs = job_outputs(job, next_id);
    let after = levels_after(levels, job, next_id);
    let p = plan.level as int;
    let depth = depth_of(levels);
    let x = lemma_plan_has_input(levels, config, plan);
    lemma_plan_inputs_wf(levels, plan);
    lemma_job_shrinks(job, next_id);
    let upper = chosen(level_at(levels, p), p, plan.inputs);
    let lower = chosen(level_at(levels, p + 1), p + 1, plan.overlaps);
    lemma_plan_members(levels, plan);
    lemma_placed_count_concat(upper, lower);
    assert forall|t: TableState| #[trigger] level_at(levels, p).contains(t) && plan.inputs.contains(t.id) implies has_input_id(
        inputs,
        t.id,
    ) by {
        let y = Placed { level: p, table: t };
        assert(inputs.contains(y));
        let i = choose|i: int| 0 <= i < inputs.len() && inputs[i] == y;
        assert(inputs[i].table.id == t.id);
    }
    assert forall|t: TableState| #[trigger] level_at(levels, p + 1).contains(t) && plan.overlaps.contains(
        t.id,
    ) implies has_input_id(inputs, t.id) by {
        let y = Placed { level: p + 1, table: t };
        assert(inputs.contains(y));
        let i = choose|i: int| 0 <= i < inputs.len() && inputs[i] == y;
        assert(inputs[i].table.id == t.id);
    }
    lemma_kept_and_chosen(level_at(levels, p), p, plan.inputs, inputs);
    lemma_kept_and_chosen(level_at(levels, p + 1), p + 1, plan.overlaps, inputs);
    let kept_below = without(level_at(levels, p + 1), inputs);
    lemma_record_count_concat(kept_below, outputs);
    lemma_sorted_by_id_count(kept_below + outputs);
    lemma_chosen(level_at(levels, p), p, plan.inputs);
    assert(upper.contains(x));
    lemma_member_counts(upper, x);
    let moved = placed_count(upper);
    assert forall|l: int| 0 <= l && l != p && l != p + 1 implies record_count(#[trigger] level_at(after, l))
        <= record_count(level_at(levels, l)) by {
        lemma_kept_and_chosen(level_at(levels, l), l, Seq::empty(), inputs);
        lemma_record_count_nonnegative(level_at(levels, l));
        if l < after.len() {
            assert(after[l] == without(level_at(levels, l), inputs));
        }
    }
    assert(level_at(after, p) == without(level_at(levels, p), inputs));
    assert(level_at(after, p + 1) == sorted_by_id(kept_below + outputs));
    lemma_weight_drops(levels, after, depth, p, moved, depth as nat);
    assert(depth_of(after) == depth);
    lemma_weight_nonnegative(after, depth, depth as nat);
}

proof fn lemma_member_counts(inputs: Seq<Placed>, x: Placed)
    requires
        inputs.contains(x),
        x.table.rows().len() > 0,
    ensures
        placed_count(inputs) >= 1,
    decreases inputs.len(),
{
    let i = choose|i: int| 0 <= i < inputs.len() && inputs[i] == x;
    if i < inputs.len() - 1 {
        assert(inputs.drop_last()[i] == x);
        lemma_member_counts(inputs.drop_last(), x);
    } else {
        lemma_placed_count_nonnegative(inputs.drop_last());
    }
}

proof fn lemma_placed_count_nonnegative(inputs: Seq<Placed>)
    ensures
        placed_count(inputs) >= 0,
    decreases inputs.len(),
{
    if inputs.len() > 0 {
        lemma_placed_count_nonnegative(inputs.drop_last());
    }
}

}
