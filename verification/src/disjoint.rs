//! Below level 0 the tables of a level do not overlap.
use crate::compaction::{law_descending_ids, overlapping_files, overlaps, LevelConfig, Plan};
use crate::keys::{group_key_order, key_lt};
use crate::levels::{input_holds, is_input, job_rows, level_at, Job, Levels, Placed, TableState};
use crate::merge::{
    full_job, is_meta, job_fits, job_groups, job_outputs, law_split_partitions_rows, lemma_fresh_outputs,
    lemma_full_job, lemma_job_outputs, lemma_key_in_range, lemma_member_wf, lemma_merged_levels, lemma_metas,
    lemma_overlapping, lemma_plan_is_leveled, lemma_plan_members, lemma_plan_range, lemma_same_table, level_count_ok,
    levels_after, levels_metas, levels_ok, levels_with_flushed, meta_of, plan_inputs, plan_job, range_covers,
};
use crate::compaction::plan_for;
use crate::rows::{has_key, index_of_key, sorted, Row};
use crate::table::{concat_rows, lemma_block_keys_ascend};
use vstd::prelude::*;

verus! {

/// Every key of `a` stands before every key of `b`.
pub open spec fn below(a: TableState, b: TableState) -> bool {
    forall|x: Seq<char>, y: Seq<char>| #[trigger] a.holds(x) && #[trigger] b.holds(y) ==> key_lt(x, y)
}

/// Two tables whose key ranges do not meet.
pub open spec fn apart(a: TableState, b: TableState) -> bool {
    below(a, b) || below(b, a)
}

/// Below level 0 no two tables of a level overlap.
pub open spec fn levels_apart(levels: Levels) -> bool {
    forall|l: int, a: TableState, b: TableState|
        l >= 1 && #[trigger] level_at(levels, l).contains(a) && #[trigger] level_at(levels, l).contains(b) && a != b
            ==> apart(a, b)
}

/// The outputs of a job do not overlap.
proof fn lemma_outputs_apart(job: Job, next_id: int, a: TableState, b: TableState)
    requires
        crate::levels::inputs_wf(job.inputs),
        job_fits(job, next_id),
        job_outputs(job, next_id).contains(a),
        job_outputs(job, next_id).contains(b),
        a != b,
    ensures
        apart(a, b),
{
    let outputs = job_outputs(job, next_id);
    let groups = job_groups(job);
    lemma_job_outputs(job, next_id);
    law_split_partitions_rows(job_rows(job), job.target_file_size);
    let i = choose|i: int| 0 <= i < outputs.len() && outputs[i] == a;
    let j = choose|j: int| 0 <= j < outputs.len() && outputs[j] == b;
    assert(outputs[i].rows() == groups[i]);
    assert(outputs[j].rows() == groups[j]);
    assert(i != j);
    if i < j {
        lemma_groups_below(groups, i, j, a, b);
    } else {
        lemma_groups_below(groups, j, i, b, a);
    }
}

proof fn lemma_groups_below(groups: Seq<Seq<Row>>, i: int, j: int, a: TableState, b: TableState)
    requires
        sorted(concat_rows(groups)),
        0 <= i < j < groups.len(),
        a.rows() == groups[i],
        b.rows() == groups[j],
    ensures
        below(a, b),
{
    assert forall|x: Seq<char>, y: Seq<char>| #[trigger] a.holds(x) && #[trigger] b.holds(y) implies key_lt(x, y) by {
        let p = index_of_key(groups[i], x);
        let q = index_of_key(groups[j], y);
        lemma_block_keys_ascend(groups, i, p, j, q);
    }
}

/// A table of the next level that a plan does not take stands before all that it takes, or behind.
proof fn lemma_stays_outside(levels: Levels, config: LevelConfig, plan: Plan, t: TableState) -> (before: bool)
    requires
        config.wf(),
        crate::levels::levels_wf(levels),
        crate::merge::unique_ids(levels),
        level_count_ok(levels),
        plan_for(levels_metas(levels), config) == Some(plan),
        levels_apart(levels),
        level_at(levels, plan.level + 1).contains(t),
        !is_input(plan_inputs(levels, plan), plan.level + 1, t),
    ensures
        forall|x: Placed| #[trigger]
            plan_inputs(levels, plan).contains(x) ==> if before {
                below(t, x.table)
            } else {
                below(x.table, t)
            },
{
    broadcast use group_key_order;

    let p = plan.level as int;
    let inputs = plan_inputs(levels, plan);
    let metas = levels_metas(levels);
    let (smallest, largest) = lemma_plan_range(levels, config, plan);
    let found = overlapping_files(metas, (p + 1) as u32, smallest, largest);
    lemma_plan_members(levels, plan);
    lemma_metas(levels);
    lemma_overlapping(metas, (p + 1) as u32, smallest, largest);
    law_descending_ids(found);
    lemma_member_wf(levels, p + 1, t);
    if t.rows().len() == 0 {
        assert forall|x: Placed| #[trigger] inputs.contains(x) implies below(t, x.table) by {
            assert forall|k: Seq<char>| !#[trigger] t.holds(k) by {}
        }
        true
    } else {
        let m = meta_of(t, p + 1);
        assert(is_meta(levels, p + 1, t, m));
        assert(metas.contains(m));
        if found.contains(m) {
            let k = choose|k: int| 0 <= k < found.len() && found[k] == m;
            assert(found[k].id == t.id);
            assert(plan.overlaps.contains(t.id));
            assert(inputs.contains(Placed { level: p + 1, table: t }));
        }
        assert(!overlaps(m, (p + 1) as u32, smallest, largest));
        let before = key_lt(t.rows().last().0, smallest);
        assert(before || key_lt(largest, t.rows()[0].0));
        assert forall|x: Placed| #[trigger] inputs.contains(x) implies if before {
            below(t, x.table)
        } else {
            below(x.table, t)
        } by {
            lemma_input_outside(levels, plan, smallest, largest, t, x, before);
        }
        before
    }
}

proof fn lemma_input_outside(
    levels: Levels,
    plan: Plan,
    smallest: Seq<char>,
    largest: Seq<char>,
    t: TableState,
    x: Placed,
    before: bool,
)
    requires
        crate::levels::levels_wf(levels),
        crate::merge::unique_ids(levels),
        level_count_ok(levels),
        plan.level <= 64,
        range_covers(levels, plan, smallest, largest),
        plan.overlaps == crate::compaction::descending_ids(
            overlapping_files(levels_metas(levels), (plan.level + 1) as u32, smallest, largest),
        ),
        levels_apart(levels),
        level_at(levels, plan.level + 1).contains(t),
        !is_input(plan_inputs(levels, plan), plan.level + 1, t),
        t.rows().len() > 0,
        if before {
            key_lt(t.rows().last().0, smallest)
        } else {
            key_lt(largest, t.rows()[0].0)
        },
        plan_inputs(levels, plan).contains(x),
    ensures
        if before {
            below(t, x.table)
        } else {
            below(x.table, t)
        },
{
    broadcast use group_key_order;

    let p = plan.level as int;
    let metas = levels_metas(levels);
    let found = overlapping_files(metas, (p + 1) as u32, smallest, largest);
    lemma_plan_members(levels, plan);
    lemma_member_wf(levels, p + 1, t);
    lemma_member_wf(levels, x.level, x.table);
    if x.level == p {
        assert forall|a: Seq<char>, b: Seq<char>| #[trigger] t.holds(a) && #[trigger] x.table.holds(b) implies if before {
            key_lt(a, b)
        } else {
            key_lt(b, a)
        } by {
            lemma_key_in_range(t, a);
            lemma_key_in_range(x.table, b);
        }
    } else {
        lemma_metas(levels);
        lemma_overlapping(metas, (p + 1) as u32, smallest, largest);
        law_descending_ids(found);
        assert(x.table != t);
        assert(apart(t, x.table));
        assert(plan.overlaps.contains(x.table.id));
        let k = choose|k: int| 0 <= k < found.len() && found[k].id == x.table.id;
        assert(found.contains(found[k]));
        let (l, s) = choose|l: int, s: TableState| #[trigger] is_meta(levels, l, s, found[k]);
        assert(l == p + 1);
        lemma_same_table(levels, p + 1, x.table, s);
        let rows = x.table.rows();
        let own = t.rows();
        assert(own[0].0 == own[0].0 && has_key(own, own[0].0));
        assert(has_key(own, own[own.len() - 1].0));
        assert(has_key(rows, rows[0].0));
        assert(has_key(rows, rows[rows.len() - 1].0));
        lemma_key_in_range(t, own[0].0);
        lemma_key_in_range(x.table, rows[0].0);
        assert(t.holds(own[0].0) && t.holds(own.last().0));
        assert(x.table.holds(rows[0].0) && x.table.holds(rows.last().0));
        if before && !below(t, x.table) {
            assert(below(x.table, t));
            assert(key_lt(rows.last().0, own.last().0));
        }
        if !before && !below(x.table, t) {
            assert(below(t, x.table));
            assert(key_lt(own[0].0, rows[0].0));
        }
    }
}

/// A merge that is due keeps the tables of each level below level 0 apart.
pub proof fn law_compaction_keeps_tables_apart(
    levels: Levels,
    next_id: int,
    config: LevelConfig,
    plan: Plan,
    target_file_size: int,
)
    requires
        config.wf(),
        0 <= next_id,
        levels_ok(levels, next_id),
        level_count_ok(levels),
        plan_for(levels_metas(levels), config) == Some(plan),
        job_fits(plan_job(levels, plan, target_file_size), next_id),
        levels_apart(levels),
    ensures
        levels_apart(levels_after(levels, plan_job(levels, plan, target_file_size), next_id)),
{
    let job = plan_job(levels, plan, target_file_size);
    let inputs = job.inputs;
    let outputs = job_outputs(job, next_id);
    let n = job_groups(job).len() as int;
    let after = levels_after(levels, job, next_id);
    let output = job.output_level;
    lemma_plan_is_leveled(levels, config, plan);
    assert(job_groups(job).take(n) =~= job_groups(job));
    lemma_fresh_outputs(job, next_id, n);
    lemma_job_outputs(job, next_id);
    assert(outputs.take(n) =~= outputs);
    lemma_merged_levels(levels, inputs, output, outputs, next_id, next_id + n);
    assert forall|l: int, a: TableState, b: TableState|
        l >= 1 && #[trigger] level_at(after, l).contains(a) && #[trigger] level_at(after, l).contains(b) && a
            != b implies apart(a, b) by {
        assert(after[l].contains(a) <==> (level_at(levels, l).contains(a) && !is_input(inputs, l, a)) || (l == output
            && outputs.contains(a)));
        assert(after[l].contains(b) <==> (level_at(levels, l).contains(b) && !is_input(inputs, l, b)) || (l == output
            && outputs.contains(b)));
        let old_a = level_at(levels, l).contains(a) && !is_input(inputs, l, a);
        let old_b = level_at(levels, l).contains(b) && !is_input(inputs, l, b);
        if old_a && !old_b {
            lemma_output_apart(levels, next_id, config, plan, target_file_size, a, b);
        } else if old_b && !old_a {
            lemma_output_apart(levels, next_id, config, plan, target_file_size, b, a);
        } else if !old_a && !old_b {
            lemma_outputs_apart(job, next_id, a, b);
        }
    }
}

proof fn lemma_output_apart(
    levels: Levels,
    next_id: int,
    config: LevelConfig,
    plan: Plan,
    target_file_size: int,
    t: TableState,
    o: TableState,
)
    requires
        config.wf(),
        0 <= next_id,
        levels_ok(levels, next_id),
        level_count_ok(levels),
        plan_for(levels_metas(levels), config) == Some(plan),
        job_fits(plan_job(levels, plan, target_file_size), next_id),
        levels_apart(levels),
        level_at(levels, plan.level + 1).contains(t),
        !is_input(plan_inputs(levels, plan), plan.level + 1, t),
        job_outputs(plan_job(levels, plan, target_file_size), next_id).contains(o),
    ensures
        apart(t, o),
{
    let job = plan_job(levels, plan, target_file_size);
    let inputs = job.inputs;
    lemma_plan_is_leveled(levels, config, plan);
    lemma_job_outputs(job, next_id);
    let before = lemma_stays_outside(levels, config, plan, t);
    assert forall|a: Seq<char>, b: Seq<char>| #[trigger] t.holds(a) && #[trigger] o.holds(b) implies if before {
        key_lt(a, b)
    } else {
        key_lt(b, a)
    } by {
        assert(input_holds(inputs, b));
        let i = choose|i: int| 0 <= i < inputs.len() && (#[trigger] inputs[i]).table.holds(b);
        assert(inputs.contains(inputs[i]));
    }
}

/// A merge of all tables leaves tables that do not overlap.
pub proof fn law_full_compaction_leaves_tables_apart(levels: Levels, next_id: int)
    requires
        0 <= next_id,
        levels_ok(levels, next_id),
        level_count_ok(levels),
        job_fits(full_job(levels), next_id),
    ensures
        levels_apart(levels_after(levels, full_job(levels), next_id)),
{
    let job = full_job(levels);
    let inputs = job.inputs;
    let outputs = job_outputs(job, next_id);
    let n = job_groups(job).len() as int;
    let after = levels_after(levels, job, next_id);
    lemma_full_job(levels);
    assert(job_groups(job).take(n) =~= job_groups(job));
    lemma_fresh_outputs(job, next_id, n);
    assert(outputs.take(n) =~= outputs);
    lemma_merged_levels(levels, inputs, 1, outputs, next_id, next_id + n);
    assert forall|l: int, a: TableState, b: TableState|
        l >= 1 && #[trigger] level_at(after, l).contains(a) && #[trigger] level_at(after, l).contains(b) && a
            != b implies apart(a, b) by {
        assert(after[l].contains(a) <==> (level_at(levels, l).contains(a) && !is_input(inputs, l, a)) || (l == 1
            && outputs.contains(a)));
        assert(after[l].contains(b) <==> (level_at(levels, l).contains(b) && !is_input(inputs, l, b)) || (l == 1
            && outputs.contains(b)));
        lemma_all_taken(levels, l, a);
        lemma_all_taken(levels, l, b);
        lemma_outputs_apart(job, next_id, a, b);
    }
}

proof fn lemma_all_taken(levels: Levels, l: int, t: TableState)
    ensures
        level_at(levels, l).contains(t) ==> is_input(crate::merge::all_placed(levels), l, t),
{
    if level_at(levels, l).contains(t) {
        crate::merge::lemma_all_placed(levels);
        assert(crate::merge::all_placed(levels).contains(Placed { level: l, table: t }));
    }
}

/// Writing the memtable to a table of level 0 keeps the tables of the other levels apart.
pub proof fn law_flush_keeps_tables_apart(levels: Levels, table: TableState)
    requires
        1 <= levels.len(),
        levels_apart(levels),
    ensures
        levels_apart(levels_with_flushed(levels, table)),
{
    let after = levels_with_flushed(levels, table);
    assert forall|l: int| l >= 1 implies #[trigger] level_at(after, l) == level_at(levels, l) by {}
}

}
