//! Merging tables: what a job reads, what it writes, and what the levels are afterwards.
use crate::compaction::{
    at_level, deepest_level, descending_ids, largest_key, law_descending_ids, oldest_file, overlapping_files, overlaps,
    plan_for, plan_from, plan_l0, plan_level, smallest_key, LevelConfig, Meta, Plan,
};
use crate::keys::{group_key_order, key_le, key_lt};
use crate::levels::{
    agreeing, ascending, complete_outputs, harmless, input_holds, inputs_wf, is_input, job_merged, job_rows,
    lemma_added_keeps_agreement, lemma_added_keeps_lookup, lemma_full_merge, lemma_job_winner,
    lemma_leveled_keeps_agreement, lemma_leveled_keeps_value, lemma_leveled_outputs_harmless, lemma_merge_of_all,
    lemma_table_sorted, level_at, level_holds, leveled, levels_get, levels_wf, merged_get, replaced, sound_outputs,
    takes_all, value_of, Job, Levels, Placed, TableState,
};
use crate::names::table_name;
use crate::records::{lemma_record_layout, record_len};
use crate::rows::{has_key, index_of_key, lemma_rows_get_at, lemma_visible, lemma_visible_has, rows_get, sorted, Row};
use crate::table::{
    block_start, concat_rows, law_table_roundtrip, lemma_block_rows, lemma_row_in_block, rows_bytes, table_bytes,
    table_len, DEFAULT_BLOCK_SIZE,
};
use vstd::prelude::*;

verus! {

/// Rows cut into groups, one for each file. A row joins the group before it as long as the records
/// of that group then take at most `target` bytes.
pub open spec fn split_rows(rows: Seq<Row>, target: int) -> Seq<Seq<Row>>
    decreases rows.len(),
{
    if rows.len() == 0 {
        Seq::empty()
    } else {
        let before = split_rows(rows.drop_last(), target);
        let row = rows.last();
        if before.len() > 0 && rows_bytes(before.last()).len() + record_len(row) <= target {
            before.update(before.len() - 1, before.last().push(row))
        } else {
            before.push(seq![row])
        }
    }
}

/// Splitting rows keeps them all, in order, and leaves no group empty.
pub proof fn law_split_partitions_rows(rows: Seq<Row>, target: int)
    ensures
        concat_rows(split_rows(rows, target)) == rows,
        forall|i: int| 0 <= i < split_rows(rows, target).len() ==> (#[trigger] split_rows(rows, target)[i]).len() > 0,
        split_rows(rows, target).len() <= rows.len(),
    decreases rows.len(),
{
    if rows.len() > 0 {
        let before = split_rows(rows.drop_last(), target);
        let groups = split_rows(rows, target);
        law_split_partitions_rows(rows.drop_last(), target);
        if groups.len() == before.len() {
            assert(groups.drop_last() =~= before.drop_last());
            assert(concat_rows(groups) =~= concat_rows(before).push(rows.last()));
        } else {
            assert(groups.drop_last() =~= before);
            assert(concat_rows(groups) =~= concat_rows(before).push(rows.last()));
        }
        assert(concat_rows(groups) =~= rows);
        assert forall|i: int| 0 <= i < groups.len() implies (#[trigger] groups[i]).len() > 0 by {
            if i < before.len() {
                assert(before[i].len() > 0);
            }
        }
    } else {
        assert(concat_rows(split_rows(rows, target)) =~= rows);
    }
}

/// The records of a group take at most `target` bytes, unless the group is a single row; and a
/// group is closed only where the row behind it would take it over the target.
pub proof fn law_split_keeps_to_the_target(rows: Seq<Row>, target: int)
    ensures
        forall|i: int|
            0 <= i < split_rows(rows, target).len() ==> (#[trigger] split_rows(rows, target)[i]).len() == 1 || rows_bytes(
                split_rows(rows, target)[i],
            ).len() <= target,
        forall|i: int|
            0 <= i < split_rows(rows, target).len() - 1 ==> rows_bytes(#[trigger] split_rows(rows, target)[i]).len()
                + record_len(split_rows(rows, target)[i + 1][0]) > target,
    decreases rows.len(),
{
    if rows.len() > 0 {
        let before = split_rows(rows.drop_last(), target);
        let groups = split_rows(rows, target);
        let row = rows.last();
        law_split_keeps_to_the_target(rows.drop_last(), target);
        law_split_partitions_rows(rows.drop_last(), target);
        lemma_record_layout(row);
        if groups.len() == before.len() {
            let last = before.last();
            assert(before[before.len() - 1].len() > 0);
            assert(last.push(row).drop_last() =~= last);
            assert(rows_bytes(last.push(row)).len() == rows_bytes(last).len() + record_len(row));
            assert(last.push(row)[0] == last[0]);
        }
        assert forall|i: int| 0 <= i < groups.len() implies (#[trigger] groups[i]).len() == 1 || rows_bytes(
            groups[i],
        ).len() <= target by {
            if i < groups.len() - 1 {
                assert(groups[i] == before[i]);
            }
        }
        assert forall|i: int| 0 <= i < groups.len() - 1 implies rows_bytes(#[trigger] groups[i]).len() + record_len(
            groups[i + 1][0],
        ) > target by {
            assert(groups[i] == before[i]);
            if i + 1 < before.len() {
                assert(groups[i + 1][0] == before[i + 1][0]);
            }
        }
    }
}

/// The table that a group of rows is written to.
pub open spec fn new_table(level: int, id: int, rows: Seq<Row>) -> TableState {
    TableState {
        id: id as u64,
        path: table_name(level as u32, id as u64),
        bytes: table_bytes(rows, DEFAULT_BLOCK_SIZE),
    }
}

/// The tables for the groups, with ids from `next_id` on.
pub open spec fn new_tables(groups: Seq<Seq<Row>>, level: int, next_id: int) -> Seq<TableState> {
    Seq::new(groups.len(), |i: int| new_table(level, next_id + i, groups[i]))
}

/// The groups of rows that a job writes.
pub open spec fn job_groups(job: Job) -> Seq<Seq<Row>> {
    split_rows(job_rows(job), job.target_file_size)
}

pub open spec fn job_outputs(job: Job, next_id: int) -> Seq<TableState> {
    new_tables(job_groups(job), job.output_level, next_id)
}

/// Every group fits in a file.
pub open spec fn groups_fit(groups: Seq<Seq<Row>>) -> bool {
    forall|i: int| 0 <= i < groups.len() ==> table_len(#[trigger] groups[i], DEFAULT_BLOCK_SIZE) <= u32::MAX
}

/// A table that was written holds the rows that were written to it.
pub proof fn lemma_new_table(level: int, id: int, rows: Seq<Row>)
    requires
        sorted(rows),
        table_len(rows, DEFAULT_BLOCK_SIZE) <= u32::MAX,
    ensures
        new_table(level, id, rows).wf(),
        new_table(level, id, rows).rows() == rows,
        new_table(level, id, rows).bytes.len() == table_len(rows, DEFAULT_BLOCK_SIZE),
{
    law_table_roundtrip(rows, DEFAULT_BLOCK_SIZE);
}

/// A group of sorted rows is sorted, and stores what all rows store.
pub proof fn lemma_group(groups: Seq<Seq<Row>>, i: int)
    requires
        sorted(concat_rows(groups)),
        0 <= i < groups.len(),
    ensures
        sorted(groups[i]),
        forall|key: Seq<char>| #[trigger] has_key(groups[i], key) ==> has_key(concat_rows(groups), key) && rows_get(
            groups[i],
            key,
        ) == rows_get(concat_rows(groups), key),
{
    let rows = concat_rows(groups);
    lemma_block_rows(groups, i);
    let start = block_start(groups, i);
    crate::rows::lemma_sorted_subrange(rows, start, start + groups[i].len());
    assert forall|key: Seq<char>| #[trigger] has_key(groups[i], key) implies has_key(rows, key) && rows_get(
        groups[i],
        key,
    ) == rows_get(rows, key) by {
        let j = index_of_key(groups[i], key);
        assert(rows.subrange(start, start + groups[i].len())[j] == rows[start + j]);
        lemma_rows_get_at(groups[i], j);
        lemma_rows_get_at(rows, start + j);
    }
}

/// Every key of the rows is in a group.
proof fn lemma_key_in_group(groups: Seq<Seq<Row>>, key: Seq<char>) -> (i: int)
    requires
        has_key(concat_rows(groups), key),
    ensures
        0 <= i < groups.len(),
        has_key(groups[i], key),
{
    let rows = concat_rows(groups);
    let p = index_of_key(rows, key);
    let b = lemma_row_in_block(groups, p);
    lemma_block_rows(groups, b);
    let start = block_start(groups, b);
    assert(rows.subrange(start, start + groups[b].len())[p - start] == rows[p]);
    assert(groups[b][p - start].0 == key);
    b
}

/// The outputs of a job are tables that hold what the merge stores.
pub proof fn lemma_job_outputs(job: Job, next_id: int)
    requires
        inputs_wf(job.inputs),
        groups_fit(job_groups(job)),
    ensures
        sorted(job_rows(job)),
        sound_outputs(job.inputs, job_outputs(job, next_id)),
        complete_outputs(job.inputs, job.drop_tombstones, job_outputs(job, next_id)),
        forall|i: int| 0 <= i < job_groups(job).len() ==> (#[trigger] job_outputs(job, next_id)[i]).wf() && job_outputs(
            job,
            next_id,
        )[i].rows() == job_groups(job)[i],
{
    let rows = job_rows(job);
    let groups = job_groups(job);
    let outputs = job_outputs(job, next_id);
    let merged = job_merged(job);
    let keep = !job.drop_tombstones;
    let _ = lemma_job_winner(job.inputs, Seq::empty());
    lemma_visible(merged, keep);
    law_split_partitions_rows(rows, job.target_file_size);
    assert forall|i: int| 0 <= i < groups.len() implies (#[trigger] outputs[i]).wf() && outputs[i].rows() == groups[i] by {
        lemma_group(groups, i);
        assert(table_len(groups[i], DEFAULT_BLOCK_SIZE) <= u32::MAX);
        lemma_new_table(job.output_level, next_id + i, groups[i]);
    }
    assert forall|o: TableState, key: Seq<char>| outputs.contains(o) && #[trigger] o.holds(key) implies input_holds(
        job.inputs,
        key,
    ) && o.get(key) == merged_get(job.inputs, key) by {
        let i = choose|i: int| 0 <= i < outputs.len() && outputs[i] == o;
        assert(outputs[i].rows() == groups[i]);
        lemma_group(groups, i);
        assert(has_key(groups[i], key));
        let q = index_of_key(rows, key);
        lemma_rows_get_at(rows, q);
        assert(has_key(merged, rows[q].0));
        let _ = lemma_job_winner(job.inputs, key);
    }
    assert forall|key: Seq<char>|
        input_holds(job.inputs, key) && !(job.drop_tombstones && #[trigger] merged_get(job.inputs, key) == Some(
            None::<Seq<char>>,
        )) implies level_holds(outputs, key) by {
        let _ = lemma_job_winner(job.inputs, key);
        let p = index_of_key(merged, key);
        lemma_rows_get_at(merged, p);
        let q = lemma_visible_has(merged, keep, p);
        assert(rows[q].0 == key);
        assert(has_key(rows, key));
        let i = lemma_key_in_group(groups, key);
        assert(outputs[i].rows() == groups[i]);
        assert(outputs[i].holds(key));
    }
}

pub open spec fn has_input_id(inputs: Seq<Placed>, id: u64) -> bool {
    exists|i: int| 0 <= i < inputs.len() && (#[trigger] inputs[i]).table.id == id
}

/// The tables whose id none of the inputs has.
pub open spec fn without(files: Seq<TableState>, inputs: Seq<Placed>) -> Seq<TableState>
    decreases files.len(),
{
    if files.len() == 0 {
        Seq::empty()
    } else {
        let before = without(files.drop_last(), inputs);
        if has_input_id(inputs, files.last().id) {
            before
        } else {
            before.push(files.last())
        }
    }
}

/// Tables whose ids do not descend, with one more behind those whose id is not larger.
pub open spec fn insert_by_id(files: Seq<TableState>, table: TableState) -> Seq<TableState>
    decreases files.len(),
{
    if files.len() == 0 {
        seq![table]
    } else if files.last().id > table.id {
        insert_by_id(files.drop_last(), table).push(files.last())
    } else {
        files.push(table)
    }
}

/// The tables ordered by id.
pub open spec fn sorted_by_id(files: Seq<TableState>) -> Seq<TableState>
    decreases files.len(),
{
    if files.len() == 0 {
        Seq::empty()
    } else {
        insert_by_id(sorted_by_id(files.drop_last()), files.last())
    }
}

/// The levels without the inputs and with the outputs.
pub open spec fn merged_levels(levels: Levels, inputs: Seq<Placed>, output: int, outputs: Seq<TableState>) -> Levels {
    let len = if levels.len() > output {
        levels.len() as int
    } else {
        output + 1
    };
    Seq::new(
        len as nat,
        |l: int|
            {
                let kept = without(level_at(levels, l), inputs);
                if l == output {
                    sorted_by_id(kept + outputs)
                } else {
                    kept
                }
            },
    )
}

/// No id is there twice, whatever the level.
pub open spec fn unique_ids(levels: Levels) -> bool {
    forall|l: int, i: int, m: int, j: int|
        #![trigger levels[l][i], levels[m][j]]
        0 <= l < levels.len() && 0 <= i < levels[l].len() && 0 <= m < levels.len() && 0 <= j < levels[m].len()
            && levels[l][i].id == levels[m][j].id ==> l == m && i == j
}

pub open spec fn all_ascending(levels: Levels) -> bool {
    forall|l: int| 0 <= l < levels.len() ==> ascending(#[trigger] levels[l])
}

/// Every id is below `next_id`.
pub open spec fn ids_below(levels: Levels, next_id: int) -> bool {
    forall|l: int, i: int| 0 <= l < levels.len() && 0 <= i < levels[l].len() ==> (#[trigger] levels[l][i]).id < next_id
}

/// What every operation keeps of the levels.
pub open spec fn levels_ok(levels: Levels, next_id: int) -> bool {
    &&& levels_wf(levels)
    &&& unique_ids(levels)
    &&& all_ascending(levels)
    &&& ids_below(levels, next_id)
    &&& agreeing(levels)
    &&& 1 <= levels.len()
}

/// Every input is a table of the level at which it is placed.
pub open spec fn inputs_from(levels: Levels, inputs: Seq<Placed>) -> bool {
    forall|x: Placed| #[trigger]
        inputs.contains(x) ==> 0 <= x.level < levels.len() && level_at(levels, x.level).contains(x.table)
}

proof fn lemma_without(files: Seq<TableState>, inputs: Seq<Placed>)
    ensures
        forall|t: TableState| #[trigger]
            without(files, inputs).contains(t) <==> files.contains(t) && !has_input_id(inputs, t.id),
        ascending(files) ==> ascending(without(files, inputs)),
        (forall|t: TableState| #[trigger] files.contains(t) ==> !has_input_id(inputs, t.id)) ==> without(files, inputs)
            == files,
        without(files, inputs).len() <= files.len(),
    decreases files.len(),
{
    let kept = without(files, inputs);
    if files.len() > 0 {
        let before = files.drop_last();
        let last = files.last();
        let kept_before = without(before, inputs);
        lemma_without(before, inputs);
        assert(files =~= before.push(last));
        assert forall|t: TableState| #[trigger] kept.contains(t) <==> files.contains(t) && !has_input_id(inputs, t.id) by {
            if kept.contains(t) {
                let k = choose|k: int| 0 <= k < kept.len() && kept[k] == t;
                if k < kept_before.len() {
                    assert(kept_before[k] == t);
                    assert(kept_before.contains(t));
                    let m = choose|m: int| 0 <= m < before.len() && before[m] == t;
                    assert(files[m] == t);
                } else {
                    assert(files[files.len() - 1] == t);
                }
            }
            if files.contains(t) && !has_input_id(inputs, t.id) {
                let m = choose|m: int| 0 <= m < files.len() && files[m] == t;
                if m < before.len() {
                    assert(before[m] == t);
                    assert(kept_before.contains(t));
                    let k = choose|k: int| 0 <= k < kept_before.len() && kept_before[k] == t;
                    assert(kept[k] == t);
                } else {
                    assert(kept[kept.len() - 1] == t);
                }
            }
        }
        if ascending(files) {
            assert(ascending(before)) by {
                assert forall|i: int, j: int| 0 <= i < j < before.len() implies (#[trigger] before[i]).id < (
                #[trigger] before[j]).id by {
                    assert(files[i].id < files[j].id);
                }
            }
            assert forall|i: int, j: int| 0 <= i < j < kept.len() implies (#[trigger] kept[i]).id < (
            #[trigger] kept[j]).id by {
                assert(kept[i] == kept_before[i]);
                if j < kept_before.len() {
                    assert(kept[j] == kept_before[j]);
                } else {
                    assert(kept_before.contains(kept_before[i]));
                    let m = choose|m: int| 0 <= m < before.len() && before[m] == kept_before[i];
                    assert(files[m].id < files[files.len() - 1].id);
                }
            }
        }
        if forall|t: TableState| #[trigger] files.contains(t) ==> !has_input_id(inputs, t.id) {
            assert forall|t: TableState| #[trigger] before.contains(t) implies !has_input_id(inputs, t.id) by {
                let m = choose|m: int| 0 <= m < before.len() && before[m] == t;
                assert(files[m] == t);
                assert(files.contains(t));
            }
            assert(files[files.len() - 1] == last);
            assert(files.contains(last));
            assert(kept =~= files);
        }
    } else {
        assert(kept =~= files);
        assert(forall|t: TableState| !#[trigger] kept.contains(t));
    }
}

/// Tables that ascend are ordered already.
pub proof fn lemma_sorted_by_id(files: Seq<TableState>)
    requires
        ascending(files),
    ensures
        sorted_by_id(files) == files,
    decreases files.len(),
{
    if files.len() > 0 {
        let before = files.drop_last();
        assert(ascending(before)) by {
            assert forall|i: int, j: int| 0 <= i < j < before.len() implies (#[trigger] before[i]).id < (
            #[trigger] before[j]).id by {
                assert(files[i].id < files[j].id);
            }
        }
        lemma_sorted_by_id(before);
        if before.len() > 0 {
            assert(files[files.len() - 2].id < files[files.len() - 1].id);
        }
        assert(before.push(files.last()) =~= files);
        if before.len() == 0 {
            assert(seq![files.last()] =~= files);
        }
    } else {
        assert(files =~= Seq::<TableState>::empty());
    }
}

/// An input is recognised by its id.
proof fn lemma_input_ids(levels: Levels, inputs: Seq<Placed>, l: int, t: TableState)
    requires
        unique_ids(levels),
        inputs_from(levels, inputs),
        level_at(levels, l).contains(t),
    ensures
        has_input_id(inputs, t.id) <==> is_input(inputs, l, t),
{
    let ti = choose|ti: int| 0 <= ti < levels[l].len() && levels[l][ti] == t;
    if has_input_id(inputs, t.id) {
        let i = choose|i: int| 0 <= i < inputs.len() && (#[trigger] inputs[i]).table.id == t.id;
        assert(inputs.contains(inputs[i]));
        let m = inputs[i].level;
        let j = choose|j: int| 0 <= j < levels[m].len() && levels[m][j] == inputs[i].table;
        assert(levels[l][ti].id == levels[m][j].id);
        assert(inputs[i] == (Placed { level: l, table: t }));
    }
    if is_input(inputs, l, t) {
        let i = choose|i: int| 0 <= i < inputs.len() && inputs[i] == (Placed { level: l, table: t });
        assert(inputs[i].table.id == t.id);
    }
}

/// Tables with new ids that ascend.
pub open spec fn fresh_outputs(outputs: Seq<TableState>, next_id: int) -> bool {
    &&& ascending(outputs)
    &&& forall|i: int| 0 <= i < outputs.len() ==> (#[trigger] outputs[i]).wf() && outputs[i].id >= next_id
}

/// The levels after a merge are those before it, without the inputs and with the outputs.
pub proof fn lemma_merged_levels(
    levels: Levels,
    inputs: Seq<Placed>,
    output: int,
    outputs: Seq<TableState>,
    next_id: int,
    after_id: int,
)
    requires
        levels_wf(levels),
        unique_ids(levels),
        all_ascending(levels),
        ids_below(levels, next_id),
        inputs_from(levels, inputs),
        output >= 0,
        fresh_outputs(outputs, next_id),
        next_id <= after_id,
        forall|i: int| 0 <= i < outputs.len() ==> (#[trigger] outputs[i]).id < after_id,
    ensures
        ({
            let after = merged_levels(levels, inputs, output, outputs);
            &&& replaced(levels, inputs, output, outputs, after)
            &&& levels_wf(after)
            &&& unique_ids(after)
            &&& all_ascending(after)
            &&& ids_below(after, after_id)
            &&& after[output] == without(level_at(levels, output), inputs) + outputs
        }),
{
    let after = merged_levels(levels, inputs, output, outputs);
    assert forall|l: int| 0 <= l < after.len() implies ascending(#[trigger] after[l]) && after[l] == without(
        level_at(levels, l),
        inputs,
    ) + (if l == output {
        outputs
    } else {
        Seq::empty()
    }) by {
        let files = level_at(levels, l);
        let kept = without(files, inputs);
        lemma_without(files, inputs);
        assert(ascending(files));
        assert(kept + Seq::<TableState>::empty() =~= kept);
        if l == output {
            let all = kept + outputs;
            assert forall|i: int, j: int| 0 <= i < j < all.len() implies (#[trigger] all[i]).id < (
            #[trigger] all[j]).id by {
                if j < kept.len() {
                    assert(all[i] == kept[i] && all[j] == kept[j]);
                } else if i >= kept.len() {
                    assert(all[i] == outputs[i - kept.len()] && all[j] == outputs[j - kept.len()]);
                } else {
                    assert(kept.contains(kept[i]));
                    let m = choose|m: int| 0 <= m < files.len() && files[m] == kept[i];
                    assert(levels[l][m].id < next_id);
                    assert(all[j] == outputs[j - kept.len()]);
                }
            }
            lemma_sorted_by_id(all);
        }
    }
    assert forall|l: int, t: TableState| 0 <= l < after.len() implies (#[trigger] after[l].contains(t) <==> (level_at(
        levels,
        l,
    ).contains(t) && !is_input(inputs, l, t)) || (l == output && outputs.contains(t))) by {
        let files = level_at(levels, l);
        let kept = without(files, inputs);
        let added = if l == output {
            outputs
        } else {
            Seq::empty()
        };
        lemma_without(files, inputs);
        assert(after[l] == kept + added);
        if files.contains(t) {
            lemma_input_ids(levels, inputs, l, t);
        }
        if after[l].contains(t) {
            let k = choose|k: int| 0 <= k < after[l].len() && after[l][k] == t;
            if k < kept.len() {
                assert(kept[k] == t);
                assert(kept.contains(t));
            } else {
                assert(added[k - kept.len()] == t);
            }
        }
        if kept.contains(t) {
            let k = choose|k: int| 0 <= k < kept.len() && kept[k] == t;
            assert(after[l][k] == t);
        }
        if l == output && outputs.contains(t) {
            let k = choose|k: int| 0 <= k < outputs.len() && outputs[k] == t;
            assert(after[l][kept.len() + k] == t);
        }
    }
    assert forall|l: int|
        0 <= l < after.len() && l != output && (forall|x: Placed| #[trigger] inputs.contains(x) ==> x.level != l)
            implies #[trigger] after[l] == level_at(levels, l) by {
        let files = level_at(levels, l);
        lemma_without(files, inputs);
        assert forall|t: TableState| #[trigger] files.contains(t) implies !has_input_id(inputs, t.id) by {
            lemma_input_ids(levels, inputs, l, t);
        }
        assert(after[l] =~= without(files, inputs));
    }
    assert forall|l: int, i: int| 0 <= l < after.len() && 0 <= i < after[l].len() implies (#[trigger] after[l][i]).wf()
        && after[l][i].id < after_id by {
        let t = after[l][i];
        assert(after[l].contains(t));
        if level_at(levels, l).contains(t) {
            let m = choose|m: int| 0 <= m < levels[l].len() && levels[l][m] == t;
            assert(levels[l][m].wf());
            assert(levels[l][m].id < next_id);
        } else {
            let k = choose|k: int| 0 <= k < outputs.len() && outputs[k] == t;
            assert(outputs[k].wf());
        }
    }
    assert forall|l: int, i: int, m: int, j: int|
        #![trigger after[l][i], after[m][j]]
        0 <= l < after.len() && 0 <= i < after[l].len() && 0 <= m < after.len() && 0 <= j < after[m].len()
            && after[l][i].id == after[m][j].id implies l == m && i == j by {
        let a = after[l][i];
        let b = after[m][j];
        assert(after[l].contains(a));
        assert(after[m].contains(b));
        if level_at(levels, l).contains(a) && level_at(levels, m).contains(b) {
            let ai = choose|ai: int| 0 <= ai < levels[l].len() && levels[l][ai] == a;
            let bi = choose|bi: int| 0 <= bi < levels[m].len() && levels[m][bi] == b;
            assert(levels[l][ai].id == levels[m][bi].id);
        } else if level_at(levels, l).contains(a) {
            let ai = choose|ai: int| 0 <= ai < levels[l].len() && levels[l][ai] == a;
            assert(levels[l][ai].id < next_id);
            let k = choose|k: int| 0 <= k < outputs.len() && outputs[k] == b;
            assert(outputs[k].id >= next_id);
        } else if level_at(levels, m).contains(b) {
            let bi = choose|bi: int| 0 <= bi < levels[m].len() && levels[m][bi] == b;
            assert(levels[m][bi].id < next_id);
            let k = choose|k: int| 0 <= k < outputs.len() && outputs[k] == a;
            assert(outputs[k].id >= next_id);
        }
        assert(l == m);
        assert(ascending(after[l]));
        if i < j {
            assert(after[l][i].id < after[l][j].id);
        } else if j < i {
            assert(after[l][j].id < after[l][i].id);
        }
    }
}

/// What the choice of a compaction depends on, of a table that holds something.
pub open spec fn meta_of(table: TableState, level: int) -> Meta {
    Meta {
        id: table.id,
        level: level as u32,
        smallest: table.rows()[0].0,
        largest: table.rows().last().0,
        size: table.bytes.len() as int,
    }
}

pub open spec fn level_metas(files: Seq<TableState>, level: int) -> Seq<Meta>
    decreases files.len(),
{
    if files.len() == 0 {
        Seq::empty()
    } else {
        let before = level_metas(files.drop_last(), level);
        if files.last().rows().len() > 0 {
            before.push(meta_of(files.last(), level))
        } else {
            before
        }
    }
}

/// The tables that hold something, level by level.
pub open spec fn levels_metas(levels: Levels) -> Seq<Meta>
    decreases levels.len(),
{
    if levels.len() == 0 {
        Seq::empty()
    } else {
        levels_metas(levels.drop_last()) + level_metas(levels.last(), levels.len() - 1)
    }
}

/// The tables of a level that have one of the ids.
pub open spec fn chosen(files: Seq<TableState>, level: int, ids: Seq<u64>) -> Seq<Placed>
    decreases files.len(),
{
    if files.len() == 0 {
        Seq::empty()
    } else {
        let before = chosen(files.drop_last(), level, ids);
        if ids.contains(files.last().id) {
            before.push(Placed { level, table: files.last() })
        } else {
            before
        }
    }
}

/// The tables that a plan names.
pub open spec fn plan_inputs(levels: Levels, plan: Plan) -> Seq<Placed> {
    chosen(level_at(levels, plan.level as int), plan.level as int, plan.inputs) + chosen(
        level_at(levels, plan.level + 1),
        plan.level + 1,
        plan.overlaps,
    )
}

/// The merge for a plan.
pub open spec fn plan_job(levels: Levels, plan: Plan, target_file_size: int) -> Job {
    Job {
        inputs: plan_inputs(levels, plan),
        output_level: plan.level + 1,
        drop_tombstones: plan.drop_tombstones,
        target_file_size,
    }
}

/// All tables of the levels.
pub open spec fn all_placed(levels: Levels) -> Seq<Placed>
    decreases levels.len(),
{
    if levels.len() == 0 {
        Seq::empty()
    } else {
        all_placed(levels.drop_last()) + Seq::new(
            levels.last().len(),
            |i: int| Placed { level: levels.len() - 1, table: levels.last()[i] },
        )
    }
}

/// The merge of all tables into level 1.
pub open spec fn full_job(levels: Levels) -> Job {
    Job { inputs: all_placed(levels), output_level: 1, drop_tombstones: true, target_file_size: usize::MAX as int }
}

proof fn lemma_level_metas(files: Seq<TableState>, level: int)
    ensures
        forall|m: Meta| #[trigger] level_metas(files, level).contains(m) <==> exists|i: int|
            0 <= i < files.len() && (#[trigger] files[i]).rows().len() > 0 && m == meta_of(files[i], level),
    decreases files.len(),
{
    let metas = level_metas(files, level);
    if files.len() > 0 {
        let before = files.drop_last();
        let earlier = level_metas(before, level);
        lemma_level_metas(before, level);
        assert forall|m: Meta| #[trigger] metas.contains(m) <==> exists|i: int|
            0 <= i < files.len() && (#[trigger] files[i]).rows().len() > 0 && m == meta_of(files[i], level) by {
            if metas.contains(m) {
                let k = choose|k: int| 0 <= k < metas.len() && metas[k] == m;
                if k < earlier.len() {
                    assert(earlier[k] == m);
                    assert(earlier.contains(m));
                    let i = choose|i: int|
                        0 <= i < before.len() && (#[trigger] before[i]).rows().len() > 0 && m == meta_of(before[i], level);
                    assert(files[i] == before[i]);
                } else {
                    assert(files[files.len() - 1] == files.last());
                }
            }
            if exists|i: int|
                0 <= i < files.len() && (#[trigger] files[i]).rows().len() > 0 && m == meta_of(files[i], level) {
                let i = choose|i: int|
                    0 <= i < files.len() && (#[trigger] files[i]).rows().len() > 0 && m == meta_of(files[i], level);
                if i < before.len() {
                    assert(before[i] == files[i]);
                    assert(earlier.contains(m));
                    let k = choose|k: int| 0 <= k < earlier.len() && earlier[k] == m;
                    assert(metas[k] == m);
                } else {
                    assert(metas[metas.len() - 1] == m);
                }
            }
        }
    } else {
        assert(forall|m: Meta| !#[trigger] metas.contains(m));
    }
}

/// A table that holds something.
pub open spec fn is_meta(levels: Levels, l: int, t: TableState, m: Meta) -> bool {
    0 <= l < levels.len() && levels[l].contains(t) && t.rows().len() > 0 && m == meta_of(t, l)
}

pub proof fn lemma_metas(levels: Levels)
    ensures
        forall|m: Meta| #[trigger] levels_metas(levels).contains(m) ==> exists|l: int, t: TableState| #[trigger]
            is_meta(levels, l, t, m),
        forall|l: int, t: TableState, m: Meta| #[trigger] is_meta(levels, l, t, m) ==> levels_metas(levels).contains(m),
    decreases levels.len(),
{
    let metas = levels_metas(levels);
    if levels.len() > 0 {
        let before = levels.drop_last();
        let earlier = levels_metas(before);
        let last = levels.len() - 1;
        let own = level_metas(levels.last(), last);
        lemma_metas(before);
        lemma_level_metas(levels.last(), last);
        assert forall|m: Meta| #[trigger] metas.contains(m) implies exists|l: int, t: TableState| #[trigger]
            is_meta(levels, l, t, m) by {
            let k = choose|k: int| 0 <= k < metas.len() && metas[k] == m;
            if k < earlier.len() {
                assert(earlier[k] == m);
                assert(earlier.contains(m));
                let (l, t) = choose|l: int, t: TableState| #[trigger] is_meta(before, l, t, m);
                assert(levels[l] == before[l]);
                assert(is_meta(levels, l, t, m));
            } else {
                assert(own[k - earlier.len()] == m);
                assert(own.contains(m));
                let i = choose|i: int|
                    0 <= i < levels.last().len() && (#[trigger] levels.last()[i]).rows().len() > 0 && m == meta_of(
                        levels.last()[i],
                        last,
                    );
                assert(levels[last].contains(levels.last()[i]));
                assert(is_meta(levels, last, levels.last()[i], m));
            }
        }
        assert forall|l: int, t: TableState, m: Meta| #[trigger] is_meta(levels, l, t, m) implies metas.contains(m) by {
            if l < last {
                assert(levels[l] == before[l]);
                assert(is_meta(before, l, t, m));
                let k = choose|k: int| 0 <= k < earlier.len() && earlier[k] == m;
                assert(metas[k] == m);
            } else {
                let i = choose|i: int| 0 <= i < levels[l].len() && levels[l][i] == t;
                assert(levels.last()[i].rows().len() > 0);
                assert(own.contains(m));
                let k = choose|k: int| 0 <= k < own.len() && own[k] == m;
                assert(metas[earlier.len() + k] == m);
            }
        }
    } else {
        assert(forall|m: Meta| !#[trigger] metas.contains(m));
    }
}

pub proof fn lemma_at_level(metas: Seq<Meta>, level: u32)
    ensures
        forall|m: Meta| #[trigger] at_level(metas, level).contains(m) <==> metas.contains(m) && m.level == level,
    decreases metas.len(),
{
    let found = at_level(metas, level);
    if metas.len() > 0 {
        let before = metas.drop_last();
        let earlier = at_level(before, level);
        lemma_at_level(before, level);
        assert forall|m: Meta| #[trigger] found.contains(m) <==> metas.contains(m) && m.level == level by {
            if found.contains(m) {
                let k = choose|k: int| 0 <= k < found.len() && found[k] == m;
                if k < earlier.len() {
                    assert(earlier[k] == m);
                    assert(earlier.contains(m));
                    let i = choose|i: int| 0 <= i < before.len() && before[i] == m;
                    assert(metas[i] == m);
                } else {
                    assert(metas[metas.len() - 1] == m);
                }
            }
            if metas.contains(m) && m.level == level {
                let i = choose|i: int| 0 <= i < metas.len() && metas[i] == m;
                if i < before.len() {
                    assert(before[i] == m);
                    assert(earlier.contains(m));
                    let k = choose|k: int| 0 <= k < earlier.len() && earlier[k] == m;
                    assert(found[k] == m);
                } else {
                    assert(found[found.len() - 1] == m);
                }
            }
        }
    } else {
        assert(forall|m: Meta| !#[trigger] found.contains(m));
        assert(forall|m: Meta| !#[trigger] metas.contains(m));
    }
}

pub proof fn lemma_overlapping(metas: Seq<Meta>, level: u32, smallest: Seq<char>, largest: Seq<char>)
    ensures
        forall|m: Meta| #[trigger] overlapping_files(metas, level, smallest, largest).contains(m) <==> metas.contains(m)
            && overlaps(m, level, smallest, largest),
    decreases metas.len(),
{
    let found = overlapping_files(metas, level, smallest, largest);
    if metas.len() > 0 {
        let before = metas.drop_last();
        let earlier = overlapping_files(before, level, smallest, largest);
        lemma_overlapping(before, level, smallest, largest);
        assert forall|m: Meta| #[trigger] found.contains(m) <==> metas.contains(m) && overlaps(
            m,
            level,
            smallest,
            largest,
        ) by {
            if found.contains(m) {
                let k = choose|k: int| 0 <= k < found.len() && found[k] == m;
                if k < earlier.len() {
                    assert(earlier[k] == m);
                    assert(earlier.contains(m));
                    let i = choose|i: int| 0 <= i < before.len() && before[i] == m;
                    assert(metas[i] == m);
                } else {
                    assert(metas[metas.len() - 1] == m);
                }
            }
            if metas.contains(m) && overlaps(m, level, smallest, largest) {
                let i = choose|i: int| 0 <= i < metas.len() && metas[i] == m;
                if i < before.len() {
                    assert(before[i] == m);
                    assert(earlier.contains(m));
                    let k = choose|k: int| 0 <= k < earlier.len() && earlier[k] == m;
                    assert(found[k] == m);
                } else {
                    assert(found[found.len() - 1] == m);
                }
            }
        }
    } else {
        assert(forall|m: Meta| !#[trigger] found.contains(m));
        assert(forall|m: Meta| !#[trigger] metas.contains(m));
    }
}

/// The union of the key ranges covers every one of them.
pub proof fn lemma_union_range(metas: Seq<Meta>, m: Meta)
    requires
        metas.contains(m),
    ensures
        key_le(smallest_key(metas), m.smallest),
        key_le(m.largest, largest_key(metas)),
    decreases metas.len(),
{
    broadcast use group_key_order;

    let i = choose|i: int| 0 <= i < metas.len() && metas[i] == m;
    if metas.len() > 1 {
        let before = metas.drop_last();
        if i < before.len() {
            assert(before[i] == m);
            lemma_union_range(before, m);
        } else {
            assert(before.contains(before[0]));
        }
    }
}

pub proof fn lemma_deepest(metas: Seq<Meta>, m: Meta)
    requires
        metas.contains(m),
    ensures
        m.level <= deepest_level(metas),
    decreases metas.len(),
{
    let i = choose|i: int| 0 <= i < metas.len() && metas[i] == m;
    if i < metas.len() - 1 {
        assert(metas.drop_last()[i] == m);
        lemma_deepest(metas.drop_last(), m);
    }
}

pub proof fn lemma_oldest(metas: Seq<Meta>)
    requires
        metas.len() > 0,
    ensures
        metas.contains(oldest_file(metas)),
    decreases metas.len(),
{
    if metas.len() > 1 {
        let before = metas.drop_last();
        lemma_oldest(before);
        if oldest_file(metas) != metas.last() {
            let i = choose|i: int| 0 <= i < before.len() && before[i] == oldest_file(before);
            assert(metas[i] == oldest_file(metas));
        } else {
            assert(metas[metas.len() - 1] == oldest_file(metas));
        }
    } else {
        assert(metas[0] == oldest_file(metas));
    }
}

pub proof fn lemma_chosen(files: Seq<TableState>, level: int, ids: Seq<u64>)
    ensures
        forall|x: Placed| #[trigger] chosen(files, level, ids).contains(x) <==> x.level == level && files.contains(x.table)
            && ids.contains(x.table.id),
    decreases files.len(),
{
    let found = chosen(files, level, ids);
    if files.len() > 0 {
        let before = files.drop_last();
        let earlier = chosen(before, level, ids);
        lemma_chosen(before, level, ids);
        assert forall|x: Placed| #[trigger] found.contains(x) <==> x.level == level && files.contains(x.table)
            && ids.contains(x.table.id) by {
            if found.contains(x) {
                let k = choose|k: int| 0 <= k < found.len() && found[k] == x;
                if k < earlier.len() {
                    assert(earlier[k] == x);
                    assert(earlier.contains(x));
                    let i = choose|i: int| 0 <= i < before.len() && before[i] == x.table;
                    assert(files[i] == x.table);
                } else {
                    assert(files[files.len() - 1] == x.table);
                }
            }
            if x.level == level && files.contains(x.table) && ids.contains(x.table.id) {
                let i = choose|i: int| 0 <= i < files.len() && files[i] == x.table;
                if i < before.len() {
                    assert(before[i] == x.table);
                    assert(earlier.contains(x));
                    let k = choose|k: int| 0 <= k < earlier.len() && earlier[k] == x;
                    assert(found[k] == x);
                } else {
                    assert(found[found.len() - 1] == x);
                }
            }
        }
    } else {
        assert(forall|x: Placed| !#[trigger] found.contains(x));
    }
}

pub proof fn lemma_plan_members(levels: Levels, plan: Plan)
    ensures
        forall|x: Placed| #[trigger] plan_inputs(levels, plan).contains(x) <==> (x.level == plan.level && level_at(
            levels,
            x.level,
        ).contains(x.table) && plan.inputs.contains(x.table.id)) || (x.level == plan.level + 1 && level_at(
            levels,
            x.level,
        ).contains(x.table) && plan.overlaps.contains(x.table.id)),
{
    let p = plan.level as int;
    let upper = chosen(level_at(levels, p), p, plan.inputs);
    let lower = chosen(level_at(levels, p + 1), p + 1, plan.overlaps);
    let all = plan_inputs(levels, plan);
    lemma_chosen(level_at(levels, p), p, plan.inputs);
    lemma_chosen(level_at(levels, p + 1), p + 1, plan.overlaps);
    assert forall|x: Placed| #[trigger] all.contains(x) <==> upper.contains(x) || lower.contains(x) by {
        if all.contains(x) {
            let k = choose|k: int| 0 <= k < all.len() && all[k] == x;
            if k < upper.len() {
                assert(upper[k] == x);
            } else {
                assert(lower[k - upper.len()] == x);
            }
        }
        if upper.contains(x) {
            let k = choose|k: int| 0 <= k < upper.len() && upper[k] == x;
            assert(all[k] == x);
        }
        if lower.contains(x) {
            let k = choose|k: int| 0 <= k < lower.len() && lower[k] == x;
            assert(all[upper.len() + k] == x);
        }
    }
}

/// A key of a table lies between its smallest and its largest.
pub proof fn lemma_key_in_range(t: TableState, key: Seq<char>)
    requires
        t.wf(),
        t.holds(key),
    ensures
        t.rows().len() > 0,
        key_le(t.rows()[0].0, key),
        key_le(key, t.rows().last().0),
{
    let rows = t.rows();
    lemma_table_sorted(t);
    let i = index_of_key(rows, key);
    if i > 0 {
        assert(key_lt(rows[0].0, rows[i].0));
    }
    if i < rows.len() - 1 {
        assert(key_lt(rows[i].0, rows[rows.len() - 1].0));
    }
}

pub proof fn lemma_same_table(levels: Levels, l: int, a: TableState, b: TableState)
    requires
        unique_ids(levels),
        0 <= l < levels.len(),
        levels[l].contains(a),
        levels[l].contains(b),
        a.id == b.id,
    ensures
        a == b,
{
    let i = choose|i: int| 0 <= i < levels[l].len() && levels[l][i] == a;
    let j = choose|j: int| 0 <= j < levels[l].len() && levels[l][j] == b;
    assert(levels[l][i].id == levels[l][j].id);
}

pub open spec fn level_count_ok(levels: Levels) -> bool {
    levels.len() <= 4294967296
}

/// What `lemma_plan_is_leveled` needs of the upper inputs: their range lies in the range that
/// the overlaps were chosen for.
pub open spec fn range_covers(levels: Levels, plan: Plan, smallest: Seq<char>, largest: Seq<char>) -> bool {
    forall|x: Placed| #[trigger]
        plan_inputs(levels, plan).contains(x) && x.level == plan.level && x.table.rows().len() > 0 ==> key_le(
            smallest,
            x.table.rows()[0].0,
        ) && key_le(x.table.rows().last().0, largest)
}

proof fn lemma_overlaps_complete(levels: Levels, plan: Plan, smallest: Seq<char>, largest: Seq<char>)
    requires
        levels_wf(levels),
        level_count_ok(levels),
        plan.level < u32::MAX,
        plan.overlaps == descending_ids(
            overlapping_files(levels_metas(levels), (plan.level + 1) as u32, smallest, largest),
        ),
        range_covers(levels, plan, smallest, largest),
    ensures
        forall|x: Placed, t: TableState, key: Seq<char>|
            #![trigger plan_inputs(levels, plan).contains(x), level_at(levels, plan.level + 1).contains(t), t.holds(key)]
            plan_inputs(levels, plan).contains(x) && x.level == plan.level && x.table.holds(key) && level_at(
                levels,
                plan.level + 1,
            ).contains(t) && t.holds(key) ==> is_input(plan_inputs(levels, plan), plan.level + 1, t),
{
    broadcast use group_key_order;

    let p = plan.level as int;
    let metas = levels_metas(levels);
    let found = overlapping_files(metas, (p + 1) as u32, smallest, largest);
    lemma_plan_members(levels, plan);
    assert forall|x: Placed, t: TableState, key: Seq<char>|
        #![trigger plan_inputs(levels, plan).contains(x), level_at(levels, plan.level + 1).contains(t), t.holds(key)]
        plan_inputs(levels, plan).contains(x) && x.level == plan.level && x.table.holds(key) && level_at(
            levels,
            plan.level + 1,
        ).contains(t) && t.holds(key) implies is_input(plan_inputs(levels, plan), plan.level + 1, t) by {
        lemma_member_wf(levels, x.level, x.table);
        lemma_member_wf(levels, p + 1, t);
        lemma_key_in_range(x.table, key);
        lemma_key_in_range(t, key);
        let m = meta_of(t, p + 1);
        lemma_metas(levels);
        assert(is_meta(levels, p + 1, t, m));
        assert(metas.contains(m));
        assert(overlaps(m, (p + 1) as u32, smallest, largest));
        lemma_overlapping(metas, (p + 1) as u32, smallest, largest);
        assert(found.contains(m));
        law_descending_ids(found);
        let k = choose|k: int| 0 <= k < found.len() && found[k] == m;
        assert(found[k].id == t.id);
        assert(plan.overlaps.contains(t.id));
        assert(plan_inputs(levels, plan).contains(Placed { level: p + 1, table: t }));
    }
}

pub proof fn lemma_member_wf(levels: Levels, l: int, t: TableState)
    requires
        levels_wf(levels),
        level_at(levels, l).contains(t),
    ensures
        t.wf(),
        0 <= l < levels.len(),
{
    let i = choose|i: int| 0 <= i < levels[l].len() && levels[l][i] == t;
    assert(levels[l][i].wf());
}

/// Nothing lies below the deepest level that has a table with something in it.
proof fn lemma_nothing_deeper(levels: Levels, l: int, key: Seq<char>)
    requires
        levels_wf(levels),
        level_count_ok(levels),
        0 <= l < levels.len(),
        level_holds(levels[l], key),
    ensures
        l <= deepest_level(levels_metas(levels)),
{
    let i = choose|i: int| 0 <= i < levels[l].len() && (#[trigger] levels[l][i]).holds(key);
    let t = levels[l][i];
    assert(levels[l].contains(t));
    lemma_member_wf(levels, l, t);
    lemma_key_in_range(t, key);
    lemma_metas(levels);
    let m = meta_of(t, l);
    assert(is_meta(levels, l, t, m));
    lemma_deepest(levels_metas(levels), m);
}

/// The key range of the upper inputs of a plan that is due, by which the lower ones are chosen.
pub proof fn lemma_plan_range(levels: Levels, config: LevelConfig, plan: Plan) -> (range: (Seq<char>, Seq<char>))
    requires
        config.wf(),
        levels_wf(levels),
        unique_ids(levels),
        level_count_ok(levels),
        plan_for(levels_metas(levels), config) == Some(plan),
    ensures
        plan.level <= 64,
        range_covers(levels, plan, range.0, range.1),
        plan.overlaps == descending_ids(
            overlapping_files(levels_metas(levels), (plan.level + 1) as u32, range.0, range.1),
        ),
{
    let metas = levels_metas(levels);
    let inputs = plan_inputs(levels, plan);
    lemma_plan_members(levels, plan);
    lemma_metas(levels);
    if at_level(metas, 0).len() >= config.l0_compaction_threshold {
        let l0 = at_level(metas, 0);
        lemma_at_level(metas, 0);
        law_descending_ids(l0);
        assert forall|x: Placed| #[trigger]
            inputs.contains(x) && x.level == plan.level && x.table.rows().len() > 0 implies key_le(
            smallest_key(l0),
            x.table.rows()[0].0,
        ) && key_le(x.table.rows().last().0, largest_key(l0)) by {
            let m = meta_of(x.table, 0);
            assert(is_meta(levels, 0, x.table, m));
            assert(l0.contains(m));
            lemma_union_range(l0, m);
        }
        (smallest_key(l0), largest_key(l0))
    } else {
        lemma_plan_from(metas, config, 1);
        let p = plan.level as int;
        let files = at_level(metas, plan.level);
        lemma_at_level(metas, plan.level);
        lemma_oldest(files);
        let oldest = oldest_file(files);
        let (l, t) = choose|l: int, t: TableState| #[trigger] is_meta(levels, l, t, oldest);
        assert(l == p);
        assert forall|x: Placed| #[trigger]
            inputs.contains(x) && x.level == plan.level && x.table.rows().len() > 0 implies key_le(
            oldest.smallest,
            x.table.rows()[0].0,
        ) && key_le(x.table.rows().last().0, oldest.largest) by {
            assert(plan.inputs.contains(x.table.id));
            lemma_same_table(levels, p, x.table, t);
        }
        (oldest.smallest, oldest.largest)
    }
}

/// A plan that is due names tables whose merge loses nothing, among them one at its level that
/// holds something.
pub proof fn lemma_plan_is_leveled(levels: Levels, config: LevelConfig, plan: Plan)
    requires
        config.wf(),
        levels_wf(levels),
        unique_ids(levels),
        level_count_ok(levels),
        plan_for(levels_metas(levels), config) == Some(plan),
    ensures
        leveled(levels, plan_inputs(levels, plan), plan.level as int, plan.drop_tombstones),
        inputs_from(levels, plan_inputs(levels, plan)),
        plan.level <= 64,
        exists|x: Placed| #[trigger]
            plan_inputs(levels, plan).contains(x) && x.level == plan.level && x.table.rows().len() > 0,
{
    let metas = levels_metas(levels);
    let inputs = plan_inputs(levels, plan);
    lemma_plan_members(levels, plan);
    lemma_metas(levels);
    let (smallest, largest) = lemma_plan_range(levels, config, plan);
    lemma_overlaps_complete(levels, plan, smallest, largest);
    assert forall|i: int| 0 <= i < inputs.len() implies (#[trigger] inputs[i]).table.wf() by {
        assert(inputs.contains(inputs[i]));
        lemma_member_wf(levels, inputs[i].level, inputs[i].table);
    }
    if at_level(metas, 0).len() >= config.l0_compaction_threshold {
        let l0 = at_level(metas, 0);
        lemma_at_level(metas, 0);
        law_descending_ids(l0);
        assert(plan == plan_l0(metas));
        assert forall|t: TableState, key: Seq<char>| levels[0].contains(t) && #[trigger] t.holds(key) implies is_input(
            inputs,
            0,
            t,
        ) by {
            lemma_member_wf(levels, 0, t);
            lemma_key_in_range(t, key);
            let m = meta_of(t, 0);
            assert(is_meta(levels, 0, t, m));
            assert(l0.contains(m));
            let k = choose|k: int| 0 <= k < l0.len() && l0[k] == m;
            assert(l0[k].id == t.id);
            assert(plan.inputs.contains(t.id));
            assert(inputs.contains(Placed { level: 0, table: t }));
        }
        let m = l0[0];
        assert(l0.contains(m));
        let (l, t) = choose|l: int, t: TableState| #[trigger] is_meta(levels, l, t, m);
        assert(l == 0);
        assert(l0[0].id == t.id);
        assert(plan.inputs.contains(t.id));
        assert(inputs.contains(Placed { level: 0, table: t }));
    } else {
        lemma_plan_from(metas, config, 1);
        let p = plan.level as int;
        let files = at_level(metas, plan.level);
        lemma_at_level(metas, plan.level);
        lemma_oldest(files);
        let oldest = oldest_file(files);
        let (l, t) = choose|l: int, t: TableState| #[trigger] is_meta(levels, l, t, oldest);
        assert(l == p);
        assert(plan.inputs[0] == t.id);
        assert(plan.inputs.contains(t.id));
        assert(inputs.contains(Placed { level: p, table: t }));
    }
    let level = plan.level as int;
    assert forall|l: int, key: Seq<char>| plan.drop_tombstones && level + 1 < l < levels.len() implies !#[trigger]
        level_holds(levels[l], key) by {
        if level_holds(levels[l], key) {
            lemma_nothing_deeper(levels, l, key);
        }
    }
    assert(0 <= level < levels.len()) by {
        let x = choose|x: Placed| #[trigger]
            inputs.contains(x) && x.level == plan.level && x.table.rows().len() > 0;
        lemma_member_wf(levels, x.level, x.table);
    }
}

proof fn lemma_plan_from(metas: Seq<Meta>, config: LevelConfig, level: int)
    requires
        config.wf(),
        level >= 1,
    ensures
        plan_from(metas, config, level) matches Some(plan) ==> {
            &&& level <= plan.level <= 64
            &&& plan == plan_level(metas, plan.level)
            &&& at_level(metas, plan.level).len() > 0
        },
    decreases deepest_level(metas) + 1 - level,
{
    if level <= deepest_level(metas) {
        if crate::compaction::oversized(metas, config, level as u32) {
            if level >= 65 {
                crate::compaction::law_capacity_is_unbounded_in_the_deep(config, level as u32);
            }
        } else {
            lemma_plan_from(metas, config, level + 1);
        }
    }
}

/// Deep levels are never due, because they may hold anything.
pub proof fn lemma_plan_level(metas: Seq<Meta>, config: LevelConfig)
    requires
        config.wf(),
    ensures
        plan_for(metas, config) matches Some(plan) ==> plan.level <= 64,
{
    lemma_plan_from(metas, config, 1);
}

/// The levels after a job.
pub open spec fn levels_after(levels: Levels, job: Job, next_id: int) -> Levels {
    merged_levels(levels, job.inputs, job.output_level, job_outputs(job, next_id))
}

/// The levels while a job runs: `written` of its outputs are there, and all inputs still are.
pub open spec fn levels_during(levels: Levels, job: Job, next_id: int, written: int) -> Levels {
    merged_levels(levels, Seq::empty(), job.output_level, job_outputs(job, next_id).take(written))
}

/// Ids are left for all outputs of a job, and every one of them fits in a file.
pub open spec fn job_fits(job: Job, next_id: int) -> bool {
    &&& groups_fit(job_groups(job))
    &&& next_id + job_groups(job).len() <= u64::MAX
}

/// The records of every table that a merge writes take at most its target size, unless the table
/// holds a single record.
pub proof fn law_merge_outputs_keep_to_the_target(job: Job, next_id: int, i: int)
    requires
        inputs_wf(job.inputs),
        groups_fit(job_groups(job)),
        0 <= i < job_outputs(job, next_id).len(),
    ensures
        job_outputs(job, next_id)[i].rows().len() == 1 || rows_bytes(job_outputs(job, next_id)[i].rows()).len()
            <= job.target_file_size,
{
    lemma_job_outputs(job, next_id);
    law_split_keeps_to_the_target(job_rows(job), job.target_file_size);
    assert(job_outputs(job, next_id)[i].rows() == job_groups(job)[i]);
}

/// Rows that fit in one group are one group.
proof fn lemma_one_group(rows: Seq<Row>, target: int)
    requires
        rows_bytes(rows).len() <= target,
        rows.len() > 0,
    ensures
        split_rows(rows, target) == seq![rows],
    decreases rows.len(),
{
    lemma_record_layout(rows.last());
    let before = rows.drop_last();
    if before.len() > 0 {
        lemma_one_group(before, target);
        assert(before.push(rows.last()) =~= rows);
        assert(split_rows(rows, target) =~= seq![rows]);
    } else {
        assert(split_rows(before, target) =~= Seq::<Seq<Row>>::empty());
        assert(seq![rows.last()] =~= rows);
        assert(split_rows(rows, target) =~= seq![rows]);
    }
}

/// Merging all tables leaves one table with everything that they hold, or none where they hold
/// nothing, unless their records take more bytes than the machine can count.
pub proof fn law_full_compaction_writes_one_table(levels: Levels)
    requires
        rows_bytes(job_rows(full_job(levels))).len() <= usize::MAX,
    ensures
        job_groups(full_job(levels)) == (if job_rows(full_job(levels)).len() > 0 {
            seq![job_rows(full_job(levels))]
        } else {
            Seq::empty()
        }),
{
    let rows = job_rows(full_job(levels));
    if rows.len() > 0 {
        lemma_one_group(rows, usize::MAX as int);
    }
}

/// The first outputs of a job hold nothing but what the merge stores.
pub proof fn lemma_first_outputs(job: Job, next_id: int, n: int)
    requires
        inputs_wf(job.inputs),
        0 <= n <= job_groups(job).len(),
        groups_fit(job_groups(job).take(n)),
    ensures
        forall|i: int| 0 <= i < n ==> (#[trigger] job_outputs(job, next_id)[i]).wf() && job_outputs(job, next_id)[i].rows()
            == job_groups(job)[i],
        sound_outputs(job.inputs, job_outputs(job, next_id).take(n)),
{
    let rows = job_rows(job);
    let groups = job_groups(job);
    let all = job_outputs(job, next_id);
    let outputs = all.take(n);
    let merged = job_merged(job);
    lemma_job_winner(job.inputs, Seq::empty());
    lemma_visible(merged, !job.drop_tombstones);
    law_split_partitions_rows(rows, job.target_file_size);
    assert forall|i: int| 0 <= i < n implies (#[trigger] all[i]).wf() && all[i].rows() == groups[i] by {
        lemma_group(groups, i);
        assert(table_len(groups.take(n)[i], DEFAULT_BLOCK_SIZE) <= u32::MAX);
        lemma_new_table(job.output_level, next_id + i, groups[i]);
    }
    assert forall|o: TableState, key: Seq<char>| outputs.contains(o) && #[trigger] o.holds(key) implies input_holds(
        job.inputs,
        key,
    ) && o.get(key) == merged_get(job.inputs, key) by {
        let i = choose|i: int| 0 <= i < outputs.len() && outputs[i] == o;
        assert(all[i] == o);
        assert(all[i].rows() == groups[i]);
        lemma_group(groups, i);
        assert(has_key(groups[i], key));
        let q = index_of_key(rows, key);
        lemma_rows_get_at(rows, q);
        assert(has_key(merged, rows[q].0));
        lemma_job_winner(job.inputs, key);
    }
}

/// Ids are left for the first outputs of a job, and every one of them fits in a file.
pub open spec fn outputs_fit(job: Job, next_id: int, n: int) -> bool {
    &&& 0 <= n <= job_groups(job).len()
    &&& groups_fit(job_groups(job).take(n))
    &&& next_id + n <= u64::MAX
}

pub proof fn lemma_fresh_outputs(job: Job, next_id: int, n: int)
    requires
        inputs_wf(job.inputs),
        outputs_fit(job, next_id, n),
        0 <= next_id,
    ensures
        ({
            let outputs = job_outputs(job, next_id).take(n);
            &&& fresh_outputs(outputs, next_id)
            &&& forall|i: int| 0 <= i < outputs.len() ==> (#[trigger] outputs[i]).id < next_id + n
            &&& sound_outputs(job.inputs, outputs)
        }),
{
    let all = job_outputs(job, next_id);
    let outputs = all.take(n);
    lemma_first_outputs(job, next_id, n);
    assert forall|i: int| 0 <= i < outputs.len() implies (#[trigger] outputs[i]).wf() && outputs[i].id == next_id + i by {
        assert(all[i].wf());
        assert(outputs[i] == all[i]);
    }
    assert forall|i: int, j: int| 0 <= i < j < outputs.len() implies (#[trigger] outputs[i]).id < (
    #[trigger] outputs[j]).id by {
        assert(outputs[i].id == next_id + i);
        assert(outputs[j].id == next_id + j);
    }
}

/// Carrying out a plan that is due changes no value, and keeps what holds of the levels.
pub proof fn law_compaction_keeps_contents(
    levels: Levels,
    next_id: int,
    config: LevelConfig,
    plan: Plan,
    target_file_size: int,
)
    requires
        config.wf(),
        0 <= next_id,
        levels_ok(levels, next_id),
        level_count_ok(levels),
        plan_for(levels_metas(levels), config) == Some(plan),
        job_fits(plan_job(levels, plan, target_file_size), next_id),
    ensures
        ({
            let job = plan_job(levels, plan, target_file_size);
            let after = levels_after(levels, job, next_id);
            &&& levels_ok(after, next_id + job_groups(job).len())
            &&& level_count_ok(after)
            &&& forall|key: Seq<char>| value_of(#[trigger] levels_get(after, key)) == value_of(levels_get(levels, key))
        }),
{
    let job = plan_job(levels, plan, target_file_size);
    let inputs = job.inputs;
    let outputs = job_outputs(job, next_id);
    let n = job_groups(job).len() as int;
    let after = levels_after(levels, job, next_id);
    let level = plan.level as int;
    lemma_plan_is_leveled(levels, config, plan);
    assert(job_groups(job).take(n) =~= job_groups(job));
    lemma_fresh_outputs(job, next_id, n);
    lemma_job_outputs(job, next_id);
    assert(outputs.take(n) =~= outputs);
    lemma_merged_levels(levels, inputs, level + 1, outputs, next_id, next_id + n);
    lemma_leveled_keeps_agreement(levels, inputs, level, plan.drop_tombstones, outputs, after);
    assert(ascending(levels[0]));
    assert forall|key: Seq<char>| value_of(#[trigger] levels_get(after, key)) == value_of(levels_get(levels, key)) by {
        lemma_leveled_keeps_value(levels, inputs, level, plan.drop_tombstones, outputs, after, key);
    }
}

/// While a plan that is due is carried out, the outputs that are already there change nothing.
pub proof fn law_compaction_outputs_are_harmless(
    levels: Levels,
    next_id: int,
    config: LevelConfig,
    plan: Plan,
    target_file_size: int,
    written: int,
)
    requires
        config.wf(),
        0 <= next_id,
        levels_ok(levels, next_id),
        level_count_ok(levels),
        plan_for(levels_metas(levels), config) == Some(plan),
        outputs_fit(plan_job(levels, plan, target_file_size), next_id, written),
    ensures
        ({
            let job = plan_job(levels, plan, target_file_size);
            let during = levels_during(levels, job, next_id, written);
            &&& levels_ok(during, next_id + written)
            &&& forall|key: Seq<char>| #[trigger] levels_get(during, key) == levels_get(levels, key)
        }),
{
    let job = plan_job(levels, plan, target_file_size);
    let outputs = job_outputs(job, next_id).take(written);
    let level = plan.level as int;
    lemma_plan_is_leveled(levels, config, plan);
    lemma_fresh_outputs(job, next_id, written);
    lemma_leveled_outputs_harmless(levels, job.inputs, level, plan.drop_tombstones, outputs);
    lemma_added_outputs(levels, next_id, level + 1, outputs, next_id + written);
}

proof fn lemma_added_outputs(levels: Levels, next_id: int, output: int, outputs: Seq<TableState>, after_id: int)
    requires
        levels_ok(levels, next_id),
        output >= 1,
        fresh_outputs(outputs, next_id),
        next_id <= after_id,
        forall|i: int| 0 <= i < outputs.len() ==> (#[trigger] outputs[i]).id < after_id,
        harmless(levels, output, outputs),
    ensures
        ({
            let during = merged_levels(levels, Seq::empty(), output, outputs);
            &&& levels_ok(during, after_id)
            &&& forall|key: Seq<char>| #[trigger] levels_get(during, key) == levels_get(levels, key)
        }),
{
    let none = Seq::<Placed>::empty();
    let during = merged_levels(levels, none, output, outputs);
    lemma_merged_levels(levels, none, output, outputs, next_id, after_id);
    lemma_added_keeps_agreement(levels, output, outputs, during);
    assert forall|key: Seq<char>| #[trigger] levels_get(during, key) == levels_get(levels, key) by {
        lemma_added_keeps_lookup(levels, output, outputs, during, key);
    }
}

pub proof fn lemma_all_placed(levels: Levels)
    ensures
        forall|x: Placed| #[trigger] all_placed(levels).contains(x) <==> 0 <= x.level < levels.len() && level_at(
            levels,
            x.level,
        ).contains(x.table),
    decreases levels.len(),
{
    let all = all_placed(levels);
    if levels.len() > 0 {
        let before = levels.drop_last();
        let earlier = all_placed(before);
        let last = levels.len() - 1;
        let own = Seq::new(levels.last().len(), |i: int| Placed { level: last, table: levels.last()[i] });
        lemma_all_placed(before);
        assert forall|x: Placed| #[trigger] all.contains(x) <==> 0 <= x.level < levels.len() && level_at(
            levels,
            x.level,
        ).contains(x.table) by {
            if all.contains(x) {
                let k = choose|k: int| 0 <= k < all.len() && all[k] == x;
                if k < earlier.len() {
                    assert(earlier[k] == x);
                    assert(earlier.contains(x));
                    assert(levels[x.level] == before[x.level]);
                } else {
                    assert(own[k - earlier.len()] == x);
                    assert(levels[last][k - earlier.len()] == x.table);
                }
            }
            if 0 <= x.level < levels.len() && level_at(levels, x.level).contains(x.table) {
                if x.level < last {
                    assert(levels[x.level] == before[x.level]);
                    assert(earlier.contains(x));
                    let k = choose|k: int| 0 <= k < earlier.len() && earlier[k] == x;
                    assert(all[k] == x);
                } else {
                    let k = choose|k: int| 0 <= k < levels[last].len() && levels[last][k] == x.table;
                    assert(own[k] == x);
                    assert(all[earlier.len() + k] == x);
                }
            }
        }
    } else {
        assert(forall|x: Placed| !#[trigger] all.contains(x));
    }
}

pub proof fn lemma_full_job(levels: Levels)
    requires
        levels_wf(levels),
    ensures
        takes_all(levels, all_placed(levels)),
        inputs_from(levels, all_placed(levels)),
        inputs_wf(all_placed(levels)),
{
    let inputs = all_placed(levels);
    lemma_all_placed(levels);
    assert forall|i: int| 0 <= i < inputs.len() implies (#[trigger] inputs[i]).table.wf() by {
        assert(inputs.contains(inputs[i]));
        lemma_member_wf(levels, inputs[i].level, inputs[i].table);
    }
}

/// Merging all tables changes no value, and keeps what holds of the levels.
pub proof fn law_full_compaction_keeps_contents(levels: Levels, next_id: int)
    requires
        0 <= next_id,
        levels_ok(levels, next_id),
        level_count_ok(levels),
        job_fits(full_job(levels), next_id),
    ensures
        ({
            let job = full_job(levels);
            let after = levels_after(levels, job, next_id);
            &&& levels_ok(after, next_id + job_groups(job).len())
            &&& level_count_ok(after)
            &&& forall|key: Seq<char>| value_of(#[trigger] levels_get(after, key)) == value_of(levels_get(levels, key))
        }),
{
    let job = full_job(levels);
    let outputs = job_outputs(job, next_id);
    let n = job_groups(job).len() as int;
    let after = levels_after(levels, job, next_id);
    lemma_full_job(levels);
    assert(job_groups(job).take(n) =~= job_groups(job));
    lemma_fresh_outputs(job, next_id, n);
    lemma_job_outputs(job, next_id);
    assert(outputs.take(n) =~= outputs);
    lemma_merged_levels(levels, job.inputs, 1, outputs, next_id, next_id + n);
    lemma_full_merge(levels, job.inputs, outputs, true, 1, after);
}

/// While all tables are merged, the outputs that are already there change nothing.
pub proof fn law_full_compaction_outputs_are_harmless(levels: Levels, next_id: int, written: int)
    requires
        0 <= next_id,
        levels_ok(levels, next_id),
        level_count_ok(levels),
        outputs_fit(full_job(levels), next_id, written),
    ensures
        ({
            let during = levels_during(levels, full_job(levels), next_id, written);
            &&& levels_ok(during, next_id + written)
            &&& forall|key: Seq<char>| #[trigger] levels_get(during, key) == levels_get(levels, key)
        }),
{
    let job = full_job(levels);
    let outputs = job_outputs(job, next_id).take(written);
    lemma_full_job(levels);
    lemma_fresh_outputs(job, next_id, written);
    assert forall|o: TableState, key: Seq<char>| outputs.contains(o) && #[trigger] o.holds(key) implies crate::levels::held_above(
        levels,
        1,
        key,
    ) || o.get(key) == levels_get(levels, key) by {
        lemma_merge_of_all(levels, job.inputs, key);
    }
    lemma_added_outputs(levels, next_id, 1, outputs, next_id + written);
}

/// A flush puts the newest table at the end of level 0.
pub open spec fn levels_with_flushed(levels: Levels, table: TableState) -> Levels {
    levels.update(0, levels[0].push(table))
}

/// With a newer table in level 0, that table is read first and the others as before.
pub proof fn law_flush_adds_the_newest(levels: Levels, next_id: int, table: TableState)
    requires
        levels_ok(levels, next_id),
        table.wf(),
        table.id == next_id,
    ensures
        levels_ok(levels_with_flushed(levels, table), next_id + 1),
        forall|key: Seq<char>| #[trigger] levels_get(levels_with_flushed(levels, table), key) == (if table.holds(key) {
            table.get(key)
        } else {
            levels_get(levels, key)
        }),
{
    let after = levels_with_flushed(levels, table);
    let files = levels[0];
    let pushed = files.push(table);
    assert(after[0] == pushed);
    assert forall|l: int, i: int| 0 <= l < after.len() && 0 <= i < after[l].len() implies (#[trigger] after[l][i]).wf()
        && after[l][i].id < next_id + 1 by {
        if l > 0 || i < files.len() {
            assert(after[l][i] == levels[l][i]);
            assert(levels[l][i].wf() && levels[l][i].id < next_id);
        }
    }
    assert forall|l: int, i: int, m: int, j: int|
        #![trigger after[l][i], after[m][j]]
        0 <= l < after.len() && 0 <= i < after[l].len() && 0 <= m < after.len() && 0 <= j < after[m].len()
            && after[l][i].id == after[m][j].id implies l == m && i == j by {
        let new_l = l == 0 && i == files.len();
        let new_m = m == 0 && j == files.len();
        if !new_l {
            assert(after[l][i] == levels[l][i]);
            assert(levels[l][i].id < next_id);
        }
        if !new_m {
            assert(after[m][j] == levels[m][j]);
            assert(levels[m][j].id < next_id);
        }
    }
    assert forall|l: int| 0 <= l < after.len() implies ascending(#[trigger] after[l]) by {
        assert(ascending(levels[l]));
        if l == 0 {
            assert forall|i: int, j: int| 0 <= i < j < pushed.len() implies (#[trigger] pushed[i]).id < (
            #[trigger] pushed[j]).id by {
                if j < files.len() {
                    assert(files[i].id < files[j].id);
                } else {
                    assert(levels[0][i].id < next_id);
                }
            }
        }
    }
    assert forall|key: Seq<char>| #[trigger] levels_get(after, key) == (if table.holds(key) {
        table.get(key)
    } else {
        levels_get(levels, key)
    }) by {
        assert(pushed.drop_last() =~= files);
        assert(after.skip(1) =~= levels.skip(1));
        if table.holds(key) {
            assert(pushed[pushed.len() - 1].holds(key));
            assert(level_holds(after[0], key));
        } else {
            if level_holds(pushed, key) {
                let i = choose|i: int| 0 <= i < pushed.len() && (#[trigger] pushed[i]).holds(key);
                assert(files[i].holds(key));
            }
            if level_holds(files, key) {
                let i = choose|i: int| 0 <= i < files.len() && (#[trigger] files[i]).holds(key);
                assert(pushed[i].holds(key));
            }
        }
    }
    assert forall|l: int, a: TableState, b: TableState, key: Seq<char>|
        #![trigger after[l].contains(a), after[l].contains(b), a.holds(key)]
        1 <= l < after.len() && after[l].contains(a) && after[l].contains(b) && a.holds(key) && b.holds(key)
            implies a.get(key) == b.get(key) || crate::levels::held_above(after, l, key) by {
        assert(after[l] == levels[l]);
        if a.get(key) != b.get(key) {
            assert(crate::levels::held_above(levels, l, key));
            let m = choose|m: int| 0 <= m < l && m < levels.len() && level_holds(#[trigger] levels[m], key);
            if m == 0 {
                let i = choose|i: int| 0 <= i < files.len() && (#[trigger] files[i]).holds(key);
                assert(pushed[i].holds(key));
                assert(level_holds(after[0], key));
            } else {
                assert(after[m] == levels[m]);
            }
        }
    }
}

/// Every table that a plan names is a table file.
pub proof fn lemma_plan_inputs_wf(levels: Levels, plan: Plan)
    requires
        levels_wf(levels),
    ensures
        inputs_wf(plan_inputs(levels, plan)),
{
    let inputs = plan_inputs(levels, plan);
    lemma_plan_members(levels, plan);
    assert forall|i: int| 0 <= i < inputs.len() implies (#[trigger] inputs[i]).table.wf() by {
        assert(inputs.contains(inputs[i]));
        lemma_member_wf(levels, inputs[i].level, inputs[i].table);
    }
}

/// A plan that is due names a table at its level that holds something.
pub proof fn lemma_plan_has_input(levels: Levels, config: LevelConfig, plan: Plan) -> (x: Placed)
    requires
        config.wf(),
        levels_wf(levels),
        level_count_ok(levels),
        plan_for(levels_metas(levels), config) == Some(plan),
    ensures
        plan_inputs(levels, plan).contains(x),
        x.level == plan.level,
        x.table.rows().len() > 0,
        plan.level <= 64,
        plan.level < levels.len(),
{
    let metas = levels_metas(levels);
    let inputs = plan_inputs(levels, plan);
    lemma_plan_members(levels, plan);
    lemma_metas(levels);
    if at_level(metas, 0).len() >= config.l0_compaction_threshold {
        let l0 = at_level(metas, 0);
        lemma_at_level(metas, 0);
        law_descending_ids(l0);
        let m = l0[0];
        assert(l0.contains(m));
        let (l, t) = choose|l: int, t: TableState| #[trigger] is_meta(levels, l, t, m);
        assert(l == 0);
        assert(l0[0].id == t.id);
        assert(plan.inputs.contains(t.id));
        let x = Placed { level: 0, table: t };
        assert(inputs.contains(x));
        x
    } else {
        lemma_plan_from(metas, config, 1);
        let p = plan.level as int;
        let files = at_level(metas, plan.level);
        lemma_at_level(metas, plan.level);
        lemma_oldest(files);
        let oldest = oldest_file(files);
        let (l, t) = choose|l: int, t: TableState| #[trigger] is_meta(levels, l, t, oldest);
        assert(l == p);
        assert(plan.inputs[0] == t.id);
        assert(plan.inputs.contains(t.id));
        let x = Placed { level: p, table: t };
        assert(inputs.contains(x));
        x
    }
}

/// A merge that is due takes the tables that the plan names, at the level of the plan and at the next
/// one, and writes to the next level. Its outputs get the ids from the next one on, each a file of that
/// level.
pub proof fn law_merge_takes_what_the_plan_names(levels: Levels, plan: Plan, target: int, next_id: int, i: int)
    ensures
        ({
            let job = plan_job(levels, plan, target);
            &&& job.output_level == plan.level + 1
            &&& job.drop_tombstones == plan.drop_tombstones
            &&& job.target_file_size == target
            &&& forall|x: Placed| #[trigger]
                job.inputs.contains(x) <==> level_at(levels, x.level).contains(x.table) && ((x.level == plan.level
                    && plan.inputs.contains(x.table.id)) || (x.level == plan.level + 1 && plan.overlaps.contains(
                    x.table.id,
                )))
            &&& 0 <= i < job_outputs(job, next_id).len() && 0 <= next_id && next_id + i <= u64::MAX && plan.level < u32::MAX
                ==> job_outputs(job, next_id)[i].id == next_id + i && job_outputs(job, next_id)[i].path == table_name(
                (plan.level + 1) as u32,
                (next_id + i) as u64,
            )
        }),
{
    lemma_plan_members(levels, plan);
}

/// What the choice of a merge knows of a table: its id, its level, its first and its last key, and the
/// length of its file. It knows so of every table that is not empty, and of nothing else.
pub proof fn law_tables_are_described_as_they_are(levels: Levels, m: Meta)
    requires
        level_count_ok(levels),
    ensures
        levels_metas(levels).contains(m) <==> exists|l: int, t: TableState|
            {
                &&& #[trigger] level_at(levels, l).contains(t)
                &&& t.rows().len() > 0
                &&& m.level == l
                &&& m.id == t.id
                &&& m.smallest == t.rows()[0].0
                &&& m.largest == t.rows()[t.rows().len() - 1].0
                &&& m.size == t.bytes.len()
            },
{
    lemma_metas(levels);
    if levels_metas(levels).contains(m) {
        let (l, t) = choose|l: int, t: TableState| #[trigger] is_meta(levels, l, t, m);
        assert(level_at(levels, l).contains(t));
    }
    if exists|l: int, t: TableState|
        {
            &&& #[trigger] level_at(levels, l).contains(t)
            &&& t.rows().len() > 0
            &&& m.level == l
            &&& m.id == t.id
            &&& m.smallest == t.rows()[0].0
            &&& m.largest == t.rows()[t.rows().len() - 1].0
            &&& m.size == t.bytes.len()
        } {
        let (l, t) = choose|l: int, t: TableState|
            {
                &&& #[trigger] level_at(levels, l).contains(t)
                &&& t.rows().len() > 0
                &&& m.level == l
                &&& m.id == t.id
                &&& m.smallest == t.rows()[0].0
                &&& m.largest == t.rows()[t.rows().len() - 1].0
                &&& m.size == t.bytes.len()
            };
        assert(0 <= l < levels.len());
        assert(m == meta_of(t, l));
        assert(is_meta(levels, l, t, m));
    }
}

}
