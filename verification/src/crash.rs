//! What is left of the database when the process ends in the middle of an operation.
use crate::compaction::{plan_for, LevelConfig, Plan};
use crate::disk::{
    applied, applied_all, crash_leaves, interrupted, lemma_applied_concat, lemma_crash_concat, FileOp, Image,
};
use crate::durability::{
    is_path_in, is_removed, lemma_nothing_left, lemma_partly_cleaned, lemma_removal_crash, lemma_same_files,
    lemma_same_tables, marker_is_sound, partly_cleaned, represents, same_files, settled, stored,
};
use crate::engine::{contents, input_ids, job_marker, lemma_lookup, output_ids, tree_after, TreeState};
use crate::levels::{is_input, level_at, levels_get, replaced, value_of, Job, Levels, Placed, TableState};
use crate::merge::{
    full_job, inputs_from, job_fits, job_groups, job_outputs, law_compaction_keeps_contents,
    law_compaction_outputs_are_harmless, law_full_compaction_keeps_contents, law_full_compaction_outputs_are_harmless,
    lemma_fresh_outputs, lemma_full_job, lemma_merged_levels, lemma_plan_is_leveled, level_count_ok, levels_after,
    levels_during, levels_metas, levels_ok, merged_levels, outputs_fit, plan_job, unique_ids,
};
use crate::names::{
    is_tmp, law_names_are_apart, law_pending_roundtrip, law_table_name_roundtrip, parse_table_name, pending_name,
    pending_text, table_name, tmp_name, wal_name,
};
use crate::recovery::{
    cleaned, has_table_file, is_leftover, is_merged_input, is_table_file, log_in, marker_is_text, outputs_present,
    pending_in, replayed, Pending,
};
use crate::records::record_len;
use crate::rows::{upsert, Row};
use crate::table::{table_len, DEFAULT_BLOCK_SIZE};
use crate::wal::{law_append_adds_the_row, law_torn_tail_is_discarded, log_entry, scan_log};
use vstd::prelude::*;
use vstd::utf8::{encode_utf8_decode_utf8, encode_utf8_valid_utf8};

verus! {

/// A memtable and tables that give every key the same value.
pub open spec fn same_contents(memtable: Seq<Row>, levels: Levels, other: Seq<Row>, others: Levels) -> bool {
    forall|key: Seq<char>| #[trigger] contents(memtable, levels, key) == contents(other, others, key)
}

/// Whether opening a directory gives every key the value that it has in `memtable` and `levels`.
pub open spec fn recovers(image: Image, memtable: Seq<Row>, levels: Levels) -> bool {
    exists|tree: TreeState, rows: Seq<Row>| #[trigger]
        represents(image, tree, rows) && same_contents(rows, tree.levels, memtable, levels)
}

pub proof fn lemma_recovers(image: Image, tree: TreeState, rows: Seq<Row>, memtable: Seq<Row>, levels: Levels)
    requires
        represents(image, tree, rows),
        same_contents(rows, tree.levels, memtable, levels),
    ensures
        recovers(image, memtable, levels),
{
}

/// Recovering is a matter of contents.
pub proof fn lemma_recovers_same(image: Image, memtable: Seq<Row>, levels: Levels, other: Seq<Row>, others: Levels)
    requires
        recovers(image, memtable, levels),
        same_contents(memtable, levels, other, others),
    ensures
        recovers(image, other, others),
{
    let (tree, rows) = choose|tree: TreeState, rows: Seq<Row>| #[trigger]
        represents(image, tree, rows) && same_contents(rows, tree.levels, memtable, levels);
    assert forall|key: Seq<char>| #[trigger] contents(rows, tree.levels, key) == contents(other, others, key) by {
        assert(contents(memtable, levels, key) == contents(other, others, key));
    }
}

/// Operations that stop early leave what may be left of all of them.
pub proof fn lemma_crash_prefix(image: Image, ops: Seq<FileOp>, count: int, left: Image)
    requires
        0 <= count <= ops.len(),
        crash_leaves(image, ops.take(count), left),
    ensures
        crash_leaves(image, ops, left),
{
    let first = ops.take(count);
    if left == applied_all(image, first) {
        if count < ops.len() {
            assert(interrupted(applied_all(image, ops.take(count)), ops[count], left));
        } else {
            assert(first =~= ops);
        }
    } else {
        let i = choose|i: int|
            0 <= i < first.len() && interrupted(applied_all(image, first.take(i)), #[trigger] first[i], left);
        assert(first.take(i) =~= ops.take(i));
        assert(first[i] == ops[i]);
        assert(interrupted(applied_all(image, ops.take(i)), ops[i], left));
    }
}

/// Two operations, one behind the other.
pub proof fn lemma_two_ops(image: Image, a: FileOp, b: FileOp, left: Image)
    ensures
        applied_all(image, seq![a, b]) == applied(applied(image, a), b),
        crash_leaves(image, seq![a, b], left) ==> interrupted(image, a, left) || interrupted(applied(image, a), b, left),
        applied_all(image, seq![a]) == applied(image, a),
{
    let ops = seq![a, b];
    assert(ops.drop_last() =~= seq![a]);
    assert(seq![a].drop_last() =~= Seq::<FileOp>::empty());
    assert(applied_all(image, Seq::<FileOp>::empty()) == image);
    assert(applied_all(image, seq![a]) == applied(image, a));
    if crash_leaves(image, ops, left) && left != applied_all(image, ops) {
        let i = choose|i: int|
            0 <= i < ops.len() && interrupted(applied_all(image, ops.take(i)), #[trigger] ops[i], left);
        assert(ops.take(0) =~= Seq::<FileOp>::empty());
        assert(ops.take(1) =~= seq![a]);
        assert(i == 0 || i == 1);
    }
}

/// The operations that bring a row to the log.
pub open spec fn log_row_ops(row: Row) -> Seq<FileOp> {
    seq![FileOp::Append { name: wal_name(), data: log_entry(row) }, FileOp::Sync { name: wal_name() }]
}

/// The directory with a row more in the log.
pub open spec fn with_logged(image: Image, row: Row) -> Image {
    image.insert(wal_name(), image[wal_name()] + log_entry(row))
}

/// The log alone differs.
pub proof fn lemma_log_differs(image: Image, log: Seq<u8>)
    requires
        settled(image),
    ensures
        ({
            let after = image.insert(wal_name(), log);
            &&& cleaned(after) == after
            &&& same_files(cleaned(image), cleaned(after))
            &&& marker_is_text(after)
            &&& marker_is_sound(after)
            &&& log_in(after) == log
            &&& scan_log(log).end is Clean ==> settled(after)
        }),
{
    let after = image.insert(wal_name(), log);
    law_names_are_apart(wal_name());
    lemma_nothing_left(image);
    assert forall|name: Seq<char>| #[trigger] after.dom().contains(name) implies !is_tmp(name) by {
        assert(name == wal_name() || image.dom().contains(name));
    }
    lemma_nothing_left(after);
}

/// When the process ends while a row is being logged, the row is there or it is not.
pub proof fn lemma_log_row_crash(image: Image, tree: TreeState, memtable: Seq<Row>, row: Row, left: Image)
    requires
        settled(image),
        represents(image, tree, memtable),
        record_len(row) <= u32::MAX,
    ensures
        applied_all(image, log_row_ops(row)) == with_logged(image, row),
        settled(with_logged(image, row)),
        represents(with_logged(image, row), tree, upsert(memtable, row)),
        crash_leaves(image, log_row_ops(row), left) ==> represents(left, tree, memtable) || represents(
            left,
            tree,
            upsert(memtable, row),
        ),
{
    let log = image[wal_name()];
    let entry = log_entry(row);
    let append = FileOp::Append { name: wal_name(), data: entry };
    let sync = FileOp::Sync { name: wal_name() };
    let after = with_logged(image, row);
    lemma_two_ops(image, append, sync, left);
    law_append_adds_the_row(log, row);
    lemma_log_differs(image, log + entry);
    let rows = scan_log(log).rows;
    assert(rows.push(row).drop_last() =~= rows);
    lemma_row_logged(image, after, tree, memtable, row);
    if crash_leaves(image, log_row_ops(row), left) && left != image && left != after {
        let n = choose|n: int|
            0 <= n < entry.len() && left == applied(
                image,
                FileOp::Append { name: wal_name(), data: #[trigger] entry.take(n) },
            );
        assert(left == image.insert(wal_name(), log + entry.take(n)));
        if n == 0 {
            assert(log + entry.take(0) =~= log);
            assert(left =~= image);
        } else {
            law_torn_tail_is_discarded(log, row, n);
            lemma_log_differs(image, log + entry.take(n));
            lemma_same_files(image, left, tree, memtable);
        }
    }
}

proof fn lemma_row_logged(image: Image, after: Image, tree: TreeState, memtable: Seq<Row>, row: Row)
    requires
        represents(image, tree, memtable),
        same_files(cleaned(image), cleaned(after)),
        marker_is_text(after),
        marker_is_sound(after),
        !(scan_log(log_in(after)).end is Corrupt),
        scan_log(log_in(after)).rows == scan_log(log_in(image)).rows.push(row),
    ensures
        represents(after, tree, upsert(memtable, row)),
{
    let rows = scan_log(log_in(image)).rows;
    assert(rows.push(row).drop_last() =~= rows);
    assert(replayed(rows.push(row)) == upsert(memtable, row));
    lemma_same_tables(image, after, tree, memtable);
}

/// A file under a temporary name changes nothing of what a directory represents.
pub proof fn lemma_tmp_is_harmless(image: Image, tree: TreeState, memtable: Seq<Row>, name: Seq<char>, data: Seq<u8>)
    requires
        represents(image, tree, memtable),
        is_tmp(name),
        !image.dom().contains(name),
    ensures
        represents(image.insert(name, data), tree, memtable),
{
    let after = image.insert(name, data);
    law_names_are_apart(name);
    assert(pending_in(after) == pending_in(image));
    assert(log_in(after) == log_in(image));
    if let Some(pending) = pending_in(image) {
        assert forall|id: u64| has_table_file(after, id) == #[trigger] has_table_file(image, id) by {
            if has_table_file(image, id) {
                let n = choose|n: Seq<char>| #[trigger] image.dom().contains(n) && is_table_file(n, id);
                assert(after.dom().contains(n));
            }
            if has_table_file(after, id) {
                let n = choose|n: Seq<char>| #[trigger] after.dom().contains(n) && is_table_file(n, id);
                assert(image.dom().contains(n));
            }
        }
        assert(outputs_present(after, pending) == outputs_present(image, pending)) by {
            if outputs_present(image, pending) {
                assert forall|i: int| 0 <= i < pending.outputs.len() implies has_table_file(
                    after,
                    #[trigger] pending.outputs[i],
                ) by {
                    assert(has_table_file(image, pending.outputs[i]));
                }
            }
            if outputs_present(after, pending) {
                assert forall|i: int| 0 <= i < pending.outputs.len() implies has_table_file(
                    image,
                    #[trigger] pending.outputs[i],
                ) by {
                    assert(has_table_file(after, pending.outputs[i]));
                }
            }
        }
    }
    assert(cleaned(after) =~= cleaned(image));
    lemma_same_files(image, after, tree, memtable);
}

/// Writing a file under a temporary name and renaming it.
pub open spec fn place_ops(name: Seq<char>, data: Seq<u8>) -> Seq<FileOp> {
    seq![FileOp::Write { name: tmp_name(name), data }, FileOp::Rename { from: tmp_name(name), to: name }]
}

/// A file that is written under a temporary name and renamed is there as a whole or not at all.
pub proof fn law_placing_is_atomic(image: Image, name: Seq<char>, data: Seq<u8>, left: Image)
    requires
        !image.dom().contains(tmp_name(name)),
    ensures
        applied_all(image, place_ops(name, data)) == image.insert(name, data),
        crash_leaves(image, place_ops(name, data), left) ==> {
            ||| left == image
            ||| left == image.insert(name, data)
            ||| exists|part: Seq<u8>| left == #[trigger] image.insert(tmp_name(name), part)
        },
{
    let tmp = tmp_name(name);
    let write = FileOp::Write { name: tmp, data };
    let rename = FileOp::Rename { from: tmp, to: name };
    assert(name != tmp) by {
        reveal_strlit(".tmp");
        assert(tmp.len() == name.len() + 4);
    }
    lemma_two_ops(image, write, rename, left);
    assert(image.insert(tmp, data).remove(tmp).insert(name, data) =~= image.insert(name, data));
    if crash_leaves(image, place_ops(name, data), left) {
        if interrupted(image, write, left) && left != image && left != applied(image, write) {
            let n = choose|n: int|
                0 <= n < data.len() && left == applied(image, FileOp::Write { name: tmp, data: #[trigger] data.take(n) });
            assert(left == image.insert(tmp, data.take(n)));
        }
    }
}

/// The directory with the files of tables added.
pub open spec fn with_tables(image: Image, tables: Seq<TableState>) -> Image
    decreases tables.len(),
{
    if tables.len() == 0 {
        image
    } else {
        with_tables(image, tables.drop_last()).insert(tables.last().path, tables.last().bytes)
    }
}

pub open spec fn has_path(tables: Seq<TableState>, name: Seq<char>) -> bool {
    exists|i: int| 0 <= i < tables.len() && (#[trigger] tables[i]).path == name
}

/// Tables of one level, named after their ids, which ascend from `next_id` on.
pub open spec fn are_new(tables: Seq<TableState>, level: int, next_id: int) -> bool {
    &&& 0 <= level <= u32::MAX
    &&& forall|i: int|
        0 <= i < tables.len() ==> (#[trigger] tables[i]).id == next_id + i && tables[i].path == table_name(
            level as u32,
            tables[i].id,
        )
}

proof fn lemma_with_tables(image: Image, tables: Seq<TableState>, level: int, next_id: int)
    requires
        are_new(tables, level, next_id),
    ensures
        forall|name: Seq<char>| #[trigger]
            with_tables(image, tables).dom().contains(name) <==> image.dom().contains(name) || has_path(tables, name),
        forall|i: int|
            0 <= i < tables.len() ==> with_tables(image, tables)[(#[trigger] tables[i]).path] == tables[i].bytes,
        forall|name: Seq<char>| !has_path(tables, name) ==> #[trigger] with_tables(image, tables)[name] == image[name],
    decreases tables.len(),
{
    let after = with_tables(image, tables);
    if tables.len() > 0 {
        let before = tables.drop_last();
        let last = tables.last();
        assert forall|i: int| 0 <= i < before.len() implies (#[trigger] before[i]).id == next_id + i && before[i].path
            == table_name(level as u32, before[i].id) by {
            assert(before[i] == tables[i]);
        }
        lemma_with_tables(image, before, level, next_id);
        let earlier = with_tables(image, before);
        assert forall|name: Seq<char>| has_path(tables, name) <==> (#[trigger] has_path(before, name) || last.path == name) by {
            if has_path(tables, name) {
                let i = choose|i: int| 0 <= i < tables.len() && (#[trigger] tables[i]).path == name;
                if i < before.len() {
                    assert(before[i].path == name);
                }
            }
            if has_path(before, name) {
                let i = choose|i: int| 0 <= i < before.len() && (#[trigger] before[i]).path == name;
                assert(tables[i].path == name);
            }
            if last.path == name {
                assert(tables[tables.len() - 1].path == name);
            }
        }
        assert forall|name: Seq<char>| #[trigger] after.dom().contains(name) <==> image.dom().contains(name) || has_path(
            tables,
            name,
        ) by {
            assert(has_path(tables, name) <==> (has_path(before, name) || last.path == name));
            assert(earlier.dom().contains(name) <==> image.dom().contains(name) || has_path(before, name));
        }
        assert forall|i: int| 0 <= i < tables.len() implies after[(#[trigger] tables[i]).path] == tables[i].bytes by {
            if i < before.len() {
                assert(earlier[before[i].path] == before[i].bytes);
                law_table_name_roundtrip(level as u32, tables[i].id);
                law_table_name_roundtrip(level as u32, last.id);
                assert(tables[tables.len() - 1].id == next_id + tables.len() - 1);
                assert(tables[i].path != last.path);
            }
        }
        assert forall|name: Seq<char>| !has_path(tables, name) implies #[trigger] after[name] == image[name] by {
            assert(has_path(tables, name) <==> (has_path(before, name) || last.path == name));
            assert(earlier[name] == image[name]);
        }
    }
}

/// The log stays as it is, and nothing is left over.
proof fn lemma_with_tables_settled(image: Image, tables: Seq<TableState>, level: int, next_id: int)
    requires
        settled(image),
        are_new(tables, level, next_id),
    ensures
        settled(with_tables(image, tables)),
        log_in(with_tables(image, tables)) == log_in(image),
        cleaned(with_tables(image, tables)) == with_tables(image, tables),
        marker_is_text(with_tables(image, tables)),
        marker_is_sound(with_tables(image, tables)),
{
    let after = with_tables(image, tables);
    lemma_with_tables(image, tables, level, next_id);
    assert forall|name: Seq<char>| #[trigger] has_path(tables, name) implies parse_table_name(name) is Some && !is_tmp(
        name,
    ) && name != pending_name() && name != wal_name() by {
        let i = choose|i: int| 0 <= i < tables.len() && (#[trigger] tables[i]).path == name;
        law_table_name_roundtrip(level as u32, tables[i].id);
        law_names_are_apart(name);
    }
    assert(!has_path(tables, wal_name()));
    assert(after[wal_name()] == image[wal_name()]);
    assert(!has_path(tables, pending_name()));
    assert forall|name: Seq<char>| #[trigger] after.dom().contains(name) implies !is_tmp(name) by {
        assert(image.dom().contains(name) || has_path(tables, name));
    }
    lemma_nothing_left(after);
}

/// Files of new tables make the directory one of the levels with those tables.
pub proof fn lemma_tables_added(
    image: Image,
    tree: TreeState,
    memtable: Seq<Row>,
    tables: Seq<TableState>,
    level: int,
    after: Levels,
)
    requires
        settled(image),
        represents(image, tree, memtable),
        are_new(tables, level, tree.next_id),
        levels_ok(after, tree.next_id + tables.len()),
        level_count_ok(after),
        tree.next_id + tables.len() <= u64::MAX,
        forall|l: int, t: TableState| #[trigger]
            level_at(after, l).contains(t) <==> level_at(tree.levels, l).contains(t) || (l == level && tables.contains(t)),
    ensures
        settled(with_tables(image, tables)),
        represents(
            with_tables(image, tables),
            TreeState { levels: after, next_id: tree.next_id + tables.len() },
            memtable,
        ),
{
    let next_id = tree.next_id;
    let new = with_tables(image, tables);
    lemma_with_tables(image, tables, level, next_id);
    lemma_with_tables_settled(image, tables, level, next_id);
    lemma_nothing_left(image);
    assert forall|name: Seq<char>| #[trigger] has_path(tables, name) implies !image.dom().contains(name) by {
        let i = choose|i: int| 0 <= i < tables.len() && (#[trigger] tables[i]).path == name;
        law_table_name_roundtrip(level as u32, tables[i].id);
        if image.dom().contains(name) {
            assert(is_path_in(tree.levels, name));
            let (l, t) = choose|l: int, t: TableState| #[trigger] level_at(tree.levels, l).contains(t) && t.path == name;
            assert(stored(image, l, t));
            let j = choose|j: int| 0 <= j < level_at(tree.levels, l).len() && level_at(tree.levels, l)[j] == t;
            assert(tree.levels[l][j].id < next_id);
        }
    }
    assert forall|l: int, t: TableState| #[trigger] level_at(after, l).contains(t) implies stored(new, l, t) by {
        if level_at(tree.levels, l).contains(t) {
            assert(stored(image, l, t));
            assert(image.dom().contains(t.path));
            assert(!has_path(tables, t.path));
            assert(new[t.path] == image[t.path]);
            assert(new.dom().contains(t.path));
        } else {
            let i = choose|i: int| 0 <= i < tables.len() && tables[i] == t;
            law_table_name_roundtrip(level as u32, tables[i].id);
            assert(has_path(tables, t.path));
            assert(new.dom().contains(t.path));
            assert(new[tables[i].path] == tables[i].bytes);
        }
    }
    assert forall|name: Seq<char>| #[trigger]
        new.dom().contains(name) && parse_table_name(name) is Some implies is_path_in(after, name) by {
        if has_path(tables, name) {
            let i = choose|i: int| 0 <= i < tables.len() && (#[trigger] tables[i]).path == name;
            assert(tables.contains(tables[i]));
            assert(level_at(after, level).contains(tables[i]));
        } else {
            assert(image.dom().contains(name));
            assert(is_path_in(tree.levels, name));
            let (l, t) = choose|l: int, t: TableState| #[trigger] level_at(tree.levels, l).contains(t) && t.path == name;
            assert(level_at(after, l).contains(t));
        }
    }
}

/// A merge that loses nothing, wherever it is interrupted: with the first of its outputs, and with
/// all of them in place of its inputs, every key has the value that it had.
pub open spec fn safe_job(tree: TreeState, job: Job) -> bool {
    let inputs = job.inputs;
    let next = tree.next_id;
    let after = levels_after(tree.levels, job, next);
    &&& 0 <= job.output_level <= u32::MAX
    &&& inputs_from(tree.levels, inputs)
    &&& forall|n: int| #[trigger] outputs_fit(job, next, n) ==> safe_outputs(tree, job, n)
    &&& job_fits(job, next) ==> {
        &&& levels_ok(after, next + job_groups(job).len())
        &&& level_count_ok(after)
        &&& replaced(tree.levels, inputs, job.output_level, job_outputs(job, next), after)
        &&& forall|key: Seq<char>| value_of(#[trigger] levels_get(after, key)) == value_of(levels_get(tree.levels, key))
    }
}

pub open spec fn safe_outputs(tree: TreeState, job: Job, n: int) -> bool {
    let during = levels_during(tree.levels, job, tree.next_id, n);
    &&& levels_ok(during, tree.next_id + n)
    &&& level_count_ok(during)
    &&& replaced(
        tree.levels,
        Seq::empty(),
        job.output_level,
        job_outputs(job, tree.next_id).take(n),
        during,
    )
    &&& forall|key: Seq<char>| #[trigger] levels_get(during, key) == levels_get(tree.levels, key)
}

proof fn lemma_merged_len(levels: Levels, inputs: Seq<Placed>, output: int, outputs: Seq<TableState>)
    requires
        level_count_ok(levels),
        0 <= output <= u32::MAX,
    ensures
        level_count_ok(merged_levels(levels, inputs, output, outputs)),
{
}

proof fn lemma_no_inputs(levels: Levels)
    ensures
        inputs_from(levels, Seq::empty()),
{
}

/// A merge that is due loses nothing.
pub proof fn law_due_merge_is_safe(tree: TreeState, config: LevelConfig, plan: Plan, target_file_size: int)
    requires
        config.wf(),
        0 <= tree.next_id,
        levels_ok(tree.levels, tree.next_id),
        level_count_ok(tree.levels),
        plan_for(levels_metas(tree.levels), config) == Some(plan),
    ensures
        safe_job(tree, plan_job(tree.levels, plan, target_file_size)),
{
    let levels = tree.levels;
    let next = tree.next_id;
    let job = plan_job(levels, plan, target_file_size);
    lemma_plan_is_leveled(levels, config, plan);
    lemma_no_inputs(levels);
    assert forall|n: int| #[trigger] outputs_fit(job, next, n) implies safe_outputs(tree, job, n) by {
        let outputs = job_outputs(job, next).take(n);
        law_compaction_outputs_are_harmless(levels, next, config, plan, target_file_size, n);
        lemma_fresh_outputs(job, next, n);
        lemma_merged_levels(levels, Seq::empty(), job.output_level, outputs, next, next + n);
        lemma_merged_len(levels, Seq::empty(), job.output_level, outputs);
    }
    if job_fits(job, next) {
        let n = job_groups(job).len() as int;
        let outputs = job_outputs(job, next);
        law_compaction_keeps_contents(levels, next, config, plan, target_file_size);
        assert(job_groups(job).take(n) =~= job_groups(job));
        lemma_fresh_outputs(job, next, n);
        assert(outputs.take(n) =~= outputs);
        lemma_merged_levels(levels, job.inputs, job.output_level, outputs, next, next + n);
    }
}

/// A merge of all tables loses nothing.
pub proof fn law_full_merge_is_safe(tree: TreeState)
    requires
        0 <= tree.next_id,
        levels_ok(tree.levels, tree.next_id),
        level_count_ok(tree.levels),
    ensures
        safe_job(tree, full_job(tree.levels)),
{
    let levels = tree.levels;
    let next = tree.next_id;
    let job = full_job(levels);
    lemma_full_job(levels);
    lemma_no_inputs(levels);
    assert forall|n: int| #[trigger] outputs_fit(job, next, n) implies safe_outputs(tree, job, n) by {
        let outputs = job_outputs(job, next).take(n);
        law_full_compaction_outputs_are_harmless(levels, next, n);
        lemma_fresh_outputs(job, next, n);
        lemma_merged_levels(levels, Seq::empty(), job.output_level, outputs, next, next + n);
        lemma_merged_len(levels, Seq::empty(), job.output_level, outputs);
    }
    if job_fits(job, next) {
        let n = job_groups(job).len() as int;
        let outputs = job_outputs(job, next);
        law_full_compaction_keeps_contents(levels, next);
        assert(job_groups(job).take(n) =~= job_groups(job));
        lemma_fresh_outputs(job, next, n);
        assert(outputs.take(n) =~= outputs);
        lemma_merged_levels(levels, job.inputs, job.output_level, outputs, next, next + n);
    }
}

proof fn lemma_outputs_are_new(job: Job, next_id: int, n: int)
    requires
        outputs_fit(job, next_id, n),
        0 <= next_id,
        0 <= job.output_level <= u32::MAX,
    ensures
        are_new(job_outputs(job, next_id).take(n), job.output_level, next_id),
{
    let outputs = job_outputs(job, next_id).take(n);
    assert forall|i: int| 0 <= i < outputs.len() implies (#[trigger] outputs[i]).id == next_id + i && outputs[i].path
        == table_name(job.output_level as u32, outputs[i].id) by {
        assert(outputs[i] == job_outputs(job, next_id)[i]);
    }
}

/// With the first outputs of a safe merge in place, every key has the value that it had.
pub proof fn lemma_outputs_placed(image: Image, tree: TreeState, memtable: Seq<Row>, job: Job, n: int)
    requires
        settled(image),
        represents(image, tree, memtable),
        safe_job(tree, job),
        outputs_fit(job, tree.next_id, n),
    ensures
        ({
            let outputs = job_outputs(job, tree.next_id).take(n);
            let during = TreeState {
                levels: levels_during(tree.levels, job, tree.next_id, n),
                next_id: tree.next_id + n,
            };
            let placed = with_tables(image, outputs);
            &&& are_new(outputs, job.output_level, tree.next_id)
            &&& settled(placed)
            &&& represents(placed, during, memtable)
            &&& recovers(placed, memtable, tree.levels)
            &&& same_contents(memtable, during.levels, memtable, tree.levels)
        }),
{
    let next = tree.next_id;
    let outputs = job_outputs(job, next).take(n);
    let levels = levels_during(tree.levels, job, next, n);
    let during = TreeState { levels, next_id: next + n };
    let placed = with_tables(image, outputs);
    lemma_outputs_are_new(job, next, n);
    assert(safe_outputs(tree, job, n));
    assert forall|l: int, t: TableState| #[trigger] level_at(levels, l).contains(t) <==> level_at(tree.levels, l).contains(
        t,
    ) || (l == job.output_level && outputs.contains(t)) by {
        if 0 <= l < levels.len() {
            assert(levels[l].contains(t) <==> (level_at(tree.levels, l).contains(t) && !is_input(Seq::empty(), l, t)) || (l
                == job.output_level && outputs.contains(t)));
        }
    }
    lemma_tables_added(image, tree, memtable, outputs, job.output_level, levels);
    assert(same_contents(memtable, levels, memtable, tree.levels)) by {
        assert forall|key: Seq<char>| #[trigger] contents(memtable, levels, key) == contents(memtable, tree.levels, key) by {
            lemma_lookup(memtable, levels, key);
            lemma_lookup(memtable, tree.levels, key);
            assert(levels_get(levels, key) == levels_get(tree.levels, key));
        }
    }
    lemma_recovers(placed, during, memtable, memtable, tree.levels);
}

/// Writing the files of tables, one by one.
pub open spec fn tables_ops(tables: Seq<TableState>) -> Seq<FileOp>
    decreases tables.len(),
{
    if tables.len() == 0 {
        Seq::empty()
    } else {
        tables_ops(tables.drop_last()) + place_ops(tables.last().path, tables.last().bytes)
    }
}

pub proof fn lemma_tables_ops_applied(image: Image, tables: Seq<TableState>, level: int, next_id: int)
    requires
        settled(image),
        are_new(tables, level, next_id),
    ensures
        applied_all(image, tables_ops(tables)) == with_tables(image, tables),
    decreases tables.len(),
{
    if tables.len() > 0 {
        let before = tables.drop_last();
        let last = tables.last();
        assert forall|i: int| 0 <= i < before.len() implies (#[trigger] before[i]).id == next_id + i && before[i].path
            == table_name(level as u32, before[i].id) by {
            assert(before[i] == tables[i]);
        }
        lemma_tables_ops_applied(image, before, level, next_id);
        lemma_with_tables_settled(image, before, level, next_id);
        lemma_applied_concat(image, tables_ops(before), place_ops(last.path, last.bytes));
        let earlier = with_tables(image, before);
        law_names_are_apart(last.path);
        law_placing_is_atomic(earlier, last.path, last.bytes, earlier);
    }
}

/// When the process ends while the outputs of a safe merge are being written, nothing is lost.
pub proof fn lemma_outputs_crash(
    image: Image,
    tree: TreeState,
    memtable: Seq<Row>,
    job: Job,
    n: int,
    left: Image,
)
    requires
        settled(image),
        represents(image, tree, memtable),
        safe_job(tree, job),
        outputs_fit(job, tree.next_id, n),
        crash_leaves(image, tables_ops(job_outputs(job, tree.next_id).take(n)), left),
    ensures
        recovers(left, memtable, tree.levels),
    decreases n,
{
    let next = tree.next_id;
    let outputs = job_outputs(job, next).take(n);
    lemma_outputs_placed(image, tree, memtable, job, n);
    if n == 0 {
        assert(outputs =~= Seq::<TableState>::empty());
        assert(left == image);
        lemma_recovers(image, tree, memtable, memtable, tree.levels);
    } else {
        let before = job_outputs(job, next).take(n - 1);
        let last = outputs.last();
        assert(outputs.drop_last() =~= before);
        assert(outputs_fit(job, next, n - 1)) by {
            let groups = job_groups(job);
            assert forall|i: int| 0 <= i < groups.take(n - 1).len() implies table_len(
                #[trigger] groups.take(n - 1)[i],
                DEFAULT_BLOCK_SIZE,
            ) <= u32::MAX by {
                assert(groups.take(n)[i] == groups.take(n - 1)[i]);
            }
        }
        lemma_outputs_placed(image, tree, memtable, job, n - 1);
        lemma_tables_ops_applied(image, before, job.output_level, next);
        let earlier = with_tables(image, before);
        let place = place_ops(last.path, last.bytes);
        lemma_crash_concat(image, tables_ops(before), place, left);
        if crash_leaves(image, tables_ops(before), left) {
            lemma_outputs_crash(image, tree, memtable, job, n - 1, left);
        } else {
            law_names_are_apart(last.path);
            law_placing_is_atomic(earlier, last.path, last.bytes, left);
            if left != earlier && left != earlier.insert(last.path, last.bytes) {
                let part = choose|part: Seq<u8>| left == #[trigger] earlier.insert(tmp_name(last.path), part);
                let during = TreeState { levels: levels_during(tree.levels, job, next, n - 1), next_id: next + n - 1 };
                lemma_tmp_is_harmless(earlier, during, memtable, tmp_name(last.path), part);
                lemma_recovers(left, during, memtable, memtable, tree.levels);
            }
        }
    }
}

/// The directory with all outputs of a merge and the marker that it is pending.
pub open spec fn marked(image: Image, job: Job, next_id: int) -> Image {
    with_tables(image, job_outputs(job, next_id)).insert(pending_name(), job_marker(job, next_id))
}

proof fn lemma_has_input_id(inputs: Seq<Placed>, id: u64)
    ensures
        input_ids(inputs).contains(id) <==> exists|i: int| 0 <= i < inputs.len() && (#[trigger] inputs[i]).table.id == id,
{
    if input_ids(inputs).contains(id) {
        let i = choose|i: int| 0 <= i < input_ids(inputs).len() && input_ids(inputs)[i] == id;
        assert(inputs[i].table.id == id);
    }
    if exists|i: int| 0 <= i < inputs.len() && (#[trigger] inputs[i]).table.id == id {
        let i = choose|i: int| 0 <= i < inputs.len() && (#[trigger] inputs[i]).table.id == id;
        assert(input_ids(inputs)[i] == id);
    }
}

/// A table of the levels that has the id of an input is that input.
proof fn lemma_input_by_id(levels: Levels, inputs: Seq<Placed>, l: int, t: TableState)
    requires
        unique_ids(levels),
        inputs_from(levels, inputs),
        level_at(levels, l).contains(t),
    ensures
        input_ids(inputs).contains(t.id) <==> is_input(inputs, l, t),
{
    lemma_has_input_id(inputs, t.id);
    let i = choose|i: int| 0 <= i < level_at(levels, l).len() && level_at(levels, l)[i] == t;
    assert(levels[l][i] == t);
    if input_ids(inputs).contains(t.id) {
        let k = choose|k: int| 0 <= k < inputs.len() && (#[trigger] inputs[k]).table.id == t.id;
        let x = inputs[k];
        assert(inputs.contains(x));
        let j = choose|j: int| 0 <= j < level_at(levels, x.level).len() && level_at(levels, x.level)[j] == x.table;
        assert(levels[x.level][j].id == levels[l][i].id);
        assert(x == Placed { level: l, table: t });
    }
    if is_input(inputs, l, t) {
        let k = choose|k: int| 0 <= k < inputs.len() && inputs[k] == Placed { level: l, table: t };
        assert(inputs[k].table.id == t.id);
    }
}

spec fn job_pending(job: Job, next_id: int) -> Pending {
    Pending { outputs: output_ids(job_groups(job).len() as int, next_id), inputs: input_ids(job.inputs) }
}

/// What a directory with the marker of a merge is taken for.
proof fn lemma_marker(image: Image, tree: TreeState, memtable: Seq<Row>, job: Job)
    requires
        settled(image),
        represents(image, tree, memtable),
        safe_job(tree, job),
        job_fits(job, tree.next_id),
    ensures
        ({
            let m = marked(image, job, tree.next_id);
            let pending = job_pending(job, tree.next_id);
            &&& pending_in(m) == Some(pending)
            &&& marker_is_text(m)
            &&& marker_is_sound(m)
            &&& outputs_present(m, pending)
            &&& log_in(m) == log_in(image)
            &&& forall|name: Seq<char>| #[trigger] m.dom().contains(name) ==> !is_tmp(name)
        }),
{
    let next = tree.next_id;
    let n = job_groups(job).len() as int;
    let outputs = job_outputs(job, next);
    let m = marked(image, job, next);
    let pending = job_pending(job, next);
    let text = pending_text(pending.outputs, pending.inputs);
    assert(outputs.take(n) =~= outputs);
    assert(job_groups(job).take(n) =~= job_groups(job));
    lemma_outputs_are_new(job, next, n);
    lemma_with_tables(image, outputs, job.output_level, next);
    lemma_with_tables_settled(image, outputs, job.output_level, next);
    encode_utf8_valid_utf8(text);
    encode_utf8_decode_utf8(text);
    law_pending_roundtrip(pending.outputs, pending.inputs);
    law_names_are_apart(pending_name());
    assert forall|i: int| 0 <= i < pending.outputs.len() implies has_table_file(m, #[trigger] pending.outputs[i])
        && !pending.inputs.contains(pending.outputs[i]) by {
        let id = pending.outputs[i];
        assert(outputs[i].id == id);
        law_table_name_roundtrip(job.output_level as u32, id);
        law_names_are_apart(outputs[i].path);
        assert(has_path(outputs, outputs[i].path));
        assert(m.dom().contains(outputs[i].path));
        assert(is_table_file(outputs[i].path, id));
        lemma_new_id_is_no_input(tree, job.inputs, id);
    }
}

/// No input has an id that is still to be given out.
proof fn lemma_new_id_is_no_input(tree: TreeState, inputs: Seq<Placed>, id: u64)
    requires
        levels_ok(tree.levels, tree.next_id),
        inputs_from(tree.levels, inputs),
        id >= tree.next_id,
    ensures
        !input_ids(inputs).contains(id),
{
    lemma_has_input_id(inputs, id);
    if input_ids(inputs).contains(id) {
        let k = choose|k: int| 0 <= k < inputs.len() && (#[trigger] inputs[k]).table.id == id;
        let x = inputs[k];
        assert(inputs.contains(x));
        let j = choose|j: int|
            0 <= j < level_at(tree.levels, x.level).len() && level_at(tree.levels, x.level)[j] == x.table;
        assert(tree.levels[x.level][j].id < tree.next_id);
    }
}

/// The directory holds no file of a table that is still to be written.
proof fn lemma_new_name_is_free(image: Image, tree: TreeState, memtable: Seq<Row>, level: u32, id: u64)
    requires
        settled(image),
        represents(image, tree, memtable),
        id >= tree.next_id,
    ensures
        !image.dom().contains(table_name(level, id)),
        parse_table_name(table_name(level, id)) == Some((id, level)),
{
    let name = table_name(level, id);
    lemma_nothing_left(image);
    law_table_name_roundtrip(level, id);
    if image.dom().contains(name) {
        assert(is_path_in(tree.levels, name));
        let (l, t) = choose|l: int, t: TableState| #[trigger] level_at(tree.levels, l).contains(t) && t.path == name;
        assert(stored(image, l, t));
        let j = choose|j: int| 0 <= j < level_at(tree.levels, l).len() && level_at(tree.levels, l)[j] == t;
        assert(tree.levels[l][j].id < tree.next_id);
    }
}

/// The outputs of a merge have names that the directory does not hold.
proof fn lemma_output_names(image: Image, tree: TreeState, memtable: Seq<Row>, job: Job, name: Seq<char>)
    requires
        settled(image),
        represents(image, tree, memtable),
        0 <= job.output_level <= u32::MAX,
        inputs_from(tree.levels, job.inputs),
        tree.next_id + job_groups(job).len() <= u64::MAX,
        has_path(job_outputs(job, tree.next_id), name),
    ensures
        !image.dom().contains(name),
        parse_table_name(name) is Some,
        !is_merged_input(name, job_pending(job, tree.next_id)),
{
    let outputs = job_outputs(job, tree.next_id);
    let i = choose|i: int| 0 <= i < outputs.len() && (#[trigger] outputs[i]).path == name;
    lemma_new_name_is_free(image, tree, memtable, job.output_level as u32, outputs[i].id);
    lemma_new_id_is_no_input(tree, job.inputs, outputs[i].id);
}

/// The table files that a directory with the marker is taken to hold.
proof fn lemma_marked_files(image: Image, tree: TreeState, memtable: Seq<Row>, job: Job, name: Seq<char>)
    requires
        settled(image),
        represents(image, tree, memtable),
        safe_job(tree, job),
        job_fits(job, tree.next_id),
        parse_table_name(name) is Some,
    ensures
        ({
            let m = marked(image, job, tree.next_id);
            let outputs = job_outputs(job, tree.next_id);
            let pending = job_pending(job, tree.next_id);
            &&& cleaned(m).dom().contains(name) <==> has_path(outputs, name) || (image.dom().contains(name)
                && !is_merged_input(name, pending))
            &&& m.dom().contains(name) <==> has_path(outputs, name) || image.dom().contains(name)
            &&& cleaned(m).dom().contains(name) ==> cleaned(m)[name] == m[name]
            &&& has_path(outputs, name) ==> !image.dom().contains(name)
            &&& !has_path(outputs, name) ==> m[name] == image[name]
            &&& forall|i: int| 0 <= i < outputs.len() && (#[trigger] outputs[i]).path == name ==> m[name] == outputs[i].bytes
        }),
{
    let next = tree.next_id;
    let n = job_groups(job).len() as int;
    let outputs = job_outputs(job, next);
    assert(outputs.take(n) =~= outputs);
    assert(job_groups(job).take(n) =~= job_groups(job));
    lemma_outputs_are_new(job, next, n);
    lemma_with_tables(image, outputs, job.output_level, next);
    lemma_marker(image, tree, memtable, job);
    law_names_are_apart(name);
    if has_path(outputs, name) {
        lemma_output_names(image, tree, memtable, job, name);
    }
    let all = with_tables(image, outputs);
    assert(all.dom().contains(name) <==> image.dom().contains(name) || has_path(outputs, name));
    if !has_path(outputs, name) {
        assert(all[name] == image[name]);
    }
}

/// With the marker there, the directory is one of the merged tables.
proof fn lemma_marked(image: Image, tree: TreeState, memtable: Seq<Row>, job: Job)
    requires
        settled(image),
        represents(image, tree, memtable),
        safe_job(tree, job),
        job_fits(job, tree.next_id),
    ensures
        represents(marked(image, job, tree.next_id), tree_after(tree, job), memtable),
{
    let next = tree.next_id;
    let c = cleaned(marked(image, job, next));
    let after = levels_after(tree.levels, job, next);
    lemma_marker(image, tree, memtable, job);
    assert forall|l: int, t: TableState| #[trigger] level_at(after, l).contains(t) implies stored(c, l, t) by {
        lemma_marked_table(image, tree, memtable, job, l, t);
    }
    assert forall|name: Seq<char>| #[trigger]
        c.dom().contains(name) && parse_table_name(name) is Some implies is_path_in(after, name) by {
        lemma_marked_name(image, tree, memtable, job, name);
    }
}

proof fn lemma_marked_table(image: Image, tree: TreeState, memtable: Seq<Row>, job: Job, l: int, t: TableState)
    requires
        settled(image),
        represents(image, tree, memtable),
        safe_job(tree, job),
        job_fits(job, tree.next_id),
        level_at(levels_after(tree.levels, job, tree.next_id), l).contains(t),
    ensures
        stored(cleaned(marked(image, job, tree.next_id)), l, t),
{
    let next = tree.next_id;
    let outputs = job_outputs(job, next);
    let after = levels_after(tree.levels, job, next);
    lemma_nothing_left(image);
    assert(after[l].contains(t) <==> (level_at(tree.levels, l).contains(t) && !is_input(job.inputs, l, t)) || (l
        == job.output_level && outputs.contains(t)));
    if level_at(tree.levels, l).contains(t) && !is_input(job.inputs, l, t) {
        assert(stored(image, l, t));
        lemma_input_by_id(tree.levels, job.inputs, l, t);
        lemma_marked_files(image, tree, memtable, job, t.path);
    } else {
        let i = choose|i: int| 0 <= i < outputs.len() && outputs[i] == t;
        law_table_name_roundtrip(job.output_level as u32, outputs[i].id);
        assert(has_path(outputs, t.path));
        lemma_marked_files(image, tree, memtable, job, t.path);
    }
}

proof fn lemma_marked_name(image: Image, tree: TreeState, memtable: Seq<Row>, job: Job, name: Seq<char>)
    requires
        settled(image),
        represents(image, tree, memtable),
        safe_job(tree, job),
        job_fits(job, tree.next_id),
        parse_table_name(name) is Some,
        cleaned(marked(image, job, tree.next_id)).dom().contains(name),
    ensures
        is_path_in(levels_after(tree.levels, job, tree.next_id), name),
{
    let next = tree.next_id;
    let outputs = job_outputs(job, next);
    let after = levels_after(tree.levels, job, next);
    lemma_nothing_left(image);
    lemma_marked_files(image, tree, memtable, job, name);
    if has_path(outputs, name) {
        let i = choose|i: int| 0 <= i < outputs.len() && (#[trigger] outputs[i]).path == name;
        assert(outputs.contains(outputs[i]));
        let l = job.output_level;
        assert(after[l].contains(outputs[i]));
        assert(level_at(after, l).contains(outputs[i]));
    } else {
        assert(is_path_in(tree.levels, name));
        let (l, t) = choose|l: int, t: TableState| #[trigger] level_at(tree.levels, l).contains(t) && t.path == name;
        assert(stored(image, l, t));
        lemma_input_by_id(tree.levels, job.inputs, l, t);
        assert(after[l].contains(t));
        assert(level_at(after, l).contains(t));
    }
}

/// Removing the files of the inputs.
pub open spec fn remove_ops(inputs: Seq<Placed>) -> Seq<FileOp> {
    Seq::new(inputs.len(), |i: int| FileOp::Remove { name: inputs[i].table.path })
}

proof fn lemma_all_removed(image: Image, inputs: Seq<Placed>)
    ensures
        forall|name: Seq<char>| #[trigger]
            applied_all(image, remove_ops(inputs)).dom().contains(name) <==> image.dom().contains(name)
                && !is_removed(remove_ops(inputs), name),
        forall|name: Seq<char>|
            !is_removed(remove_ops(inputs), name) ==> #[trigger] applied_all(image, remove_ops(inputs))[name] == image[name],
    decreases inputs.len(),
{
    let ops = remove_ops(inputs);
    let after = applied_all(image, ops);
    if inputs.len() > 0 {
        let before = remove_ops(inputs.drop_last());
        let gone = inputs.last().table.path;
        lemma_all_removed(image, inputs.drop_last());
        assert(ops.drop_last() =~= before);
        assert(ops.last() == FileOp::Remove { name: gone });
        assert forall|name: Seq<char>| #[trigger] is_removed(ops, name) <==> is_removed(before, name) || name == gone by {
            if is_removed(ops, name) {
                let i = choose|i: int| 0 <= i < ops.len() && ops[i] == FileOp::Remove { name };
                if i < before.len() {
                    assert(before[i] == FileOp::Remove { name });
                }
            }
            if is_removed(before, name) {
                let i = choose|i: int| 0 <= i < before.len() && before[i] == FileOp::Remove { name };
                assert(ops[i] == FileOp::Remove { name });
            }
            if name == gone {
                assert(ops[ops.len() - 1] == FileOp::Remove { name });
            }
        }
        let earlier = applied_all(image, before);
        assert(after == earlier.remove(gone));
        assert forall|name: Seq<char>| #[trigger] after.dom().contains(name) <==> image.dom().contains(name)
            && !is_removed(ops, name) by {
            assert(is_removed(ops, name) <==> is_removed(before, name) || name == gone);
            assert(earlier.dom().contains(name) <==> image.dom().contains(name) && !is_removed(before, name));
        }
        assert forall|name: Seq<char>| !is_removed(ops, name) implies #[trigger] after[name] == image[name] by {
            assert(is_removed(ops, name) <==> is_removed(before, name) || name == gone);
            assert(earlier[name] == image[name]);
        }
    } else {
        assert forall|name: Seq<char>| !#[trigger] is_removed(ops, name) by {}
    }
}

/// The operations of a merge behind the writing of its outputs.
pub open spec fn finish_ops(job: Job, next_id: int) -> Seq<FileOp> {
    place_ops(pending_name(), job_marker(job, next_id)) + remove_ops(job.inputs) + seq![
        FileOp::Remove { name: pending_name() },
    ]
}

/// The directory while a merge is finished, and when it is.
proof fn lemma_finish_applied(image: Image, tree: TreeState, memtable: Seq<Row>, job: Job)
    requires
        settled(image),
        represents(image, tree, memtable),
        safe_job(tree, job),
        job_fits(job, tree.next_id),
    ensures
        ({
            let placed = with_tables(image, job_outputs(job, tree.next_id));
            let m = marked(image, job, tree.next_id);
            let place = place_ops(pending_name(), job_marker(job, tree.next_id));
            let removed = applied_all(m, remove_ops(job.inputs));
            &&& applied_all(placed, place) == m
            &&& applied_all(placed, place + remove_ops(job.inputs)) == removed
            &&& applied_all(placed, finish_ops(job, tree.next_id)) == removed.remove(pending_name())
            &&& !placed.dom().contains(tmp_name(pending_name()))
            &&& represents(removed, tree_after(tree, job), memtable)
        }),
{
    let next = tree.next_id;
    let n = job_groups(job).len() as int;
    let outputs = job_outputs(job, next);
    let placed = with_tables(image, outputs);
    let m = marked(image, job, next);
    let after = tree_after(tree, job);
    let place = place_ops(pending_name(), job_marker(job, next));
    let removals = remove_ops(job.inputs);
    let last = seq![FileOp::Remove { name: pending_name() }];
    assert(outputs.take(n) =~= outputs);
    assert(job_groups(job).take(n) =~= job_groups(job));
    lemma_outputs_are_new(job, next, n);
    lemma_with_tables_settled(image, outputs, job.output_level, next);
    law_names_are_apart(pending_name());
    law_placing_is_atomic(placed, pending_name(), job_marker(job, next), placed);
    lemma_applied_concat(placed, place + removals, last);
    lemma_applied_concat(placed, place, removals);
    let removed = applied_all(m, removals);
    lemma_all_removed(m, job.inputs);
    lemma_inputs_are_leftovers(image, tree, memtable, job);
    lemma_marker(image, tree, memtable, job);
    lemma_marked(image, tree, memtable, job);
    assert(partly_cleaned(m, removed)) by {
        assert forall|name: Seq<char>| #[trigger] removed.dom().contains(name) implies m.dom().contains(name)
            && removed[name] == m[name] by {
            assert(!is_removed(removals, name));
        }
    }
    lemma_partly_cleaned(m, removed);
    lemma_same_files(m, removed, after, memtable);
    assert(applied_all(removed, last) == removed.remove(pending_name())) by {
        assert(last.drop_last() =~= Seq::<FileOp>::empty());
        assert(applied_all(removed, last.drop_last()) == removed);
        assert(last.last() == FileOp::Remove { name: pending_name() });
    }
}

proof fn lemma_merged_contents(tree: TreeState, memtable: Seq<Row>, job: Job)
    requires
        safe_job(tree, job),
        job_fits(job, tree.next_id),
    ensures
        same_contents(memtable, tree_after(tree, job).levels, memtable, tree.levels),
{
    let after = tree_after(tree, job);
    assert forall|key: Seq<char>| #[trigger] contents(memtable, after.levels, key) == contents(
        memtable,
        tree.levels,
        key,
    ) by {
        lemma_lookup(memtable, after.levels, key);
        lemma_lookup(memtable, tree.levels, key);
        assert(value_of(levels_get(after.levels, key)) == value_of(levels_get(tree.levels, key)));
    }
}

/// When the process ends while a safe merge that has written its outputs is finished, nothing is
/// lost; and when it has come to its end, the directory is one of the merged tables.
pub proof fn lemma_finish_crash(image: Image, tree: TreeState, memtable: Seq<Row>, job: Job, left: Image)
    requires
        settled(image),
        represents(image, tree, memtable),
        safe_job(tree, job),
        job_fits(job, tree.next_id),
    ensures
        ({
            let placed = with_tables(image, job_outputs(job, tree.next_id));
            let end = applied_all(placed, finish_ops(job, tree.next_id));
            &&& settled(end)
            &&& represents(end, tree_after(tree, job), memtable)
            &&& same_contents(memtable, tree_after(tree, job).levels, memtable, tree.levels)
            &&& crash_leaves(placed, finish_ops(job, tree.next_id), left) ==> recovers(left, memtable, tree.levels)
        }),
{
    let next = tree.next_id;
    let placed = with_tables(image, job_outputs(job, next));
    let m = marked(image, job, next);
    let after = tree_after(tree, job);
    let place = place_ops(pending_name(), job_marker(job, next));
    let removals = remove_ops(job.inputs);
    let last = seq![FileOp::Remove { name: pending_name() }];
    lemma_merged_contents(tree, memtable, job);
    lemma_finish_applied(image, tree, memtable, job);
    lemma_merge_ended(image, tree, memtable, job);
    if crash_leaves(placed, finish_ops(job, next), left) {
        lemma_crash_concat(placed, place + removals, last, left);
        if crash_leaves(placed, place + removals, left) {
            lemma_crash_concat(placed, place, removals, left);
            if crash_leaves(placed, place, left) {
                lemma_marking_crash(image, tree, memtable, job, left);
            } else {
                lemma_removing_crash(image, tree, memtable, job, left);
            }
        } else {
            let removed = applied_all(m, removals);
            crate::durability::lemma_single_op(removed, FileOp::Remove { name: pending_name() }, left);
            lemma_recovers(left, after, memtable, memtable, tree.levels);
        }
    }
}

proof fn lemma_marking_crash(image: Image, tree: TreeState, memtable: Seq<Row>, job: Job, left: Image)
    requires
        settled(image),
        represents(image, tree, memtable),
        safe_job(tree, job),
        job_fits(job, tree.next_id),
        crash_leaves(
            with_tables(image, job_outputs(job, tree.next_id)),
            place_ops(pending_name(), job_marker(job, tree.next_id)),
            left,
        ),
    ensures
        recovers(left, memtable, tree.levels),
{
    let next = tree.next_id;
    let n = job_groups(job).len() as int;
    let outputs = job_outputs(job, next);
    let placed = with_tables(image, outputs);
    let m = marked(image, job, next);
    assert(outputs.take(n) =~= outputs);
    assert(job_groups(job).take(n) =~= job_groups(job));
    lemma_outputs_placed(image, tree, memtable, job, n);
    law_names_are_apart(pending_name());
    law_placing_is_atomic(placed, pending_name(), job_marker(job, next), left);
    if left == m {
        lemma_marked(image, tree, memtable, job);
        lemma_merged_contents(tree, memtable, job);
        lemma_recovers(left, tree_after(tree, job), memtable, memtable, tree.levels);
    } else if left != placed {
        let part = choose|part: Seq<u8>| left == #[trigger] placed.insert(tmp_name(pending_name()), part);
        let during = TreeState { levels: levels_during(tree.levels, job, next, n), next_id: next + n };
        lemma_tmp_is_harmless(placed, during, memtable, tmp_name(pending_name()), part);
        lemma_recovers(left, during, memtable, memtable, tree.levels);
    }
}

proof fn lemma_removing_crash(image: Image, tree: TreeState, memtable: Seq<Row>, job: Job, left: Image)
    requires
        settled(image),
        represents(image, tree, memtable),
        safe_job(tree, job),
        job_fits(job, tree.next_id),
        crash_leaves(marked(image, job, tree.next_id), remove_ops(job.inputs), left),
    ensures
        recovers(left, memtable, tree.levels),
{
    let next = tree.next_id;
    let m = marked(image, job, next);
    let after = tree_after(tree, job);
    let removals = remove_ops(job.inputs);
    assert forall|i: int| 0 <= i < removals.len() implies #[trigger] removals[i] is Remove by {}
    lemma_removal_crash(m, removals, left);
    lemma_inputs_are_leftovers(image, tree, memtable, job);
    lemma_marker(image, tree, memtable, job);
    lemma_marked(image, tree, memtable, job);
    assert(partly_cleaned(m, left));
    lemma_partly_cleaned(m, left);
    lemma_same_files(m, left, after, memtable);
    lemma_merged_contents(tree, memtable, job);
    lemma_recovers(left, after, memtable, memtable, tree.levels);
}

/// The files of the inputs would go when the directory is opened.
proof fn lemma_inputs_are_leftovers(image: Image, tree: TreeState, memtable: Seq<Row>, job: Job)
    requires
        settled(image),
        represents(image, tree, memtable),
        safe_job(tree, job),
        job_fits(job, tree.next_id),
    ensures
        forall|name: Seq<char>| #[trigger]
            is_removed(remove_ops(job.inputs), name) ==> is_leftover(marked(image, job, tree.next_id), name) && name
                != pending_name() && name != wal_name(),
{
    let next = tree.next_id;
    let m = marked(image, job, next);
    let pending = job_pending(job, next);
    let removals = remove_ops(job.inputs);
    lemma_marker(image, tree, memtable, job);
    lemma_nothing_left(image);
    assert forall|name: Seq<char>| #[trigger] is_removed(removals, name) implies is_leftover(m, name) && name
        != pending_name() && name != wal_name() by {
        let i = choose|i: int| 0 <= i < removals.len() && removals[i] == FileOp::Remove { name };
        let x = job.inputs[i];
        assert(x.table.path == name);
        assert(job.inputs.contains(x));
        assert(stored(image, x.level, x.table));
        assert(input_ids(job.inputs)[i] == x.table.id);
        assert(pending.inputs.contains(x.table.id));
        law_names_are_apart(name);
    }
}

/// Of the files that the marker tells to remove, none is left when the inputs are gone.
proof fn lemma_ended_name(image: Image, tree: TreeState, memtable: Seq<Row>, job: Job, name: Seq<char>)
    requires
        settled(image),
        represents(image, tree, memtable),
        safe_job(tree, job),
        job_fits(job, tree.next_id),
        parse_table_name(name) is Some,
    ensures
        ({
            let m = marked(image, job, tree.next_id);
            let end = applied_all(m, remove_ops(job.inputs)).remove(pending_name());
            &&& cleaned(m).dom().contains(name) <==> end.dom().contains(name)
            &&& cleaned(m).dom().contains(name) ==> cleaned(m)[name] == end[name]
        }),
{
    let next = tree.next_id;
    let m = marked(image, job, next);
    let pending = job_pending(job, next);
    let removals = remove_ops(job.inputs);
    let removed = applied_all(m, removals);
    lemma_nothing_left(image);
    law_names_are_apart(name);
    lemma_marked_files(image, tree, memtable, job, name);
    lemma_all_removed(m, job.inputs);
    lemma_inputs_are_leftovers(image, tree, memtable, job);
    assert(removed.dom().contains(name) <==> m.dom().contains(name) && !is_removed(removals, name));
    if image.dom().contains(name) {
        assert(is_path_in(tree.levels, name));
        let (l, t) = choose|l: int, t: TableState| #[trigger] level_at(tree.levels, l).contains(t) && t.path == name;
        assert(stored(image, l, t));
        lemma_input_by_id(tree.levels, job.inputs, l, t);
        if is_merged_input(name, pending) {
            assert(is_input(job.inputs, l, t));
            let k = choose|k: int| 0 <= k < job.inputs.len() && job.inputs[k] == Placed { level: l, table: t };
            assert(removals[k] == FileOp::Remove { name });
            assert(is_removed(removals, name));
        }
    }
    if is_removed(removals, name) {
        assert(is_leftover(m, name));
    } else {
        assert(removed[name] == m[name]);
    }
}

/// When the inputs and the marker are gone, the directory is one of the merged tables.
proof fn lemma_merge_ended(image: Image, tree: TreeState, memtable: Seq<Row>, job: Job)
    requires
        settled(image),
        represents(image, tree, memtable),
        safe_job(tree, job),
        job_fits(job, tree.next_id),
    ensures
        ({
            let end = applied_all(marked(image, job, tree.next_id), remove_ops(job.inputs)).remove(pending_name());
            settled(end) && represents(end, tree_after(tree, job), memtable)
        }),
{
    let next = tree.next_id;
    let m = marked(image, job, next);
    let removals = remove_ops(job.inputs);
    let removed = applied_all(m, removals);
    let end = removed.remove(pending_name());
    let c = cleaned(m);
    lemma_marker(image, tree, memtable, job);
    lemma_marked(image, tree, memtable, job);
    lemma_all_removed(m, job.inputs);
    lemma_inputs_are_leftovers(image, tree, memtable, job);
    law_names_are_apart(wal_name());
    assert(!is_removed(removals, wal_name()));
    lemma_marked_log(image, tree, memtable, job);
    assert(removed.dom().contains(wal_name()));
    assert(removed[wal_name()] == m[wal_name()]);
    assert(end[wal_name()] == m[wal_name()]);
    assert forall|name: Seq<char>| #[trigger] end.dom().contains(name) implies !is_tmp(name) by {
        assert(removed.dom().contains(name));
        assert(m.dom().contains(name));
    }
    lemma_nothing_left(end);
    assert forall|name: Seq<char>| parse_table_name(name) is Some implies (#[trigger] c.dom().contains(name)
        <==> end.dom().contains(name)) by {
        lemma_ended_name(image, tree, memtable, job, name);
    }
    assert forall|name: Seq<char>| parse_table_name(name) is Some && c.dom().contains(name) implies #[trigger] c[name]
        == end[name] by {
        lemma_ended_name(image, tree, memtable, job, name);
    }
    lemma_same_files(m, end, tree_after(tree, job), memtable);
}

proof fn lemma_marked_log(image: Image, tree: TreeState, memtable: Seq<Row>, job: Job)
    requires
        settled(image),
        represents(image, tree, memtable),
        safe_job(tree, job),
        job_fits(job, tree.next_id),
    ensures
        marked(image, job, tree.next_id).dom().contains(wal_name()),
        marked(image, job, tree.next_id)[wal_name()] == image[wal_name()],
{
    let next = tree.next_id;
    let n = job_groups(job).len() as int;
    let outputs = job_outputs(job, next);
    assert(outputs.take(n) =~= outputs);
    assert(job_groups(job).take(n) =~= job_groups(job));
    lemma_outputs_are_new(job, next, n);
    lemma_with_tables_settled(image, outputs, job.output_level, next);
    law_names_are_apart(wal_name());
}

}
