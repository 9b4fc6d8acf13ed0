//! What merging leaves: every level within its budget, and nothing more to do.
use crate::compaction::{
    at_least, at_level, at_most, law_idle_levels_are_within_budget, lemma_capacity_nonnegative, plan_for, total_size,
    LevelConfig, Meta,
};
use crate::crash::same_contents;
use crate::db::{compacted, compacted_in, config_of, flush_done, flushed, DbModel};
use crate::disk::run_from;
use crate::duty::{bytes_in, law_merge_is_due_over_the_budgets_alone, lemma_filter};
use crate::engine::{due_job, flush_steps, rounds_steps, tree_after_rounds};
use crate::error::Result;
use crate::levels::{level_at, total_bytes, Levels, TableState};
use crate::merge::{law_flush_adds_the_newest, lemma_new_table, level_count_ok, level_metas, levels_metas, new_table};
use crate::steady::{
    coherent, law_compaction_changes_no_value, law_flush_changes_no_value, lemma_flush_fits, none_empty,
};
use vstd::prelude::*;

verus! {

proof fn lemma_at_level_concat(a: Seq<Meta>, b: Seq<Meta>, level: u32)
    ensures
        at_level(a + b, level) == at_level(a, level) + at_level(b, level),
    decreases b.len(),
{
    if b.len() == 0 {
        assert(a + b =~= a);
        assert(at_level(a, level) + at_level(b, level) =~= at_level(a, level));
    } else {
        assert((a + b).drop_last() =~= a + b.drop_last());
        lemma_at_level_concat(a, b.drop_last(), level);
        assert(at_level(a + b, level) =~= at_level(a, level) + at_level(b, level));
    }
}

proof fn lemma_own_metas(files: Seq<TableState>, own: int, level: u32)
    requires
        0 <= own <= u32::MAX,
    ensures
        at_level(level_metas(files, own), level) == (if own == level {
            level_metas(files, own)
        } else {
            Seq::empty()
        }),
    decreases files.len(),
{
    if files.len() > 0 {
        let before = level_metas(files.drop_last(), own);
        let metas = level_metas(files, own);
        lemma_own_metas(files.drop_last(), own, level);
        if files.last().rows().len() > 0 {
            assert(metas.drop_last() =~= before);
        }
    }
}

proof fn lemma_level_of_metas(levels: Levels, level: u32)
    requires
        level_count_ok(levels),
    ensures
        at_level(levels_metas(levels), level) == level_metas(level_at(levels, level as int), level as int),
    decreases levels.len(),
{
    if levels.len() > 0 {
        let before = levels.drop_last();
        let own = levels.len() - 1;
        let none = Seq::<Meta>::empty();
        lemma_level_of_metas(before, level);
        lemma_at_level_concat(levels_metas(before), level_metas(levels.last(), own), level);
        lemma_own_metas(levels.last(), own, level);
        if level == own {
            assert(level_metas(level_at(before, level as int), level as int) =~= none);
            assert(none + level_metas(levels.last(), own) =~= level_metas(levels.last(), own));
        } else {
            assert(level_at(before, level as int) == level_at(levels, level as int));
            assert(at_level(levels_metas(before), level) + none =~= at_level(levels_metas(before), level));
        }
    }
}

proof fn lemma_metas_of_full_tables(files: Seq<TableState>, level: int)
    requires
        forall|i: int| 0 <= i < files.len() ==> (#[trigger] files[i]).rows().len() > 0,
    ensures
        level_metas(files, level).len() == files.len(),
        total_size(level_metas(files, level)) == total_bytes(files),
    decreases files.len(),
{
    if files.len() > 0 {
        let before = files.drop_last();
        assert forall|i: int| 0 <= i < before.len() implies (#[trigger] before[i]).rows().len() > 0 by {
            assert(before[i] == files[i]);
        }
        lemma_metas_of_full_tables(before, level);
        assert(files[files.len() - 1].rows().len() > 0);
        assert(level_metas(files, level).drop_last() =~= level_metas(before, level));
    }
}

/// Where no merge is due and no table is empty, level 0 has fewer tables than the threshold, and the
/// tables of every other level take no more bytes than its budget.
pub proof fn law_idle_tables_are_within_budget(levels: Levels, config: LevelConfig, level: u32)
    requires
        config.wf(),
        level_count_ok(levels),
        none_empty(levels),
        plan_for(levels_metas(levels), config) is None,
    ensures
        level_at(levels, 0).len() < config.l0_compaction_threshold,
        level >= 1 ==> at_most(total_bytes(level_at(levels, level as int)), u64::MAX as int) <= config.capacity(level),
{
    let metas = levels_metas(levels);
    let top = level_at(levels, 0);
    let files = level_at(levels, level as int);
    assert forall|i: int| 0 <= i < top.len() implies (#[trigger] top[i]).rows().len() > 0 by {
        assert(levels[0][i].rows().len() > 0);
    }
    assert forall|i: int| 0 <= i < files.len() implies (#[trigger] files[i]).rows().len() > 0 by {
        assert(levels[level as int][i].rows().len() > 0);
    }
    lemma_level_of_metas(levels, 0);
    lemma_level_of_metas(levels, level);
    lemma_metas_of_full_tables(top, 0);
    lemma_metas_of_full_tables(files, level as int);
    law_idle_levels_are_within_budget(metas, config, if level >= 1 {
        level
    } else {
        1
    });
    if level >= 1 && files.len() == 0 {
        lemma_capacity_nonnegative(config, level);
    }
}

/// After `compact`, level 0 has fewer tables than the threshold, and the tables of every other level
/// take no more bytes than its budget, where no table was empty before. Every key has the value that
/// it had.
pub proof fn law_compaction_leaves_levels_within_budget(before: DbModel, after: DbModel, result: Result<()>, level: u32)
    requires
        coherent(before),
        none_empty(before.tree.levels),
        compacted(before, after, result),
        result is Ok,
    ensures
        level_at(after.tree.levels, 0).len() < at_least(before.options.l0_compaction_threshold as int, 1),
        level >= 1 ==> at_most(total_bytes(level_at(after.tree.levels, level as int)), u64::MAX as int) <= config_of(
            before.options,
        ).capacity(level),
        same_contents(after.memtable, after.tree.levels, before.memtable, before.tree.levels),
{
    let config = config_of(before.options);
    let target = before.options.target_file_size as int;
    let rounds = choose|rounds: nat| compacted_in(before, after, result, rounds);
    assert(due_job(after.tree, config, target) is None);
    law_compaction_changes_no_value(before, after, result);
    law_idle_tables_are_within_budget(after.tree.levels, config, level);
}

/// After a flush that wrote the memtable, level 0 has fewer tables than the threshold, and the
/// tables of every other level take no more bytes than its budget, where no table was empty before.
pub proof fn law_flush_leaves_levels_within_budget(before: DbModel, after: DbModel, result: Result<()>, level: u32)
    requires
        coherent(before),
        none_empty(before.tree.levels),
        before.memtable.len() > 0,
        flushed(before, after, result),
        result is Ok,
    ensures
        level_at(after.tree.levels, 0).len() < at_least(before.options.l0_compaction_threshold as int, 1),
        level >= 1 ==> at_most(total_bytes(level_at(after.tree.levels, level as int)), u64::MAX as int) <= config_of(
            before.options,
        ).capacity(level),
{
    reveal(flushed);
    let config = config_of(before.options);
    let target = before.options.target_file_size as int;
    let run = run_from(before.trail, flush_steps(before.memtable, before.tree.next_id));
    let done = DbModel { trail: run, ..flush_done(before) };
    assert(compacted(done, after, result));
    let rounds = choose|rounds: nat| compacted_in(done, after, result, rounds);
    assert(due_job(after.tree, config, target) is None);
    law_flush_changes_no_value(before, after, result);
    law_idle_tables_are_within_budget(after.tree.levels, config, level);
}

/// Whether level 0 has fewer tables than the threshold, and every deeper level takes no more bytes
/// than its budget.
pub open spec fn within_budgets(levels: Levels, config: LevelConfig) -> bool {
    &&& level_at(levels, 0).len() < config.l0_compaction_threshold
    &&& forall|level: u32| level >= 1 ==> #[trigger] total_bytes(level_at(levels, level as int)) <= config.capacity(level)
}

/// Within the budgets no merge is due.
pub proof fn law_nothing_is_due_within_the_budgets(levels: Levels, config: LevelConfig)
    requires
        config.wf(),
        level_count_ok(levels),
        none_empty(levels),
        within_budgets(levels, config),
    ensures
        plan_for(levels_metas(levels), config) is None,
{
    let metas = levels_metas(levels);
    law_merge_is_due_over_the_budgets_alone(metas, config);
    assert forall|level: u32| level >= 1 implies at_most(#[trigger] bytes_in(metas, level), u64::MAX as int)
        <= config.capacity(level) by {
        lemma_filter(metas, level);
        lemma_level_of_metas(levels, level);
        lemma_none_empty_at(levels, level as int);
        lemma_metas_of_full_tables(level_at(levels, level as int), level as int);
        assert(total_bytes(level_at(levels, level as int)) <= config.capacity(level));
    }
    lemma_filter(metas, 0);
    lemma_level_of_metas(levels, 0);
    lemma_none_empty_at(levels, 0);
    lemma_metas_of_full_tables(level_at(levels, 0), 0);
}

proof fn lemma_none_empty_at(levels: Levels, level: int)
    requires
        none_empty(levels),
    ensures
        forall|i: int| 0 <= i < level_at(levels, level).len() ==> (#[trigger] level_at(levels, level)[i]).rows().len() > 0,
{
    let files = level_at(levels, level);
    assert forall|i: int| 0 <= i < files.len() implies (#[trigger] files[i]).rows().len() > 0 by {
        assert(levels[level][i].rows().len() > 0);
    }
}

/// Within the budgets `compact` does nothing.
pub proof fn law_compaction_within_the_budgets_does_nothing(before: DbModel, after: DbModel, result: Result<()>)
    requires
        coherent(before),
        none_empty(before.tree.levels),
        within_budgets(before.tree.levels, config_of(before.options)),
        compacted(before, after, result),
    ensures
        result is Ok,
        after == before,
{
    let config = config_of(before.options);
    let target = before.options.target_file_size as int;
    law_nothing_is_due_within_the_budgets(before.tree.levels, config);
    lemma_idle(before, after, result);
}

proof fn lemma_idle(before: DbModel, after: DbModel, result: Result<()>)
    requires
        compacted(before, after, result),
        due_job(before.tree, config_of(before.options), before.options.target_file_size as int) is None,
    ensures
        result is Ok,
        after == before,
{
    let config = config_of(before.options);
    let target = before.options.target_file_size as int;
    let n = choose|rounds: nat| compacted_in(before, after, result, rounds);
    if n > 0 {
        assert(due_job(tree_after_rounds(before.tree, config, target, 0), config, target) is Some);
    }
    assert(run_from(before.trail, rounds_steps(before.tree, config, target, 0)) == before.trail);
    assert(after.trail == before.trail);
}

/// A flush after which the levels are within their budgets adds the memtable as one table, the newest
/// of level 0, and leaves every other table alone. The bytes of the new table are counted.
pub proof fn law_flush_adds_one_table(before: DbModel, after: DbModel, result: Result<()>)
    requires
        coherent(before),
        none_empty(before.tree.levels),
        before.memtable.len() > 0,
        flushed(before, after, result),
        result is Ok,
        level_at(before.tree.levels, 0).len() + 1 < config_of(before.options).l0_compaction_threshold,
        within_budgets(before.tree.levels, config_of(before.options)),
    ensures
        after.tree.levels.len() == before.tree.levels.len(),
        after.tree.levels[0].len() == before.tree.levels[0].len() + 1,
        after.tree.levels[0].drop_last() == before.tree.levels[0],
        after.tree.levels[0].last().rows() == before.memtable,
        after.tree.levels[0].last().id == before.tree.next_id,
        forall|l: int| 1 <= l < before.tree.levels.len() ==> #[trigger] after.tree.levels[l] == before.tree.levels[l],
        after.memtable.len() == 0,
        after.wal_size == 0,
        after.counters == before.counters,
        after.tree.next_id == before.tree.next_id + 1,
        after.metrics.bytes_flushed == at_most(
            before.metrics.bytes_flushed + after.tree.levels[0].last().bytes.len(),
            u64::MAX as int,
        ),
        after.metrics.compactions == before.metrics.compactions,
{
    reveal(flushed);
    let next = before.tree.next_id;
    let run = run_from(before.trail, flush_steps(before.memtable, next));
    let done = DbModel { trail: run, ..flush_done(before) };
    assert(compacted(done, after, result));
    let table = new_table(0, next, before.memtable);
    let levels = before.tree.levels;
    let new = done.tree.levels;
    lemma_flush_fits(before.trail, before.memtable, next);
    lemma_new_table(0, next, before.memtable);
    law_flush_adds_the_newest(levels, next, table);
    assert(new[0] == levels[0].push(table));
    assert forall|l: int, i: int| 0 <= l < new.len() && 0 <= i < new[l].len() implies (
    #[trigger] new[l][i]).rows().len() > 0 by {
        if l > 0 || i < levels[0].len() {
            assert(new[l][i] == levels[l][i]);
        }
    }
    assert forall|level: u32| level >= 1 implies #[trigger] total_bytes(level_at(new, level as int)) <= config_of(
        before.options,
    ).capacity(level) by {
        assert(level_at(new, level as int) == level_at(levels, level as int));
        assert(total_bytes(level_at(levels, level as int)) <= config_of(before.options).capacity(level));
    }
    law_nothing_is_due_within_the_budgets(new, config_of(before.options));
    lemma_idle(done, after, result);
    assert(new[0].drop_last() =~= levels[0]);
}

/// After `compact`, another `compact` does nothing.
pub proof fn law_compaction_again_does_nothing(
    before: DbModel,
    middle: DbModel,
    first: Result<()>,
    after: DbModel,
    second: Result<()>,
)
    requires
        compacted(before, middle, first),
        first is Ok,
        compacted(middle, after, second),
    ensures
        second is Ok,
        after == middle,
{
    let config = config_of(before.options);
    let target = before.options.target_file_size as int;
    let m = choose|rounds: nat| compacted_in(before, middle, first, rounds);
    assert(due_job(middle.tree, config, target) is None);
    lemma_idle(middle, after, second);
}

}
