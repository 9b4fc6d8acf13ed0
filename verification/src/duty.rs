//! When a merge is due, and which one.
use crate::compaction::{
    at_level, at_most, deepest_level, largest_key, law_descending_ids, lemma_capacity_nonnegative, oldest_file,
    overlapping_files, oversized, plan_for, plan_from, plan_l0, plan_level, smallest_key, total_size, CompactionPlan,
    FileMeta, LevelConfig, Meta,
};
use crate::keys::{key_le, key_lt};
use crate::merge::{lemma_at_level, lemma_deepest, lemma_oldest, lemma_overlapping, lemma_union_range};
use vstd::arithmetic::power::lemma_pow0;
use vstd::prelude::*;

verus! {

/// How many of the tables are in a level.
pub open spec fn count_in(files: Seq<Meta>, level: u32) -> nat {
    files.filter(|file: Meta| file.level == level).len()
}

/// The bytes that the tables of a level take.
pub open spec fn bytes_in(files: Seq<Meta>, level: u32) -> int {
    files.filter(|file: Meta| file.level == level).fold_left(0, |sum: int, file: Meta| sum + file.size)
}

/// Whether the key ranges of two tables have a key in common.
pub open spec fn ranges_meet(a: Meta, b: Meta) -> bool {
    !key_lt(a.largest, b.smallest) && !key_lt(b.largest, a.smallest)
}

pub proof fn lemma_filter(files: Seq<Meta>, level: u32)
    ensures
        files.filter(|file: Meta| file.level == level) == at_level(files, level),
        bytes_in(files, level) == total_size(at_level(files, level)),
    decreases files.len(),
{
    reveal(Seq::filter);
    let own = |file: Meta| file.level == level;
    if files.len() > 0 {
        lemma_filter(files.drop_last(), level);
    }
    assert(files.filter(own) =~= at_level(files, level));
    lemma_fold(at_level(files, level));
}

proof fn lemma_fold(files: Seq<Meta>)
    ensures
        files.fold_left(0, |sum: int, file: Meta| sum + file.size) == total_size(files),
    decreases files.len(),
{
    reveal(Seq::fold_left);
    if files.len() > 0 {
        lemma_fold(files.drop_last());
    }
}

proof fn lemma_first_oversized(files: Seq<Meta>, config: LevelConfig, from: int)
    requires
        0 <= from <= u32::MAX,
    ensures
        match plan_from(files, config, from) {
            None => forall|level: u32| from <= level && at_level(files, level).len() > 0 ==> !#[trigger] oversized(
                files,
                config,
                level,
            ),
            Some(plan) => {
                &&& from <= plan.level
                &&& oversized(files, config, plan.level)
                &&& plan == plan_level(files, plan.level)
                &&& forall|level: u32| from <= level < plan.level ==> !#[trigger] oversized(files, config, level)
            },
        },
    decreases deepest_level(files) + 1 - from,
{
    if from > deepest_level(files) {
        assert forall|level: u32| from <= level && at_level(files, level).len() > 0 implies !#[trigger] oversized(
            files,
            config,
            level,
        ) by {
            let m = at_level(files, level)[0];
            lemma_at_level(files, level);
            assert(at_level(files, level).contains(m));
            lemma_deepest(files, m);
        }
    } else if !oversized(files, config, from as u32) && from < u32::MAX {
        lemma_first_oversized(files, config, from + 1);
    } else if !oversized(files, config, from as u32) {
        assert(plan_from(files, config, from + 1) is None);
    }
}

/// The budget of level 1 is the target, and that of every deeper level the multiplier times more, cut
/// off at the largest number.
pub proof fn law_budgets_are_multiples_of_the_target(config: LevelConfig, level: u32)
    requires
        config.wf(),
        1 <= level < u32::MAX,
    ensures
        config.capacity(1) == config.target_level_size,
        config.capacity(level) * config.level_size_multiplier <= u64::MAX ==> config.capacity((level + 1) as u32)
            == config.capacity(level) * config.level_size_multiplier,
        config.capacity(level) * config.level_size_multiplier > u64::MAX ==> config.capacity((level + 1) as u32)
            == u64::MAX,
{
    lemma_pow0(config.level_size_multiplier as int);
    crate::compaction::law_capacity_grows(config, level);
}

/// A merge is due just where level 0 has as many tables as the threshold, or the tables of a deeper
/// level take more bytes than its budget. Below that nothing is merged.
pub proof fn law_merge_is_due_over_the_budgets_alone(files: Seq<Meta>, config: LevelConfig)
    requires
        config.wf(),
    ensures
        plan_for(files, config) is Some <==> {
            ||| count_in(files, 0) >= config.l0_compaction_threshold
            ||| exists|level: u32|
                level >= 1 && at_most(#[trigger] bytes_in(files, level), u64::MAX as int) > config.capacity(level)
        },
{
    lemma_filter(files, 0);
    if count_in(files, 0) < config.l0_compaction_threshold {
        lemma_first_oversized(files, config, 1);
        if plan_for(files, config) is Some {
            let level = (plan_for(files, config)->Some_0).level;
            lemma_filter(files, level);
            assert(at_most(bytes_in(files, level), u64::MAX as int) > config.capacity(level));
        }
        assert forall|level: u32|
            level >= 1 && at_most(#[trigger] bytes_in(files, level), u64::MAX as int) > config.capacity(
                level,
            ) implies plan_for(files, config) is Some by {
            lemma_filter(files, level);
            lemma_capacity_nonnegative(config, level);
            if at_level(files, level).len() > 0 {
                assert(oversized(files, config, level));
                if files.len() == 0 {
                    assert(false);
                }
            } else {
                assert(total_size(at_level(files, level)) == 0);
            }
        }
    }
}

proof fn lemma_attained(files: Seq<Meta>)
    requires
        files.len() > 0,
    ensures
        exists|m: Meta| #[trigger] files.contains(m) && m.smallest == smallest_key(files),
        exists|m: Meta| #[trigger] files.contains(m) && m.largest == largest_key(files),
    decreases files.len(),
{
    assert(files.contains(files.last()));
    if files.len() > 1 {
        let before = files.drop_last();
        lemma_attained(before);
        let a = choose|m: Meta| #[trigger] before.contains(m) && m.smallest == smallest_key(before);
        let b = choose|m: Meta| #[trigger] before.contains(m) && m.largest == largest_key(before);
        let i = choose|i: int| 0 <= i < before.len() && before[i] == a;
        let j = choose|j: int| 0 <= j < before.len() && before[j] == b;
        assert(files[i] == a && files[j] == b);
        assert(files.contains(a) && files.contains(b));
    } else {
        assert(files.contains(files[0]));
    }
}

proof fn lemma_deepest_attained(files: Seq<Meta>)
    ensures
        deepest_level(files) > 0 ==> exists|m: Meta| #[trigger] files.contains(m) && m.level == deepest_level(files),
    decreases files.len(),
{
    if files.len() > 0 {
        let before = files.drop_last();
        lemma_deepest_attained(before);
        assert(files.contains(files.last()));
        if deepest_level(files) > 0 && files.last().level != deepest_level(files) {
            let m = choose|m: Meta| #[trigger] before.contains(m) && m.level == deepest_level(before);
            let i = choose|i: int| 0 <= i < before.len() && before[i] == m;
            assert(files[i] == m);
            assert(files.contains(m));
        }
    }
}

proof fn lemma_oldest_is_least(files: Seq<Meta>, m: Meta)
    requires
        files.contains(m),
    ensures
        oldest_file(files).id <= m.id,
    decreases files.len(),
{
    let i = choose|i: int| 0 <= i < files.len() && files[i] == m;
    if files.len() > 1 {
        let before = files.drop_last();
        if i < before.len() {
            assert(before[i] == m);
            lemma_oldest_is_least(before, m);
        }
    }
}

/// The tables that a plan names, told by their ids.
pub open spec fn names_just(ids: Seq<u64>, files: Seq<Meta>, wanted: spec_fn(Meta) -> bool) -> bool {
    &&& forall|m: Meta| #[trigger] files.contains(m) && wanted(m) ==> ids.contains(m.id)
    &&& forall|id: u64| #[trigger] ids.contains(id) ==> exists|m: Meta| #[trigger]
        files.contains(m) && wanted(m) && m.id == id
    &&& forall|i: int, j: int| 0 <= i < j < ids.len() ==> #[trigger] ids[i] >= #[trigger] ids[j]
}

proof fn lemma_names(ids: Seq<u64>, part: Seq<Meta>, files: Seq<Meta>, wanted: spec_fn(Meta) -> bool)
    requires
        ids == crate::compaction::descending_ids(part),
        forall|m: Meta| #[trigger] part.contains(m) <==> files.contains(m) && wanted(m),
    ensures
        names_just(ids, files, wanted),
        ids.len() == part.len(),
{
    law_descending_ids(part);
    assert(ids.len() == part.len()) by {
        broadcast use vstd::seq_lib::group_to_multiset_ensures;

        let all = part.map(|i: int, file: Meta| file.id);
        assert(ids.to_multiset().len() == ids.len());
        assert(all.to_multiset().len() == all.len());
    }
    assert forall|m: Meta| #[trigger] files.contains(m) && wanted(m) implies ids.contains(m.id) by {
        assert(part.contains(m));
        let i = choose|i: int| 0 <= i < part.len() && part[i] == m;
        assert(part[i].id == m.id);
    }
    assert forall|id: u64| #[trigger] ids.contains(id) implies exists|m: Meta| #[trigger]
        files.contains(m) && wanted(m) && m.id == id by {
        let i = choose|i: int| 0 <= i < part.len() && (#[trigger] part[i]).id == id;
        assert(part.contains(part[i]));
        assert(files.contains(part[i]));
    }
}

/// When level 0 has as many tables as the threshold, all of them are merged, the newest first, with
/// the tables of level 1 that lie between their smallest and their largest key. Tombstones go just
/// where no table lies below level 1.
pub proof fn law_full_level_0_is_merged_whole(files: Seq<Meta>, config: LevelConfig)
    requires
        config.wf(),
        count_in(files, 0) >= config.l0_compaction_threshold,
    ensures
        plan_for(files, config) matches Some(plan) && {
            &&& plan.level == 0
            &&& plan.inputs.len() == count_in(files, 0)
            &&& names_just(plan.inputs, files, |m: Meta| m.level == 0)
            &&& names_just(
                plan.overlaps,
                files,
                |m: Meta|
                    m.level == 1 && (exists|a: Meta| #[trigger]
                        files.contains(a) && a.level == 0 && !key_lt(m.largest, a.smallest)) && (exists|b: Meta| #[trigger]
                        files.contains(b) && b.level == 0 && !key_lt(b.largest, m.smallest)),
            )
            &&& plan.drop_tombstones <==> forall|m: Meta| #[trigger] files.contains(m) ==> m.level <= 1
        },
{
    let l0 = at_level(files, 0);
    let plan = plan_l0(files);
    lemma_filter(files, 0);
    lemma_at_level(files, 0);
    lemma_names(plan.inputs, l0, files, |m: Meta| m.level == 0);
    let low = smallest_key(l0);
    let high = largest_key(l0);
    lemma_overlapping(files, 1, low, high);
    lemma_attained(l0);
    let met = |m: Meta|
        m.level == 1 && (exists|a: Meta| #[trigger] files.contains(a) && a.level == 0 && !key_lt(m.largest, a.smallest)) && (
        exists|b: Meta| #[trigger] files.contains(b) && b.level == 0 && !key_lt(b.largest, m.smallest));
    assert forall|m: Meta| #[trigger] overlapping_files(files, 1, low, high).contains(m) <==> files.contains(m) && met(
        m,
    ) by {
        broadcast use crate::keys::group_key_order;

        let a = choose|a: Meta| #[trigger] l0.contains(a) && a.smallest == low;
        let b = choose|b: Meta| #[trigger] l0.contains(b) && b.largest == high;
        assert(files.contains(a) && files.contains(b));
        if files.contains(m) && met(m) {
            let c = choose|c: Meta| #[trigger] files.contains(c) && c.level == 0 && !key_lt(m.largest, c.smallest);
            let d = choose|d: Meta| #[trigger] files.contains(d) && d.level == 0 && !key_lt(d.largest, m.smallest);
            assert(l0.contains(c) && l0.contains(d));
            lemma_union_range(l0, c);
            lemma_union_range(l0, d);
            assert(key_le(low, c.smallest) && key_le(d.largest, high));
            assert(key_le(low, m.largest));
            assert(key_le(m.smallest, high));
        }
    }
    lemma_names(plan.overlaps, overlapping_files(files, 1, low, high), files, met);
    lemma_deepest_attained(files);
    assert forall|m: Meta| #[trigger] files.contains(m) implies m.level <= deepest_level(files) by {
        lemma_deepest(files, m);
    }
}

/// Otherwise the first level that is over its budget gives its oldest table, which is merged with the
/// tables of the next level whose range it meets. Tombstones go just where no table lies deeper.
pub proof fn law_oversized_level_gives_its_oldest_table(files: Seq<Meta>, config: LevelConfig, level: u32)
    requires
        config.wf(),
        count_in(files, 0) < config.l0_compaction_threshold,
        1 <= level < u32::MAX,
        at_most(bytes_in(files, level), u64::MAX as int) > config.capacity(level),
        forall|l: u32| 1 <= l < level ==> bytes_in(files, l) <= config.capacity(l),
    ensures
        plan_for(files, config) matches Some(plan) && {
            &&& plan.level == level
            &&& plan.inputs.len() == 1
            &&& exists|own: Meta|
                {
                    &&& #[trigger] files.contains(own)
                    &&& own.level == level
                    &&& own.id == plan.inputs[0]
                    &&& forall|m: Meta| #[trigger] files.contains(m) && m.level == level ==> own.id <= m.id
                    &&& names_just(plan.overlaps, files, |m: Meta| m.level == level + 1 && ranges_meet(m, own))
                }
            &&& plan.drop_tombstones <==> forall|m: Meta| #[trigger] files.contains(m) ==> m.level <= level + 1
        },
{
    broadcast use crate::keys::group_key_order;

    lemma_filter(files, 0);
    lemma_filter(files, level);
    lemma_capacity_nonnegative(config, level);
    lemma_first_oversized(files, config, 1);
    let here = at_level(files, level);
    assert(here.len() > 0);
    assert(oversized(files, config, level));
    lemma_at_level(files, level);
    lemma_oldest(here);
    let own = oldest_file(here);
    let plan = plan_for(files, config)->Some_0;
    assert(files.len() > 0);
    if plan.level < level {
        lemma_filter(files, plan.level);
    }
    assert(plan == plan_level(files, level));
    assert forall|m: Meta| #[trigger] files.contains(m) && m.level == level implies own.id <= m.id by {
        assert(here.contains(m));
        lemma_oldest_is_least(here, m);
    }
    let next = (level + 1) as u32;
    let part = overlapping_files(files, next, own.smallest, own.largest);
    let met = |m: Meta| m.level == level + 1 && ranges_meet(m, own);
    lemma_overlapping(files, next, own.smallest, own.largest);
    assert forall|m: Meta| #[trigger] part.contains(m) <==> files.contains(m) && met(m) by {}
    lemma_names(plan.overlaps, part, files, met);
    lemma_deepest_attained(files);
    assert forall|m: Meta| #[trigger] files.contains(m) implies m.level <= deepest_level(files) by {
        lemma_deepest(files, m);
    }
    assert(files.contains(own));
}

/// A table is described to the choice of a merge by what its fields say, and a plan says what its fields
/// say.
pub proof fn law_fields_mean_what_they_say(file: FileMeta, plan: CompactionPlan)
    ensures
        file.meta().id == file.id,
        file.meta().level == file.level,
        file.meta().smallest == file.smallest@,
        file.meta().largest == file.largest@,
        file.meta().size == file.size,
        plan.plan().level == plan.level,
        plan.plan().inputs == plan.inputs@,
        plan.plan().overlaps == plan.overlaps@,
        plan.plan().drop_tombstones == plan.drop_tombstones,
{
}

}
