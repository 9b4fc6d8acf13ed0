//! Which tables to merge next.
use crate::keys::{key_le, key_lt, str_le, str_lt};
use vstd::arithmetic::power::{lemma_pow1, lemma_pow_adds, pow};
use vstd::prelude::*;

verus! {

/// When a level is due for compaction.
#[derive(Debug, Clone, PartialEq)]
pub struct LevelConfig {
    pub l0_compaction_threshold: usize,
    pub level_size_multiplier: u64,
    pub target_level_size: u64,
}

/// What the choice of a compaction depends on, of one table.
#[derive(Debug, Clone, PartialEq)]
pub struct FileMeta {
    pub id: u64,
    pub level: u32,
    pub smallest: String,
    pub largest: String,
    pub size: usize,
}

/// Merge the tables `inputs` of `level` and the tables `overlaps` of the next level into the
/// next level.
#[derive(Debug, Clone, PartialEq)]
pub struct CompactionPlan {
    pub level: u32,
    pub inputs: Vec<u64>,
    pub overlaps: Vec<u64>,
    pub drop_tombstones: bool,
}

pub struct Meta {
    pub id: u64,
    pub level: u32,
    pub smallest: Seq<char>,
    pub largest: Seq<char>,
    pub size: int,
}

pub struct Plan {
    pub level: u32,
    pub inputs: Seq<u64>,
    pub overlaps: Seq<u64>,
    pub drop_tombstones: bool,
}

impl FileMeta {
    pub open spec fn meta(&self) -> Meta {
        Meta {
            id: self.id,
            level: self.level,
            smallest: self.smallest@,
            largest: self.largest@,
            size: self.size as int,
        }
    }
}

impl CompactionPlan {
    pub open spec fn plan(&self) -> Plan {
        Plan {
            level: self.level,
            inputs: self.inputs@,
            overlaps: self.overlaps@,
            drop_tombstones: self.drop_tombstones,
        }
    }
}

pub open spec fn metas_of(files: Seq<FileMeta>) -> Seq<Meta> {
    Seq::new(files.len(), |i: int| files[i].meta())
}

spec fn metas_of_refs(files: Seq<&FileMeta>) -> Seq<Meta> {
    Seq::new(files.len(), |i: int| files[i].meta())
}

pub open spec fn at_most(n: int, max: int) -> int {
    if n < max {
        n
    } else {
        max
    }
}

pub open spec fn at_least(n: int, min: int) -> int {
    if n < min {
        min
    } else {
        n
    }
}

impl LevelConfig {
    /// Values with which compaction comes to an end.
    pub open spec fn wf(&self) -> bool {
        &&& self.l0_compaction_threshold >= 1
        &&& self.level_size_multiplier >= 2
        &&& self.target_level_size >= 1
    }

    /// The bytes that a level may hold: the target for level 1, and the multiplier times more
    /// for every level below it.
    pub open spec fn capacity(&self, level: u32) -> int {
        let steps = if level == 0 { 0 } else { (level - 1) as nat };
        at_most(self.target_level_size * pow(self.level_size_multiplier as int, steps), u64::MAX as int)
    }

    pub fn new(l0_compaction_threshold: usize, level_size_multiplier: usize, target_level_size: usize) -> (config: Self)
        ensures
            config.wf(),
            config.l0_compaction_threshold == at_least(l0_compaction_threshold as int, 1),
            config.level_size_multiplier == at_least(level_size_multiplier as int, 2),
            config.target_level_size == at_least(target_level_size as int, 1),
    {
        LevelConfig {
            l0_compaction_threshold: if l0_compaction_threshold < 1 {
                1
            } else {
                l0_compaction_threshold
            },
            level_size_multiplier: if level_size_multiplier < 2 {
                2
            } else {
                level_size_multiplier as u64
            },
            target_level_size: if target_level_size < 1 {
                1
            } else {
                target_level_size as u64
            },
        }
    }

    pub fn level_capacity(&self, level: u32) -> (capacity: u64)
        ensures
            capacity == self.capacity(level),
    {
        let mut capacity: u64 = self.target_level_size;
        let mut i: u32 = 1;
        let ghost target = self.target_level_size as int;
        let ghost multiplier = self.level_size_multiplier as int;
        proof {
            vstd::arithmetic::power::lemma_pow0(multiplier);
        }
        while i < level
            invariant
                1 <= i,
                i <= level || level == 0,
                level == 0 ==> i == 1,
                target == self.target_level_size,
                multiplier == self.level_size_multiplier,
                capacity == at_most(target * pow(multiplier, (i - 1) as nat), u64::MAX as int),
            decreases level - i,
        {
            let ghost exact = target * pow(multiplier, (i - 1) as nat);
            proof {
                lemma_pow1(multiplier);
                lemma_pow_adds(multiplier, (i - 1) as nat, 1);
                vstd::arithmetic::mul::lemma_mul_is_associative(target, pow(multiplier, (i - 1) as nat), multiplier);
                lemma_pow_nonnegative(multiplier, (i - 1) as nat);
                vstd::arithmetic::mul::lemma_mul_nonnegative(target, pow(multiplier, (i - 1) as nat));
                lemma_saturating_step(exact, multiplier, u64::MAX as int);
            }
            capacity = match capacity.checked_mul(self.level_size_multiplier) {
                Some(product) => product,
                None => u64::MAX,
            };
            i = i + 1;
        }
        capacity
    }
}

proof fn lemma_pow_nonnegative(base: int, e: nat)
    requires
        base >= 0,
    ensures
        pow(base, e) >= 0,
    decreases e,
{
    reveal(pow);
    if e > 0 {
        lemma_pow_nonnegative(base, (e - 1) as nat);
        vstd::arithmetic::mul::lemma_mul_nonnegative(base, pow(base, (e - 1) as nat));
    }
}

pub proof fn lemma_capacity_nonnegative(config: LevelConfig, level: u32)
    ensures
        config.capacity(level) >= 0,
{
    let multiplier = config.level_size_multiplier as int;
    let steps = if level == 0 {
        0
    } else {
        (level - 1) as nat
    };
    lemma_pow_nonnegative(multiplier, steps);
    vstd::arithmetic::mul::lemma_mul_nonnegative(config.target_level_size as int, pow(multiplier, steps));
}

/// Cutting off at `max` after every multiplication and cutting off at the end are the same.
proof fn lemma_saturating_step(n: int, multiplier: int, max: int)
    requires
        n >= 0,
        multiplier >= 0,
        max >= 0,
    ensures
        at_most(at_most(n, max) * multiplier, max) == at_most(n * multiplier, max),
{
    if n > max {
        assert(n * multiplier >= max * multiplier) by (nonlinear_arith)
            requires
                n > max,
                multiplier >= 0,
        ;
        if multiplier >= 1 {
            assert(max * multiplier >= max) by (nonlinear_arith)
                requires
                    max >= 0,
                    multiplier >= 1,
            ;
        } else {
            assert(n * multiplier == 0) by (nonlinear_arith)
                requires
                    multiplier == 0,
            ;
            assert(max * multiplier == 0) by (nonlinear_arith)
                requires
                    multiplier == 0,
            ;
        }
    }
}

/// The budget of a deeper level is at least that of the level above it.
pub proof fn law_capacity_grows(config: LevelConfig, level: u32)
    requires
        config.wf(),
        1 <= level < u32::MAX,
    ensures
        config.capacity(level) <= config.capacity((level + 1) as u32),
        config.capacity((level + 1) as u32) == at_most(
            config.capacity(level) * config.level_size_multiplier,
            u64::MAX as int,
        ),
{
    let target = config.target_level_size as int;
    let multiplier = config.level_size_multiplier as int;
    let before = pow(multiplier, (level - 1) as nat);
    lemma_pow1(multiplier);
    lemma_pow_adds(multiplier, (level - 1) as nat, 1);
    lemma_pow_nonnegative(multiplier, (level - 1) as nat);
    vstd::arithmetic::mul::lemma_mul_is_associative(target, before, multiplier);
    vstd::arithmetic::mul::lemma_mul_nonnegative(target, before);
    lemma_saturating_step(target * before, multiplier, u64::MAX as int);
    let cap = config.capacity(level);
    assert(cap <= cap * multiplier) by (nonlinear_arith)
        requires
            cap >= 0,
            multiplier >= 2,
    ;
}

/// From level 65 on a level may hold anything.
pub proof fn law_capacity_is_unbounded_in_the_deep(config: LevelConfig, level: u32)
    requires
        config.wf(),
        level >= 65,
    ensures
        config.capacity(level) == u64::MAX,
{
    let target = config.target_level_size as int;
    let multiplier = config.level_size_multiplier as int;
    let steps = (level - 1) as nat;
    lemma_pow_at_least(multiplier, steps);
    lemma_two_to_64(steps);
    let product = pow(multiplier, steps);
    assert(target * product >= product) by (nonlinear_arith)
        requires
            target >= 1,
            product >= 0,
    ;
}

proof fn lemma_pow_at_least(multiplier: int, e: nat)
    requires
        multiplier >= 2,
    ensures
        pow(multiplier, e) >= pow(2, e) > 0,
    decreases e,
{
    reveal(pow);
    if e > 0 {
        lemma_pow_at_least(multiplier, (e - 1) as nat);
        let a = pow(multiplier, (e - 1) as nat);
        let b = pow(2, (e - 1) as nat);
        assert(multiplier * a >= 2 * b) by (nonlinear_arith)
            requires
                multiplier >= 2,
                a >= b,
                b > 0,
        ;
    }
}

proof fn lemma_two_to_64(e: nat)
    requires
        e >= 64,
    ensures
        pow(2, e) > u64::MAX,
    decreases e,
{
    reveal(pow);
    if e > 64 {
        lemma_two_to_64((e - 1) as nat);
    } else {
        reveal_with_fuel(pow, 65);
        assert(pow(2, 64) == 18446744073709551616);
    }
}

/// The tables of a level.
pub open spec fn at_level(files: Seq<Meta>, level: u32) -> Seq<Meta>
    decreases files.len(),
{
    if files.len() == 0 {
        Seq::empty()
    } else {
        let before = at_level(files.drop_last(), level);
        if files.last().level == level {
            before.push(files.last())
        } else {
            before
        }
    }
}

pub open spec fn overlaps(file: Meta, level: u32, smallest: Seq<char>, largest: Seq<char>) -> bool {
    file.level == level && key_le(file.smallest, largest) && key_le(smallest, file.largest)
}

/// The tables of a level whose key range meets the one between `smallest` and `largest`.
pub open spec fn overlapping_files(files: Seq<Meta>, level: u32, smallest: Seq<char>, largest: Seq<char>) -> Seq<Meta>
    decreases files.len(),
{
    if files.len() == 0 {
        Seq::empty()
    } else {
        let before = overlapping_files(files.drop_last(), level, smallest, largest);
        if overlaps(files.last(), level, smallest, largest) {
            before.push(files.last())
        } else {
            before
        }
    }
}

/// The deepest level that has a table.
pub open spec fn deepest_level(files: Seq<Meta>) -> u32
    decreases files.len(),
{
    if files.len() == 0 {
        0
    } else {
        let before = deepest_level(files.drop_last());
        if files.last().level > before {
            files.last().level
        } else {
            before
        }
    }
}

pub open spec fn smallest_key(files: Seq<Meta>) -> Seq<char>
    decreases files.len(),
{
    if files.len() <= 1 {
        files[0].smallest
    } else {
        let before = smallest_key(files.drop_last());
        if key_lt(files.last().smallest, before) {
            files.last().smallest
        } else {
            before
        }
    }
}

pub open spec fn largest_key(files: Seq<Meta>) -> Seq<char>
    decreases files.len(),
{
    if files.len() <= 1 {
        files[0].largest
    } else {
        let before = largest_key(files.drop_last());
        if key_lt(before, files.last().largest) {
            files.last().largest
        } else {
            before
        }
    }
}

pub open spec fn total_size(files: Seq<Meta>) -> int
    decreases files.len(),
{
    if files.len() == 0 {
        0
    } else {
        total_size(files.drop_last()) + files.last().size
    }
}

/// The table with the smallest id.
pub open spec fn oldest_file(files: Seq<Meta>) -> Meta
    decreases files.len(),
{
    if files.len() <= 1 {
        files[0]
    } else {
        let before = oldest_file(files.drop_last());
        if files.last().id < before.id {
            files.last()
        } else {
            before
        }
    }
}

/// `ids`, which descend, with `id` at its place.
pub open spec fn insert_descending(ids: Seq<u64>, id: u64) -> Seq<u64>
    decreases ids.len(),
{
    if ids.len() == 0 {
        seq![id]
    } else if ids.last() >= id {
        ids.push(id)
    } else {
        insert_descending(ids.drop_last(), id).push(ids.last())
    }
}

/// The ids of the tables, from the largest to the smallest.
pub open spec fn descending_ids(files: Seq<Meta>) -> Seq<u64>
    decreases files.len(),
{
    if files.len() == 0 {
        Seq::empty()
    } else {
        insert_descending(descending_ids(files.drop_last()), files.last().id)
    }
}

/// Merge all tables of level 0 with the tables of level 1 that they meet.
pub open spec fn plan_l0(files: Seq<Meta>) -> Plan {
    let l0 = at_level(files, 0);
    Plan {
        level: 0,
        inputs: descending_ids(l0),
        overlaps: descending_ids(overlapping_files(files, 1, smallest_key(l0), largest_key(l0))),
        drop_tombstones: deepest_level(files) <= 1,
    }
}

/// Merge the oldest table of a level with the tables of the next level that it meets.
pub open spec fn plan_level(files: Seq<Meta>, level: u32) -> Plan {
    let input = oldest_file(at_level(files, level));
    Plan {
        level,
        inputs: seq![input.id],
        overlaps: descending_ids(overlapping_files(files, (level + 1) as u32, input.smallest, input.largest)),
        drop_tombstones: deepest_level(files) <= level + 1,
    }
}

/// Whether a level holds more bytes than its budget.
pub open spec fn oversized(files: Seq<Meta>, config: LevelConfig, level: u32) -> bool {
    &&& at_level(files, level).len() > 0
    &&& at_most(total_size(at_level(files, level)), u64::MAX as int) > config.capacity(level)
}

/// The compaction for the first oversized level from `level` on.
pub open spec fn plan_from(files: Seq<Meta>, config: LevelConfig, level: int) -> Option<Plan>
    decreases deepest_level(files) + 1 - level,
{
    if level > deepest_level(files) {
        None
    } else if oversized(files, config, level as u32) {
        Some(plan_level(files, level as u32))
    } else {
        plan_from(files, config, level + 1)
    }
}

/// The compaction that is due, if one is.
pub open spec fn plan_for(files: Seq<Meta>, config: LevelConfig) -> Option<Plan> {
    if files.len() == 0 {
        None
    } else if at_level(files, 0).len() >= config.l0_compaction_threshold {
        Some(plan_l0(files))
    } else {
        plan_from(files, config, 1)
    }
}

proof fn lemma_deepest_at_level(files: Seq<Meta>, level: u32)
    requires
        at_level(files, level).len() > 0,
    ensures
        level <= deepest_level(files),
    decreases files.len(),
{
    if files.len() > 0 && at_level(files.drop_last(), level).len() > 0 {
        lemma_deepest_at_level(files.drop_last(), level);
    }
}

proof fn lemma_plan_from_none(files: Seq<Meta>, config: LevelConfig, from: int, level: u32)
    requires
        plan_from(files, config, from) is None,
        0 <= from <= level,
    ensures
        !oversized(files, config, level),
    decreases deepest_level(files) + 1 - from,
{
    if at_level(files, level).len() > 0 {
        lemma_deepest_at_level(files, level);
        if from < level {
            lemma_plan_from_none(files, config, from + 1, level);
        }
    }
}

/// When no merge is due, level 0 has fewer tables than the threshold, and every other level is
/// within its budget.
pub proof fn law_idle_levels_are_within_budget(files: Seq<Meta>, config: LevelConfig, level: u32)
    requires
        config.wf(),
        plan_for(files, config) is None,
        level >= 1,
    ensures
        at_level(files, 0).len() < config.l0_compaction_threshold,
        !oversized(files, config, level),
{
    if files.len() > 0 {
        lemma_plan_from_none(files, config, 1, level);
    }
}

/// The compaction that is due, if one is.
pub fn pick_compaction(files: &[FileMeta], config: &LevelConfig) -> (plan: Option<CompactionPlan>)
    requires
        config.wf(),
    ensures
        match plan_for(metas_of(files@), *config) {
            Some(due) => plan matches Some(plan) && plan.plan() == due,
            None => plan is None,
        },
{
    let ghost metas = metas_of(files@);
    if files.len() == 0 {
        return None;
    }
    let deepest: u32 = deepest_of(files);
    let l0 = files_at(files, 0);
    if l0.len() >= config.l0_compaction_threshold {
        let (smallest, largest) = union_range(&l0);
        let overlaps = overlapping(files, 1, smallest, largest);
        return Some(
            CompactionPlan { level: 0, inputs: ids(&l0), overlaps: ids(&overlaps), drop_tombstones: deepest <= 1 },
        );
    }
    let mut level: u32 = 1;
    while level <= deepest
        invariant
            config.wf(),
            metas == metas_of(files@),
            deepest == deepest_level(metas),
            1 <= level,
            plan_from(metas, *config, level as int) == plan_for(metas, *config),
        decreases deepest + 1 - level,
    {
        let level_files = files_at(files, level);
        if level_files.len() > 0 && size_of(&level_files) > config.level_capacity(level) {
            proof {
                if level >= 65 {
                    law_capacity_is_unbounded_in_the_deep(*config, level);
                }
            }
            let input = oldest(&level_files);
            let overlaps = overlapping(files, level + 1, input.smallest.as_str(), input.largest.as_str());
            let mut inputs: Vec<u64> = Vec::new();
            inputs.push(input.id);
            proof {
                assert(inputs@ =~= seq![input.id]);
            }
            return Some(
                CompactionPlan { level, inputs, overlaps: ids(&overlaps), drop_tombstones: deepest <= level + 1 },
            );
        }
        if level == deepest {
            assert(plan_from(metas, *config, level + 1) is None);
            return None;
        }
        level = level + 1;
    }
    None
}

fn deepest_of(files: &[FileMeta]) -> (deepest: u32)
    ensures
        deepest == deepest_level(metas_of(files@)),
{
    let ghost metas = metas_of(files@);
    let mut deepest: u32 = 0;
    let mut i: usize = 0;
    proof {
        assert(metas.take(0) =~= Seq::<Meta>::empty());
    }
    while i < files.len()
        invariant
            i <= files@.len(),
            metas == metas_of(files@),
            deepest == deepest_level(metas.take(i as int)),
        decreases files@.len() - i,
    {
        proof {
            assert(metas.take(i + 1).drop_last() =~= metas.take(i as int));
        }
        if files[i].level > deepest {
            deepest = files[i].level;
        }
        i = i + 1;
    }
    proof {
        assert(metas.take(i as int) =~= metas);
    }
    deepest
}

fn files_at(files: &[FileMeta], level: u32) -> (found: Vec<&FileMeta>)
    ensures
        metas_of_refs(found@) == at_level(metas_of(files@), level),
{
    let ghost metas = metas_of(files@);
    let mut found: Vec<&FileMeta> = Vec::new();
    let mut i: usize = 0;
    proof {
        assert(metas.take(0) =~= Seq::<Meta>::empty());
        assert(metas_of_refs(found@) =~= Seq::<Meta>::empty());
    }
    while i < files.len()
        invariant
            i <= files@.len(),
            metas == metas_of(files@),
            metas_of_refs(found@) == at_level(metas.take(i as int), level),
        decreases files@.len() - i,
    {
        proof {
            assert(metas.take(i + 1).drop_last() =~= metas.take(i as int));
        }
        let ghost before = found@;
        if files[i].level == level {
            found.push(&files[i]);
            proof {
                assert(metas_of_refs(found@) =~= metas_of_refs(before).push(metas[i as int]));
            }
        }
        i = i + 1;
    }
    proof {
        assert(metas.take(i as int) =~= metas);
    }
    found
}

fn overlapping<'a>(files: &'a [FileMeta], level: u32, smallest: &str, largest: &str) -> (found: Vec<&'a FileMeta>)
    ensures
        metas_of_refs(found@) == overlapping_files(metas_of(files@), level, smallest@, largest@),
{
    let ghost metas = metas_of(files@);
    let mut found: Vec<&'a FileMeta> = Vec::new();
    let mut i: usize = 0;
    proof {
        assert(metas.take(0) =~= Seq::<Meta>::empty());
        assert(metas_of_refs(found@) =~= Seq::<Meta>::empty());
    }
    while i < files.len()
        invariant
            i <= files@.len(),
            metas == metas_of(files@),
            metas_of_refs(found@) == overlapping_files(metas.take(i as int), level, smallest@, largest@),
        decreases files@.len() - i,
    {
        proof {
            assert(metas.take(i + 1).drop_last() =~= metas.take(i as int));
        }
        let ghost before = found@;
        let file = &files[i];
        if file.level == level && str_le(file.smallest.as_str(), largest) && str_le(smallest, file.largest.as_str()) {
            found.push(file);
            proof {
                assert(metas_of_refs(found@) =~= metas_of_refs(before).push(metas[i as int]));
            }
        }
        i = i + 1;
    }
    proof {
        assert(metas.take(i as int) =~= metas);
    }
    found
}

fn union_range<'a>(files: &Vec<&'a FileMeta>) -> (range: (&'a str, &'a str))
    requires
        files@.len() > 0,
    ensures
        range.0@ == smallest_key(metas_of_refs(files@)),
        range.1@ == largest_key(metas_of_refs(files@)),
{
    let ghost metas = metas_of_refs(files@);
    let mut smallest: &'a str = files[0].smallest.as_str();
    let mut largest: &'a str = files[0].largest.as_str();
    let mut i: usize = 1;
    while i < files.len()
        invariant
            1 <= i <= files@.len(),
            metas == metas_of_refs(files@),
            smallest@ == smallest_key(metas.take(i as int)),
            largest@ == largest_key(metas.take(i as int)),
        decreases files@.len() - i,
    {
        proof {
            assert(metas.take(i + 1).drop_last() =~= metas.take(i as int));
        }
        let file = files[i];
        if str_lt(file.smallest.as_str(), smallest) {
            smallest = file.smallest.as_str();
        }
        if str_lt(largest, file.largest.as_str()) {
            largest = file.largest.as_str();
        }
        i = i + 1;
    }
    proof {
        assert(metas.take(i as int) =~= metas);
    }
    (smallest, largest)
}

/// The bytes of the tables together, as far as 64 bits can tell.
fn size_of(files: &Vec<&FileMeta>) -> (size: u64)
    ensures
        size == at_most(total_size(metas_of_refs(files@)), u64::MAX as int),
{
    let ghost metas = metas_of_refs(files@);
    let mut size: u64 = 0;
    let mut i: usize = 0;
    proof {
        assert(metas.take(0) =~= Seq::<Meta>::empty());
    }
    while i < files.len()
        invariant
            i <= files@.len(),
            metas == metas_of_refs(files@),
            size == at_most(total_size(metas.take(i as int)), u64::MAX as int),
        decreases files@.len() - i,
    {
        proof {
            assert(metas.take(i + 1).drop_last() =~= metas.take(i as int));
        }
        size = size.saturating_add(files[i].size as u64);
        i = i + 1;
    }
    proof {
        assert(metas.take(i as int) =~= metas);
    }
    size
}

fn oldest<'a>(files: &Vec<&'a FileMeta>) -> (file: &'a FileMeta)
    requires
        files@.len() > 0,
    ensures
        file.meta() == oldest_file(metas_of_refs(files@)),
{
    let ghost metas = metas_of_refs(files@);
    let mut file: &'a FileMeta = files[0];
    let mut i: usize = 1;
    while i < files.len()
        invariant
            1 <= i <= files@.len(),
            metas == metas_of_refs(files@),
            file.meta() == oldest_file(metas.take(i as int)),
        decreases files@.len() - i,
    {
        proof {
            assert(metas.take(i + 1).drop_last() =~= metas.take(i as int));
        }
        if files[i].id < file.id {
            file = files[i];
        }
        i = i + 1;
    }
    proof {
        assert(metas.take(i as int) =~= metas);
    }
    file
}

/// The ids of the tables, from the largest to the smallest.
fn ids(files: &Vec<&FileMeta>) -> (sorted_ids: Vec<u64>)
    ensures
        sorted_ids@ == descending_ids(metas_of_refs(files@)),
{
    let ghost metas = metas_of_refs(files@);
    let mut sorted_ids: Vec<u64> = Vec::new();
    let mut i: usize = 0;
    proof {
        assert(metas.take(0) =~= Seq::<Meta>::empty());
    }
    while i < files.len()
        invariant
            i <= files@.len(),
            metas == metas_of_refs(files@),
            sorted_ids@ == descending_ids(metas.take(i as int)),
        decreases files@.len() - i,
    {
        proof {
            assert(metas.take(i + 1).drop_last() =~= metas.take(i as int));
        }
        insert_id(&mut sorted_ids, files[i].id);
        i = i + 1;
    }
    proof {
        assert(metas.take(i as int) =~= metas);
    }
    sorted_ids
}

fn insert_id(ids: &mut Vec<u64>, id: u64)
    ensures
        final(ids)@ == insert_descending(old(ids)@, id),
{
    let ghost all = ids@;
    let mut at: usize = ids.len();
    proof {
        assert(all.take(at as int) =~= all);
        assert(insert_descending(all, id) + all.skip(at as int) =~= insert_descending(all, id));
    }
    while at > 0 && ids[at - 1] < id
        invariant
            all == ids@,
            all == old(ids)@,
            at <= all.len(),
            insert_descending(all.take(at as int), id) + all.skip(at as int) == insert_descending(all, id),
        decreases at,
    {
        proof {
            let front = all.take(at as int);
            assert(front.drop_last() =~= all.take(at - 1));
            assert(insert_descending(front, id) + all.skip(at as int) =~= insert_descending(all.take(at - 1), id)
                + all.skip(at - 1));
        }
        at = at - 1;
    }
    ids.insert(at, id);
    proof {
        assert(insert_descending(all.take(at as int), id) =~= all.take(at as int).push(id));
        assert(ids@ =~= all.take(at as int).push(id) + all.skip(at as int));
    }
}

/// The ids of a plan descend and are those of the tables, no more and no fewer.
pub proof fn law_descending_ids(files: Seq<Meta>)
    ensures
        forall|i: int, j: int| 0 <= i < j < descending_ids(files).len() ==> descending_ids(files)[i]
            >= descending_ids(files)[j],
        descending_ids(files).to_multiset() == files.map(|i: int, file: Meta| file.id).to_multiset(),
        forall|id: u64| #[trigger] descending_ids(files).contains(id) <==> exists|i: int|
            0 <= i < files.len() && (#[trigger] files[i]).id == id,
    decreases files.len(),
{
    let all = files.map(|i: int, file: Meta| file.id);
    if files.len() > 0 {
        let before = files.drop_last();
        law_descending_ids(before);
        lemma_insert_descending(descending_ids(before), files.last().id);
        let earlier = before.map(|i: int, file: Meta| file.id);
        assert(all =~= earlier.push(files.last().id));
        vstd::seq_lib::lemma_multiset_commutative(earlier, seq![files.last().id]);
        assert(earlier.push(files.last().id) =~= earlier + seq![files.last().id]);
        broadcast use vstd::seq_lib::group_to_multiset_ensures;

        assert forall|id: u64| #[trigger] descending_ids(files).contains(id) <==> exists|i: int|
            0 <= i < files.len() && (#[trigger] files[i]).id == id by {
            assert(descending_ids(files).contains(id) <==> descending_ids(before).contains(id) || id == files.last().id);
            if descending_ids(before).contains(id) {
                let i = choose|i: int| 0 <= i < before.len() && (#[trigger] before[i]).id == id;
                assert(files[i].id == id);
            }
            if id == files.last().id {
                assert(files[files.len() - 1].id == id);
            }
            if exists|i: int| 0 <= i < files.len() && (#[trigger] files[i]).id == id {
                let i = choose|i: int| 0 <= i < files.len() && (#[trigger] files[i]).id == id;
                if i < before.len() {
                    assert(before[i].id == id);
                }
            }
        }
    } else {
        assert(descending_ids(files) =~= all);
        assert(forall|id: u64| !#[trigger] descending_ids(files).contains(id));
    }
}

proof fn lemma_insert_descending(ids: Seq<u64>, id: u64)
    requires
        forall|i: int, j: int| 0 <= i < j < ids.len() ==> ids[i] >= ids[j],
    ensures
        forall|i: int, j: int|
            0 <= i < j < insert_descending(ids, id).len() ==> insert_descending(ids, id)[i] >= insert_descending(ids, id)[j],
        insert_descending(ids, id).to_multiset() == ids.to_multiset().insert(id),
        forall|x: u64| #[trigger] insert_descending(ids, id).contains(x) <==> ids.contains(x) || x == id,
    decreases ids.len(),
{
    broadcast use vstd::seq_lib::group_to_multiset_ensures;

    let new = insert_descending(ids, id);
    if ids.len() == 0 {
        assert(new =~= ids.push(id));
    } else if ids.last() >= id {
    } else {
        let before = ids.drop_last();
        lemma_insert_descending(before, id);
        let front = insert_descending(before, id);
        assert(ids =~= before.push(ids.last()));
        assert forall|i: int, j: int| 0 <= i < j < new.len() implies new[i] >= new[j] by {
            if j == new.len() - 1 {
                assert(front.contains(front[i]));
                if before.contains(front[i]) {
                    let k = choose|k: int| 0 <= k < before.len() && before[k] == front[i];
                    assert(ids[k] >= ids[ids.len() - 1]);
                }
            }
        }
        assert(new.to_multiset() =~= ids.to_multiset().insert(id));
    }
    assert forall|x: u64| #[trigger] new.contains(x) <==> ids.contains(x) || x == id by {
        assert(new.to_multiset().count(x) > 0 <==> new.contains(x));
        assert(ids.to_multiset().count(x) > 0 <==> ids.contains(x));
    }
}

}
