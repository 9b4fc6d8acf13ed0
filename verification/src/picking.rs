//! The choice of a merge depends on which tables there are, not on the order in which they are
//! listed.
use crate::compaction::{
    at_level, deepest_level, descending_ids, largest_key, law_descending_ids, oldest_file, overlapping_files, overlaps,
    oversized, plan_for, plan_from, plan_l0, plan_level, smallest_key, total_size, LevelConfig, Meta,
};
use crate::keys::{group_key_order, key_lt};
use vstd::prelude::*;
use vstd::relations::{sorted_by, total_ordering};
use vstd::seq_lib::group_to_multiset_ensures;

verus! {

/// Whether two listings have the same tables, each as often.
pub open spec fn same_files(a: Seq<Meta>, b: Seq<Meta>) -> bool {
    a.to_multiset() == b.to_multiset()
}

pub open spec fn distinct_ids(files: Seq<Meta>) -> bool {
    forall|i: int, j: int| 0 <= i < j < files.len() ==> (#[trigger] files[i]).id != (#[trigger] files[j]).id
}

proof fn lemma_same_members(a: Seq<Meta>, b: Seq<Meta>)
    requires
        same_files(a, b),
    ensures
        a.len() == b.len(),
        forall|m: Meta| #[trigger] a.contains(m) <==> b.contains(m),
{
    broadcast use group_to_multiset_ensures;

    assert(a.to_multiset().len() == b.to_multiset().len());
    assert forall|m: Meta| #[trigger] a.contains(m) <==> b.contains(m) by {
        assert(a.to_multiset().count(m) == b.to_multiset().count(m));
    }
}

/// The last table of one listing taken out of both.
proof fn lemma_without_last(a: Seq<Meta>, b: Seq<Meta>) -> (k: int)
    requires
        same_files(a, b),
        a.len() > 0,
    ensures
        0 <= k < b.len(),
        b[k] == a.last(),
        same_files(a.drop_last(), b.remove(k)),
{
    broadcast use group_to_multiset_ensures;

    lemma_same_members(a, b);
    assert(a[a.len() - 1] == a.last());
    assert(a.contains(a.last()));
    assert(b.contains(a.last()));
    let k = choose|k: int| 0 <= k < b.len() && b[k] == a.last();
    assert(a.remove(a.len() - 1) =~= a.drop_last());
    k
}

proof fn lemma_at_level_count(files: Seq<Meta>, level: u32, m: Meta)
    ensures
        at_level(files, level).to_multiset().count(m) == (if m.level == level {
            files.to_multiset().count(m)
        } else {
            0
        }),
    decreases files.len(),
{
    broadcast use group_to_multiset_ensures;

    if files.len() > 0 {
        let before = files.drop_last();
        lemma_at_level_count(before, level, m);
        assert(before.push(files.last()) =~= files);
    }
}

proof fn lemma_same_at_level(a: Seq<Meta>, b: Seq<Meta>, level: u32)
    requires
        same_files(a, b),
    ensures
        same_files(at_level(a, level), at_level(b, level)),
{
    assert forall|m: Meta| #[trigger] at_level(a, level).to_multiset().count(m) == at_level(
        b,
        level,
    ).to_multiset().count(m) by {
        lemma_at_level_count(a, level, m);
        lemma_at_level_count(b, level, m);
    }
    assert(at_level(a, level).to_multiset() =~= at_level(b, level).to_multiset());
}

proof fn lemma_overlapping_count(files: Seq<Meta>, level: u32, smallest: Seq<char>, largest: Seq<char>, m: Meta)
    ensures
        overlapping_files(files, level, smallest, largest).to_multiset().count(m) == (if overlaps(
            m,
            level,
            smallest,
            largest,
        ) {
            files.to_multiset().count(m)
        } else {
            0
        }),
    decreases files.len(),
{
    broadcast use group_to_multiset_ensures;

    if files.len() > 0 {
        let before = files.drop_last();
        lemma_overlapping_count(before, level, smallest, largest, m);
        assert(before.push(files.last()) =~= files);
    }
}

proof fn lemma_same_overlapping(a: Seq<Meta>, b: Seq<Meta>, level: u32, smallest: Seq<char>, largest: Seq<char>)
    requires
        same_files(a, b),
    ensures
        same_files(overlapping_files(a, level, smallest, largest), overlapping_files(b, level, smallest, largest)),
{
    let x = overlapping_files(a, level, smallest, largest);
    let y = overlapping_files(b, level, smallest, largest);
    assert forall|m: Meta| #[trigger] x.to_multiset().count(m) == y.to_multiset().count(m) by {
        lemma_overlapping_count(a, level, smallest, largest, m);
        lemma_overlapping_count(b, level, smallest, largest, m);
    }
    assert(x.to_multiset() =~= y.to_multiset());
}

proof fn lemma_deepest(files: Seq<Meta>)
    ensures
        forall|m: Meta| #[trigger] files.contains(m) ==> m.level <= deepest_level(files),
        deepest_level(files) > 0 ==> exists|m: Meta| #[trigger] files.contains(m) && m.level == deepest_level(files),
    decreases files.len(),
{
    if files.len() > 0 {
        let before = files.drop_last();
        lemma_deepest(before);
        assert forall|m: Meta| #[trigger] files.contains(m) implies m.level <= deepest_level(files) by {
            let i = choose|i: int| 0 <= i < files.len() && files[i] == m;
            if i < before.len() {
                assert(before[i] == m);
                assert(before.contains(m));
            }
        }
        if deepest_level(files) > 0 {
            if files.last().level > deepest_level(before) {
                assert(files[files.len() - 1] == files.last());
                assert(files.contains(files.last()));
            } else {
                let m = choose|m: Meta| #[trigger] before.contains(m) && m.level == deepest_level(before);
                let i = choose|i: int| 0 <= i < before.len() && before[i] == m;
                assert(files[i] == m);
                assert(files.contains(m));
            }
        }
    }
}

proof fn lemma_same_deepest(a: Seq<Meta>, b: Seq<Meta>)
    requires
        same_files(a, b),
    ensures
        deepest_level(a) == deepest_level(b),
{
    lemma_same_members(a, b);
    lemma_deepest(a);
    lemma_deepest(b);
    if deepest_level(a) > 0 {
        let m = choose|m: Meta| #[trigger] a.contains(m) && m.level == deepest_level(a);
        assert(b.contains(m));
    }
    if deepest_level(b) > 0 {
        let m = choose|m: Meta| #[trigger] b.contains(m) && m.level == deepest_level(b);
        assert(a.contains(m));
    }
}

proof fn lemma_extreme_keys(files: Seq<Meta>)
    requires
        files.len() > 0,
    ensures
        exists|m: Meta| #[trigger] files.contains(m) && m.smallest == smallest_key(files),
        exists|m: Meta| #[trigger] files.contains(m) && m.largest == largest_key(files),
        forall|m: Meta| #[trigger] files.contains(m) ==> !key_lt(m.smallest, smallest_key(files)) && !key_lt(
            largest_key(files),
            m.largest,
        ),
    decreases files.len(),
{
    broadcast use group_key_order;

    assert(files[files.len() - 1] == files.last());
    assert(files.contains(files.last()));
    if files.len() == 1 {
        assert forall|m: Meta| #[trigger] files.contains(m) implies !key_lt(m.smallest, smallest_key(files)) && !key_lt(
            largest_key(files),
            m.largest,
        ) by {
            assert(m == files[0]);
        }
    } else {
        let before = files.drop_last();
        lemma_extreme_keys(before);
        let s = choose|m: Meta| #[trigger] before.contains(m) && m.smallest == smallest_key(before);
        let l = choose|m: Meta| #[trigger] before.contains(m) && m.largest == largest_key(before);
        let i = choose|i: int| 0 <= i < before.len() && before[i] == s;
        let j = choose|j: int| 0 <= j < before.len() && before[j] == l;
        assert(files[i] == s);
        assert(files[j] == l);
        assert(files.contains(s));
        assert(files.contains(l));
        assert forall|m: Meta| #[trigger] files.contains(m) implies !key_lt(m.smallest, smallest_key(files)) && !key_lt(
            largest_key(files),
            m.largest,
        ) by {
            let k = choose|k: int| 0 <= k < files.len() && files[k] == m;
            if k < before.len() {
                assert(before[k] == m);
                assert(before.contains(m));
            }
        }
    }
}

proof fn lemma_same_extreme_keys(a: Seq<Meta>, b: Seq<Meta>)
    requires
        same_files(a, b),
        a.len() > 0,
    ensures
        smallest_key(a) == smallest_key(b),
        largest_key(a) == largest_key(b),
{
    broadcast use group_key_order;

    lemma_same_members(a, b);
    lemma_extreme_keys(a);
    lemma_extreme_keys(b);
    let sa = choose|m: Meta| #[trigger] a.contains(m) && m.smallest == smallest_key(a);
    let sb = choose|m: Meta| #[trigger] b.contains(m) && m.smallest == smallest_key(b);
    let la = choose|m: Meta| #[trigger] a.contains(m) && m.largest == largest_key(a);
    let lb = choose|m: Meta| #[trigger] b.contains(m) && m.largest == largest_key(b);
    assert(b.contains(sa) && a.contains(sb) && b.contains(la) && a.contains(lb));
}

proof fn lemma_total_size_remove(files: Seq<Meta>, k: int)
    requires
        0 <= k < files.len(),
    ensures
        total_size(files) == total_size(files.remove(k)) + files[k].size,
    decreases files.len(),
{
    if k == files.len() - 1 {
        assert(files.remove(k) =~= files.drop_last());
    } else {
        let before = files.drop_last();
        lemma_total_size_remove(before, k);
        assert(files.remove(k).drop_last() =~= before.remove(k));
        assert(files.remove(k).last() == files.last());
    }
}

proof fn lemma_same_total_size(a: Seq<Meta>, b: Seq<Meta>)
    requires
        same_files(a, b),
    ensures
        total_size(a) == total_size(b),
    decreases a.len(),
{
    lemma_same_members(a, b);
    if a.len() > 0 {
        let k = lemma_without_last(a, b);
        lemma_same_total_size(a.drop_last(), b.remove(k));
        lemma_total_size_remove(b, k);
    }
}

proof fn lemma_oldest(files: Seq<Meta>)
    requires
        files.len() > 0,
    ensures
        files.contains(oldest_file(files)),
        forall|m: Meta| #[trigger] files.contains(m) ==> oldest_file(files).id <= m.id,
    decreases files.len(),
{
    assert(files[files.len() - 1] == files.last());
    if files.len() > 1 {
        let before = files.drop_last();
        lemma_oldest(before);
        let i = choose|i: int| 0 <= i < before.len() && before[i] == oldest_file(before);
        assert(files[i] == oldest_file(before));
        assert forall|m: Meta| #[trigger] files.contains(m) implies oldest_file(files).id <= m.id by {
            let k = choose|k: int| 0 <= k < files.len() && files[k] == m;
            if k < before.len() {
                assert(before[k] == m);
                assert(before.contains(m));
            }
        }
    } else {
        assert(files[0] == oldest_file(files));
    }
}

proof fn lemma_at_level_members(files: Seq<Meta>, level: u32)
    ensures
        forall|m: Meta| #[trigger] at_level(files, level).contains(m) <==> files.contains(m) && m.level == level,
{
    broadcast use group_to_multiset_ensures;

    assert forall|m: Meta| #[trigger] at_level(files, level).contains(m) <==> files.contains(m) && m.level == level by {
        lemma_at_level_count(files, level, m);
        assert(files.to_multiset().count(m) > 0 <==> files.contains(m));
        assert(at_level(files, level).to_multiset().count(m) > 0 <==> at_level(files, level).contains(m));
    }
}

proof fn lemma_same_oldest(a: Seq<Meta>, b: Seq<Meta>, level: u32)
    requires
        same_files(a, b),
        distinct_ids(a),
        at_level(a, level).len() > 0,
    ensures
        oldest_file(at_level(a, level)) == oldest_file(at_level(b, level)),
{
    let x = at_level(a, level);
    let y = at_level(b, level);
    lemma_same_at_level(a, b, level);
    lemma_same_members(x, y);
    lemma_oldest(x);
    lemma_oldest(y);
    lemma_at_level_members(a, level);
    let m = oldest_file(x);
    let n = oldest_file(y);
    assert(x.contains(n));
    assert(y.contains(m));
    assert(a.contains(m) && a.contains(n));
    let i = choose|i: int| 0 <= i < a.len() && a[i] == m;
    let j = choose|j: int| 0 <= j < a.len() && a[j] == n;
    if i < j {
        assert(a[i].id != a[j].id);
    } else if j < i {
        assert(a[j].id != a[i].id);
    }
}

pub open spec fn ids_of(files: Seq<Meta>) -> Seq<u64> {
    files.map(|i: int, file: Meta| file.id)
}

proof fn lemma_same_ids(a: Seq<Meta>, b: Seq<Meta>)
    requires
        same_files(a, b),
    ensures
        ids_of(a).to_multiset() == ids_of(b).to_multiset(),
    decreases a.len(),
{
    broadcast use group_to_multiset_ensures;

    lemma_same_members(a, b);
    if a.len() > 0 {
        let k = lemma_without_last(a, b);
        let rest = b.remove(k);
        lemma_same_ids(a.drop_last(), rest);
        assert(ids_of(a) =~= ids_of(a.drop_last()).push(a.last().id));
        assert(ids_of(b).remove(k) =~= ids_of(rest));
        assert(ids_of(b)[k] == a.last().id);
        assert(ids_of(b).to_multiset() =~= ids_of(rest).to_multiset().insert(a.last().id));
    } else {
        assert(ids_of(a) =~= ids_of(b));
    }
}

proof fn lemma_same_descending_ids(a: Seq<Meta>, b: Seq<Meta>)
    requires
        same_files(a, b),
    ensures
        descending_ids(a) == descending_ids(b),
{
    let leq = |x: u64, y: u64| x >= y;
    law_descending_ids(a);
    law_descending_ids(b);
    lemma_same_ids(a, b);
    assert(ids_of(a) == a.map(|i: int, file: Meta| file.id));
    assert(ids_of(b) == b.map(|i: int, file: Meta| file.id));
    assert(sorted_by(descending_ids(a), leq));
    assert(sorted_by(descending_ids(b), leq));
    assert(total_ordering(leq));
    vstd::seq_lib::lemma_sorted_unique(descending_ids(a), descending_ids(b), leq);
}

proof fn lemma_same_plan_level(a: Seq<Meta>, b: Seq<Meta>, level: u32)
    requires
        same_files(a, b),
        distinct_ids(a),
        at_level(a, level).len() > 0,
    ensures
        plan_level(a, level) == plan_level(b, level),
{
    let input = oldest_file(at_level(a, level));
    let below = (level + 1) as u32;
    lemma_same_oldest(a, b, level);
    lemma_same_deepest(a, b);
    lemma_same_overlapping(a, b, below, input.smallest, input.largest);
    lemma_same_descending_ids(
        overlapping_files(a, below, input.smallest, input.largest),
        overlapping_files(b, below, input.smallest, input.largest),
    );
}

proof fn lemma_same_plan_from(a: Seq<Meta>, b: Seq<Meta>, config: LevelConfig, level: int)
    requires
        same_files(a, b),
        distinct_ids(a),
        0 <= level,
    ensures
        plan_from(a, config, level) == plan_from(b, config, level),
    decreases deepest_level(a) + 1 - level,
{
    lemma_same_deepest(a, b);
    if level <= deepest_level(a) {
        let l = level as u32;
        lemma_same_at_level(a, b, l);
        lemma_same_members(at_level(a, l), at_level(b, l));
        lemma_same_total_size(at_level(a, l), at_level(b, l));
        assert(oversized(a, config, l) == oversized(b, config, l));
        if oversized(a, config, l) {
            lemma_same_plan_level(a, b, l);
        } else {
            lemma_same_plan_from(a, b, config, level + 1);
        }
    }
}

/// The merge that is due is the same whatever the order in which the tables are listed.
pub proof fn law_plan_does_not_depend_on_the_order(a: Seq<Meta>, b: Seq<Meta>, config: LevelConfig)
    requires
        config.wf(),
        same_files(a, b),
        distinct_ids(a),
    ensures
        plan_for(a, config) == plan_for(b, config),
{
    let x = at_level(a, 0);
    let y = at_level(b, 0);
    lemma_same_members(a, b);
    lemma_same_at_level(a, b, 0);
    lemma_same_members(x, y);
    if a.len() > 0 {
        if x.len() >= config.l0_compaction_threshold {
            lemma_same_extreme_keys(x, y);
            lemma_same_deepest(a, b);
            lemma_same_descending_ids(x, y);
            let smallest = smallest_key(x);
            let largest = largest_key(x);
            lemma_same_overlapping(a, b, 1, smallest, largest);
            lemma_same_descending_ids(
                overlapping_files(a, 1, smallest, largest),
                overlapping_files(b, 1, smallest, largest),
            );
            assert(plan_l0(a) == plan_l0(b));
        } else {
            lemma_same_plan_from(a, b, config, 1);
        }
    }
}

}
