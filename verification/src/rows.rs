//! Sorted rows: the mathematical form of a memtable, of a table file and of a merged view.
use crate::keys::{group_key_order, key_le, key_lt};
use vstd::prelude::*;

verus! {

/// A key with what is stored under it: a value, or `None` for a tombstone.
pub type Row = (Seq<char>, Option<Seq<char>>);

/// Keys ascend strictly.
pub open spec fn sorted(rows: Seq<Row>) -> bool {
    forall|i: int, j: int| 0 <= i < j < rows.len() ==> key_lt(#[trigger] rows[i].0, #[trigger] rows[j].0)
}

pub open spec fn has_key(rows: Seq<Row>, key: Seq<char>) -> bool {
    exists|i: int| 0 <= i < rows.len() && (#[trigger] rows[i]).0 == key
}

/// An index at which `key` stands, where it does.
pub open spec fn index_of_key(rows: Seq<Row>, key: Seq<char>) -> int {
    choose|i: int| 0 <= i < rows.len() && (#[trigger] rows[i]).0 == key
}

/// What the rows store under `key`: nothing, a tombstone (`Some(None)`) or a value.
pub open spec fn rows_get(rows: Seq<Row>, key: Seq<char>) -> Option<Option<Seq<char>>> {
    if has_key(rows, key) {
        Some(rows[index_of_key(rows, key)].1)
    } else {
        None
    }
}

/// The index of the first row whose key is not below `key`.
pub open spec fn lower_bound(rows: Seq<Row>, key: Seq<char>) -> int
    decreases rows.len(),
{
    if rows.len() == 0 {
        0
    } else if key_lt(rows.last().0, key) {
        rows.len() as int
    } else {
        lower_bound(rows.drop_last(), key)
    }
}

pub open spec fn is_lower_bound(rows: Seq<Row>, key: Seq<char>, at: int) -> bool {
    &&& 0 <= at <= rows.len()
    &&& forall|i: int| 0 <= i < at ==> key_lt((#[trigger] rows[i]).0, key)
    &&& forall|i: int| at <= i < rows.len() ==> !key_lt((#[trigger] rows[i]).0, key)
}

/// The rows with `row` stored under its key.
pub open spec fn upsert(rows: Seq<Row>, row: Row) -> Seq<Row> {
    let at = lower_bound(rows, row.0);
    if at < rows.len() && rows[at].0 == row.0 {
        rows.update(at, row)
    } else {
        rows.insert(at, row)
    }
}

/// `base` with every row of `newer` stored over it.
pub open spec fn overlay(base: Seq<Row>, newer: Seq<Row>) -> Seq<Row>
    decreases newer.len(),
{
    if newer.len() == 0 {
        base
    } else {
        upsert(overlay(base, newer.drop_last()), newer.last())
    }
}

/// Several sources, newest first, as one: each key with what its newest source stores.
pub open spec fn merge_rows(sources: Seq<Seq<Row>>) -> Seq<Row>
    decreases sources.len(),
{
    if sources.len() == 0 {
        Seq::empty()
    } else {
        overlay(merge_rows(sources.drop_first()), sources[0])
    }
}

/// What the newest source that holds `key` stores under it.
pub open spec fn sources_get(sources: Seq<Seq<Row>>, key: Seq<char>) -> Option<Option<Seq<char>>>
    decreases sources.len(),
{
    if sources.len() == 0 {
        None
    } else if has_key(sources[0], key) {
        rows_get(sources[0], key)
    } else {
        sources_get(sources.drop_first(), key)
    }
}

pub open spec fn all_sorted(sources: Seq<Seq<Row>>) -> bool {
    forall|i: int| 0 <= i < sources.len() ==> sorted(#[trigger] sources[i])
}

/// The rows that are not tombstones.
pub open spec fn live_rows(rows: Seq<Row>) -> Seq<Row> {
    rows.filter(|row: Row| row.1 is Some)
}

pub proof fn lemma_lower_bound(rows: Seq<Row>, key: Seq<char>)
    requires
        sorted(rows),
    ensures
        is_lower_bound(rows, key, lower_bound(rows, key)),
    decreases rows.len(),
{
    broadcast use group_key_order;

    if rows.len() > 0 && !key_lt(rows.last().0, key) {
        let rest = rows.drop_last();
        assert(sorted(rest)) by {
            assert forall|i: int, j: int| 0 <= i < j < rest.len() implies key_lt(
                #[trigger] rest[i].0,
                #[trigger] rest[j].0,
            ) by {
                assert(key_lt(rows[i].0, rows[j].0));
            }
        }
        lemma_lower_bound(rest, key);
        let at = lower_bound(rest, key);
        assert forall|i: int| 0 <= i < at implies key_lt((#[trigger] rows[i]).0, key) by {
            assert(rest[i] == rows[i]);
        }
        assert forall|i: int| at <= i < rows.len() implies !key_lt((#[trigger] rows[i]).0, key) by {
            if i < rest.len() {
                assert(rest[i] == rows[i]);
            }
        }
    } else if rows.len() > 0 {
        assert forall|i: int| 0 <= i < rows.len() implies key_lt((#[trigger] rows[i]).0, key) by {
            if i < rows.len() - 1 {
                assert(key_lt(rows[i].0, rows[rows.len() - 1].0));
            }
        }
    }
}

/// Only one index separates the rows below `key` from the others.
pub proof fn lemma_lower_bound_unique(rows: Seq<Row>, key: Seq<char>, at: int)
    requires
        sorted(rows),
        is_lower_bound(rows, key, at),
    ensures
        at == lower_bound(rows, key),
{
    lemma_lower_bound(rows, key);
    let lb = lower_bound(rows, key);
    if at < lb {
        assert(key_lt(rows[at].0, key));
    } else if lb < at {
        assert(key_lt(rows[lb].0, key));
    }
}

/// In sorted rows a key stands at one index at most.
pub proof fn lemma_unique_key(rows: Seq<Row>, i: int, j: int)
    requires
        sorted(rows),
        0 <= i < rows.len(),
        0 <= j < rows.len(),
        rows[i].0 == rows[j].0,
    ensures
        i == j,
{
    broadcast use group_key_order;

    if i < j {
        assert(key_lt(rows[i].0, rows[j].0));
    } else if j < i {
        assert(key_lt(rows[j].0, rows[i].0));
    }
}

pub proof fn lemma_rows_get_at(rows: Seq<Row>, i: int)
    requires
        sorted(rows),
        0 <= i < rows.len(),
    ensures
        has_key(rows, rows[i].0),
        rows_get(rows, rows[i].0) == Some(rows[i].1),
{
    lemma_unique_key(rows, i, index_of_key(rows, rows[i].0));
}

/// A key that sorted rows hold stands at its lower bound.
pub proof fn lemma_key_at_lower_bound(rows: Seq<Row>, key: Seq<char>)
    requires
        sorted(rows),
    ensures
        ({
            let at = lower_bound(rows, key);
            &&& 0 <= at <= rows.len()
            &&& has_key(rows, key) <==> at < rows.len() && rows[at].0 == key
            &&& has_key(rows, key) ==> rows_get(rows, key) == Some(rows[at].1)
        }),
{
    broadcast use group_key_order;

    lemma_lower_bound(rows, key);
    let at = lower_bound(rows, key);
    if has_key(rows, key) {
        let i = choose|i: int| 0 <= i < rows.len() && (#[trigger] rows[i]).0 == key;
        assert(!key_lt(key, key));
        assert(at <= i);
        if at < i {
            assert(key_lt(rows[at].0, rows[i].0));
        }
        lemma_rows_get_at(rows, i);
    }
    if at < rows.len() && rows[at].0 == key {
        lemma_rows_get_at(rows, at);
    }
}

pub proof fn lemma_upsert(rows: Seq<Row>, row: Row)
    requires
        sorted(rows),
    ensures
        sorted(upsert(rows, row)),
        rows_get(upsert(rows, row), row.0) == Some(row.1),
        forall|key: Seq<char>| key != row.0 ==> #[trigger] rows_get(upsert(rows, row), key) == rows_get(rows, key),
        forall|key: Seq<char>| #[trigger] has_key(upsert(rows, row), key) <==> (key == row.0 || has_key(rows, key)),
{
    broadcast use group_key_order;

    lemma_lower_bound(rows, row.0);
    let at = lower_bound(rows, row.0);
    let new = upsert(rows, row);
    let replaced = at < rows.len() && rows[at].0 == row.0;
    assert(new[at] == row);
    assert forall|i: int, j: int| 0 <= i < j < new.len() implies key_lt(
        #[trigger] new[i].0,
        #[trigger] new[j].0,
    ) by {
        let oi = if replaced || i < at { i } else { i - 1 };
        let oj = if replaced || j < at { j } else { j - 1 };
        if i != at && j != at {
            assert(new[i] == rows[oi] && new[j] == rows[oj]);
            assert(key_lt(rows[oi].0, rows[oj].0));
        } else if i == at {
            assert(new[j] == rows[oj]);
            assert(!key_lt(rows[oj].0, row.0));
            if replaced {
                assert(key_lt(rows[at].0, rows[j].0));
            } else {
                assert(!key_lt(rows[at].0, row.0));
                if at < oj {
                    assert(key_lt(rows[at].0, rows[oj].0));
                }
            }
        } else {
            assert(new[i] == rows[oi]);
            assert(key_lt(rows[oi].0, row.0));
        }
    }
    lemma_rows_get_at(new, at);
    assert forall|key: Seq<char>| key != row.0 implies #[trigger] rows_get(new, key) == rows_get(rows, key)
        && (has_key(new, key) <==> has_key(rows, key)) by {
        if has_key(rows, key) {
            let i = choose|i: int| 0 <= i < rows.len() && (#[trigger] rows[i]).0 == key;
            let ni = if replaced || i < at { i } else { i + 1 };
            assert(new[ni] == rows[i]);
            lemma_rows_get_at(new, ni);
            lemma_rows_get_at(rows, i);
        }
        if has_key(new, key) {
            let ni = choose|i: int| 0 <= i < new.len() && (#[trigger] new[i]).0 == key;
            let i = if replaced || ni < at { ni } else { ni - 1 };
            assert(new[ni] == rows[i]);
        }
    }
    assert forall|key: Seq<char>| #[trigger] has_key(new, key) <==> (key == row.0 || has_key(rows, key)) by {
        if key != row.0 {
            assert(rows_get(new, key) == rows_get(rows, key));
        }
    }
}

pub proof fn lemma_overlay(base: Seq<Row>, newer: Seq<Row>)
    requires
        sorted(base),
        sorted(newer),
    ensures
        sorted(overlay(base, newer)),
        forall|key: Seq<char>| #[trigger] rows_get(overlay(base, newer), key) == (if has_key(newer, key) {
            rows_get(newer, key)
        } else {
            rows_get(base, key)
        }),
        forall|key: Seq<char>| #[trigger] has_key(overlay(base, newer), key) <==> has_key(newer, key) || has_key(base, key),
    decreases newer.len(),
{
    if newer.len() > 0 {
        let rest = newer.drop_last();
        lemma_sorted_subrange(newer, 0, newer.len() - 1);
        assert(rest =~= newer.subrange(0, newer.len() - 1));
        lemma_overlay(base, rest);
        lemma_upsert(overlay(base, rest), newer.last());
        assert forall|key: Seq<char>| #[trigger] has_key(newer, key) <==> has_key(rest, key) || key == newer.last().0 by {
            if has_key(newer, key) {
                let i = choose|i: int| 0 <= i < newer.len() && (#[trigger] newer[i]).0 == key;
                if i < rest.len() {
                    assert(rest[i] == newer[i]);
                }
            }
            if has_key(rest, key) {
                let i = choose|i: int| 0 <= i < rest.len() && (#[trigger] rest[i]).0 == key;
                assert(newer[i] == rest[i]);
            }
            if key == newer.last().0 {
                assert(newer[newer.len() - 1].0 == key);
            }
        }
        assert forall|key: Seq<char>| has_key(newer, key) implies #[trigger] rows_get(newer, key) == (
        if key == newer.last().0 {
            Some(newer.last().1)
        } else {
            rows_get(rest, key)
        }) by {
            let i = choose|i: int| 0 <= i < newer.len() && (#[trigger] newer[i]).0 == key;
            lemma_rows_get_at(newer, i);
            lemma_rows_get_at(newer, newer.len() - 1);
            if key != newer.last().0 {
                assert(rest[i] == newer[i]);
                lemma_rows_get_at(rest, i);
            }
        }
    } else {
        assert(forall|key: Seq<char>| !#[trigger] has_key(newer, key));
    }
}

pub proof fn lemma_sorted_subrange(rows: Seq<Row>, from: int, to: int)
    requires
        sorted(rows),
        0 <= from <= to <= rows.len(),
    ensures
        sorted(rows.subrange(from, to)),
{
    let sub = rows.subrange(from, to);
    assert forall|i: int, j: int| 0 <= i < j < sub.len() implies key_lt(#[trigger] sub[i].0, #[trigger] sub[j].0) by {
        assert(key_lt(rows[from + i].0, rows[from + j].0));
    }
}

/// Merged rows are sorted and hold, under each key, what the newest source that has it holds.
pub proof fn law_merge_newest_wins(sources: Seq<Seq<Row>>)
    requires
        all_sorted(sources),
    ensures
        sorted(merge_rows(sources)),
        forall|key: Seq<char>| #[trigger] rows_get(merge_rows(sources), key) == sources_get(sources, key),
        forall|key: Seq<char>| #[trigger] has_key(merge_rows(sources), key) <==> sources_get(sources, key) is Some,
    decreases sources.len(),
{
    if sources.len() > 0 {
        let rest = sources.drop_first();
        assert(all_sorted(rest)) by {
            assert forall|i: int| 0 <= i < rest.len() implies sorted(#[trigger] rest[i]) by {
                assert(rest[i] == sources[i + 1]);
            }
        }
        law_merge_newest_wins(rest);
        lemma_overlay(merge_rows(rest), sources[0]);
        assert forall|key: Seq<char>| #[trigger] rows_get(merge_rows(sources), key) == sources_get(sources, key)
            && (has_key(merge_rows(sources), key) <==> sources_get(sources, key) is Some) by {
            assert(rows_get(merge_rows(rest), key) == sources_get(rest, key));
        }
        assert forall|key: Seq<char>| #[trigger] has_key(merge_rows(sources), key) <==> sources_get(sources, key) is Some by {
            assert(rows_get(merge_rows(sources), key) == sources_get(sources, key));
        }
    } else {
        assert(forall|key: Seq<char>| !#[trigger] has_key(merge_rows(sources), key));
    }
}

/// Two sorted row sequences that store the same under every key are the same.
pub proof fn law_sorted_rows_are_determined(a: Seq<Row>, b: Seq<Row>)
    requires
        sorted(a),
        sorted(b),
        forall|key: Seq<char>| #[trigger] rows_get(a, key) == rows_get(b, key),
    ensures
        a == b,
{
    lemma_sorted_rows_prefix(a, b, 0);
}

proof fn lemma_sorted_rows_prefix(a: Seq<Row>, b: Seq<Row>, n: int)
    requires
        sorted(a),
        sorted(b),
        0 <= n <= a.len(),
        n <= b.len(),
        forall|i: int| 0 <= i < n ==> a[i] == b[i],
        forall|key: Seq<char>| #[trigger] rows_get(a, key) == rows_get(b, key),
    ensures
        a == b,
    decreases a.len() - n,
{
    broadcast use group_key_order;

    if n < a.len() {
        lemma_rows_get_at(a, n);
        assert(rows_get(b, a[n].0) == Some(a[n].1));
        let j = choose|j: int| 0 <= j < b.len() && (#[trigger] b[j]).0 == a[n].0;
        if j < n {
            assert(key_lt(a[j].0, a[n].0));
        }
        assert(n <= j);
        lemma_rows_get_at(b, n);
        assert(rows_get(a, b[n].0) == Some(b[n].1));
        let m = choose|m: int| 0 <= m < a.len() && (#[trigger] a[m]).0 == b[n].0;
        if m < n {
            assert(key_lt(b[m].0, b[n].0));
        }
        if n < j {
            assert(key_lt(b[n].0, b[j].0));
            if n < m {
                assert(key_lt(a[n].0, a[m].0));
            }
            assert(false);
        }
        lemma_rows_get_at(b, j);
        assert(a[n] == b[n]);
        lemma_sorted_rows_prefix(a, b, n + 1);
    } else if n < b.len() {
        lemma_rows_get_at(b, n);
        assert(rows_get(a, b[n].0) == Some(b[n].1));
        let m = choose|m: int| 0 <= m < a.len() && (#[trigger] a[m]).0 == b[n].0;
        assert(key_lt(b[m].0, b[n].0));
        assert(false);
    } else {
        assert(a =~= b);
    }
}

/// A key that a source holds is found, and the first source that holds it decides.
pub proof fn lemma_sources_first(sources: Seq<Seq<Row>>, key: Seq<char>, i: int)
    requires
        0 <= i < sources.len(),
        has_key(sources[i], key),
        forall|j: int| 0 <= j < i ==> !has_key(#[trigger] sources[j], key),
    ensures
        sources_get(sources, key) == rows_get(sources[i], key),
    decreases i,
{
    if i > 0 {
        assert(!has_key(sources[0], key));
        let rest = sources.drop_first();
        assert forall|j: int| 0 <= j < i - 1 implies !has_key(#[trigger] rest[j], key) by {
            assert(rest[j] == sources[j + 1]);
        }
        lemma_sources_first(rest, key, i - 1);
    }
}

/// A key is found just when some source holds it.
pub proof fn lemma_sources_some(sources: Seq<Seq<Row>>, key: Seq<char>)
    ensures
        sources_get(sources, key) is Some <==> exists|i: int| 0 <= i < sources.len() && has_key(#[trigger] sources[i], key),
    decreases sources.len(),
{
    if sources.len() > 0 {
        let rest = sources.drop_first();
        lemma_sources_some(rest, key);
        if has_key(sources[0], key) {
        } else {
            if exists|i: int| 0 <= i < rest.len() && has_key(#[trigger] rest[i], key) {
                let i = choose|i: int| 0 <= i < rest.len() && has_key(#[trigger] rest[i], key);
                assert(rest[i] == sources[i + 1]);
            }
            if exists|i: int| 0 <= i < sources.len() && has_key(#[trigger] sources[i], key) {
                let i = choose|i: int| 0 <= i < sources.len() && has_key(#[trigger] sources[i], key);
                assert(rest[i - 1] == sources[i]);
            }
        }
    }
}

/// The rows of a source that a merge has not passed yet start here, when the merge stands at
/// index `p` of the merged rows.
pub open spec fn aligned_pos(rows: Seq<Row>, merged: Seq<Row>, p: int) -> int {
    if p < merged.len() {
        lower_bound(rows, merged[p].0)
    } else {
        rows.len() as int
    }
}

proof fn lemma_in_merged(sources: Seq<Seq<Row>>, i: int, j: int) -> (p: int)
    requires
        all_sorted(sources),
        0 <= i < sources.len(),
        0 <= j < sources[i].len(),
    ensures
        0 <= p < merge_rows(sources).len(),
        merge_rows(sources)[p].0 == sources[i][j].0,
{
    let key = sources[i][j].0;
    law_merge_newest_wins(sources);
    assert(has_key(sources[i], key));
    lemma_sources_some(sources, key);
    assert(has_key(merge_rows(sources), key));
    index_of_key(merge_rows(sources), key)
}

/// Every source is aligned with the start of the merged rows when it is at its own start.
pub proof fn lemma_aligned_first(sources: Seq<Seq<Row>>, i: int)
    requires
        all_sorted(sources),
        0 <= i < sources.len(),
    ensures
        aligned_pos(sources[i], merge_rows(sources), 0) == 0,
{
    broadcast use group_key_order;

    let merged = merge_rows(sources);
    law_merge_newest_wins(sources);
    assert(sorted(sources[i]));
    if merged.len() > 0 {
        assert forall|j: int| 0 <= j < sources[i].len() implies !key_lt((#[trigger] sources[i][j]).0, merged[0].0) by {
            let p = lemma_in_merged(sources, i, j);
            if p > 0 {
                assert(key_lt(merged[0].0, merged[p].0));
            }
        }
        assert(is_lower_bound(sources[i], merged[0].0, 0));
        lemma_lower_bound_unique(sources[i], merged[0].0, 0);
    } else if sources[i].len() > 0 {
        let p = lemma_in_merged(sources, i, 0);
    }
}

/// Seeking every source and seeking in the merged rows arrive at the same place.
pub proof fn lemma_aligned_seek(sources: Seq<Seq<Row>>, i: int, target: Seq<char>)
    requires
        all_sorted(sources),
        0 <= i < sources.len(),
    ensures
        aligned_pos(sources[i], merge_rows(sources), lower_bound(merge_rows(sources), target)) == lower_bound(
            sources[i],
            target,
        ),
        0 <= lower_bound(merge_rows(sources), target) <= merge_rows(sources).len(),
{
    broadcast use group_key_order;

    let merged = merge_rows(sources);
    let rows = sources[i];
    law_merge_newest_wins(sources);
    assert(sorted(rows));
    lemma_lower_bound(merged, target);
    lemma_lower_bound(rows, target);
    let p = lower_bound(merged, target);
    let at = lower_bound(rows, target);
    if p < merged.len() {
        assert(!key_lt(merged[p].0, target));
        assert forall|j: int| at <= j < rows.len() implies !key_lt((#[trigger] rows[j]).0, merged[p].0) by {
            let q = lemma_in_merged(sources, i, j);
            if q < p {
                assert(key_lt(merged[q].0, target));
            } else if q > p {
                assert(key_lt(merged[p].0, merged[q].0));
            }
        }
        assert(is_lower_bound(rows, merged[p].0, at));
        lemma_lower_bound_unique(rows, merged[p].0, at);
    } else if at < rows.len() {
        let q = lemma_in_merged(sources, i, at);
        assert(key_lt(merged[q].0, target));
        assert(!key_lt(rows[at].0, target));
    }
}

/// Passing a merged row moves just the sources that hold its key.
pub proof fn lemma_aligned_step(sources: Seq<Seq<Row>>, i: int, p: int)
    requires
        all_sorted(sources),
        0 <= i < sources.len(),
        0 <= p < merge_rows(sources).len(),
    ensures
        ({
            let merged = merge_rows(sources);
            let at = aligned_pos(sources[i], merged, p);
            let holds = at < sources[i].len() && sources[i][at].0 == merged[p].0;
            &&& 0 <= at <= sources[i].len()
            &&& holds <==> has_key(sources[i], merged[p].0)
            &&& at < sources[i].len() ==> key_le(merged[p].0, sources[i][at].0)
            &&& aligned_pos(sources[i], merged, p + 1) == (if holds {
                at + 1
            } else {
                at
            })
        }),
{
    broadcast use group_key_order;

    let merged = merge_rows(sources);
    let rows = sources[i];
    law_merge_newest_wins(sources);
    assert(sorted(rows));
    lemma_lower_bound(rows, merged[p].0);
    lemma_key_at_lower_bound(rows, merged[p].0);
    let at = aligned_pos(rows, merged, p);
    let holds = at < rows.len() && rows[at].0 == merged[p].0;
    let next = if holds {
        at + 1
    } else {
        at
    };
    assert forall|j: int| next <= j < rows.len() implies key_lt(merged[p].0, (#[trigger] rows[j]).0) by {
        assert(!key_lt(rows[j].0, merged[p].0));
        if rows[j].0 == merged[p].0 {
            assert(has_key(rows, merged[p].0));
            lemma_unique_key(rows, at, j);
        }
    }
    if p + 1 < merged.len() {
        assert(key_lt(merged[p].0, merged[p + 1].0));
        assert forall|j: int| 0 <= j < rows.len() implies (if j < next {
            key_lt((#[trigger] rows[j]).0, merged[p + 1].0)
        } else {
            !key_lt(rows[j].0, merged[p + 1].0)
        }) by {
            if j >= next {
                let q = lemma_in_merged(sources, i, j);
                if q < p {
                    assert(key_lt(merged[q].0, merged[p].0));
                } else if q > p + 1 {
                    assert(key_lt(merged[p + 1].0, merged[q].0));
                }
            } else if j < at {
                assert(key_lt(rows[j].0, merged[p].0));
            }
        }
        assert(is_lower_bound(rows, merged[p + 1].0, next));
        lemma_lower_bound_unique(rows, merged[p + 1].0, next);
    } else if next < rows.len() {
        let q = lemma_in_merged(sources, i, next);
        assert(key_lt(merged[p].0, merged[q].0));
        if q < p {
            assert(key_lt(merged[q].0, merged[p].0));
        }
    }
}

/// The rows that a merge shows: all, or those that are not tombstones.
pub open spec fn visible(rows: Seq<Row>, keep_tombstones: bool) -> Seq<Row> {
    if keep_tombstones {
        rows
    } else {
        live_rows(rows)
    }
}

pub proof fn lemma_live_push(rows: Seq<Row>, row: Row)
    ensures
        live_rows(rows.push(row)) == (if row.1 is Some {
            live_rows(rows).push(row)
        } else {
            live_rows(rows)
        }),
        live_rows(Seq::<Row>::empty()) == Seq::<Row>::empty(),
{
    reveal(Seq::filter);
    assert(rows.push(row).drop_last() =~= rows);
}

/// How the visible rows grow along the rows.
pub proof fn lemma_visible_step(rows: Seq<Row>, p: int, keep: bool)
    requires
        0 <= p < rows.len(),
    ensures
        visible(rows.take(0), keep).len() == 0,
        visible(rows.take(p + 1), keep) == (if keep || rows[p].1 is Some {
            visible(rows.take(p), keep).push(rows[p])
        } else {
            visible(rows.take(p), keep)
        }),
{
    assert(rows.take(p + 1) =~= rows.take(p).push(rows[p]));
    assert(rows.take(0) =~= Seq::<Row>::empty());
    lemma_live_push(rows.take(p), rows[p]);
}

/// The visible rows of a prefix are a prefix of the visible rows.
pub proof fn lemma_visible_prefix(rows: Seq<Row>, p: int, keep: bool)
    requires
        0 <= p <= rows.len(),
    ensures
        visible(rows.take(p), keep).len() <= visible(rows, keep).len(),
        visible(rows.take(p), keep) == visible(rows, keep).take(visible(rows.take(p), keep).len() as int),
        p < rows.len() && (keep || rows[p].1 is Some) ==> visible(rows.take(p), keep).len() < visible(rows, keep).len()
            && visible(rows, keep)[visible(rows.take(p), keep).len() as int] == rows[p],
    decreases rows.len() - p,
{
    if p < rows.len() {
        lemma_visible_step(rows, p, keep);
        lemma_visible_prefix(rows, p + 1, keep);
        let shown = visible(rows.take(p), keep);
        let next = visible(rows.take(p + 1), keep);
        let all = visible(rows, keep);
        assert(shown =~= next.take(shown.len() as int));
        assert(all.take(next.len() as int).take(shown.len() as int) =~= all.take(shown.len() as int));
        if keep || rows[p].1 is Some {
            assert(next[shown.len() as int] == all.take(next.len() as int)[shown.len() as int]);
        }
    } else {
        assert(rows.take(p) =~= rows);
        assert(visible(rows, keep).take(visible(rows, keep).len() as int) =~= visible(rows, keep));
    }
}

/// Visible rows are sorted, and hold what the rows hold, tombstones left out.
pub proof fn lemma_visible(rows: Seq<Row>, keep: bool)
    requires
        sorted(rows),
    ensures
        sorted(visible(rows, keep)),
        forall|i: int| 0 <= i < visible(rows, keep).len() ==> has_key(rows, (#[trigger] visible(rows, keep)[i]).0)
            && rows_get(rows, visible(rows, keep)[i].0) == Some(visible(rows, keep)[i].1) && (keep || visible(rows, keep)[i].1
            is Some),
    decreases rows.len(),
{
    broadcast use group_key_order;

    if rows.len() > 0 {
        let before = rows.drop_last();
        let last = rows.last();
        lemma_sorted_subrange(rows, 0, rows.len() - 1);
        assert(before =~= rows.subrange(0, rows.len() - 1));
        lemma_visible(before, keep);
        assert(before.push(last) =~= rows);
        lemma_live_push(before, last);
        let old_shown = visible(before, keep);
        let shown = visible(rows, keep);
        lemma_rows_get_at(rows, rows.len() - 1);
        assert forall|i: int| 0 <= i < shown.len() implies has_key(rows, (#[trigger] shown[i]).0) && rows_get(
            rows,
            shown[i].0,
        ) == Some(shown[i].1) && (keep || shown[i].1 is Some) by {
            if keep {
                lemma_rows_get_at(rows, i);
            } else if i < old_shown.len() {
                assert(old_shown[i] == shown[i]);
                let j = index_of_key(before, shown[i].0);
                assert(before[j] == rows[j]);
                lemma_rows_get_at(before, j);
                lemma_rows_get_at(rows, j);
            }
        }
        assert forall|i: int, j: int| 0 <= i < j < shown.len() implies key_lt(
            #[trigger] shown[i].0,
            #[trigger] shown[j].0,
        ) by {
            if !keep {
                assert(old_shown[i] == shown[i]);
                if j < old_shown.len() {
                    assert(old_shown[j] == shown[j]);
                } else {
                    let k = index_of_key(before, shown[i].0);
                    assert(before[k] == rows[k]);
                    assert(key_lt(rows[k].0, rows[rows.len() - 1].0));
                }
            }
        }
    } else {
        assert(rows =~= Seq::<Row>::empty());
        lemma_live_push(rows, (Seq::empty(), None));
    }
}

/// A row that is visible is found among the visible rows.
pub proof fn lemma_visible_has(rows: Seq<Row>, keep: bool, p: int) -> (q: int)
    requires
        0 <= p < rows.len(),
        keep || rows[p].1 is Some,
    ensures
        0 <= q < visible(rows, keep).len(),
        visible(rows, keep)[q] == rows[p],
{
    lemma_visible_prefix(rows, p, keep);
    visible(rows.take(p), keep).len() as int
}

/// Seeking among the visible rows is seeking among all and going on to the next visible one.
pub proof fn lemma_visible_lower_bound(rows: Seq<Row>, keep: bool, target: Seq<char>)
    requires
        sorted(rows),
    ensures
        lower_bound(visible(rows, keep), target) == visible(rows.take(lower_bound(rows, target)), keep).len(),
{
    broadcast use group_key_order;

    let p = lower_bound(rows, target);
    let shown = visible(rows, keep);
    lemma_lower_bound(rows, target);
    lemma_visible(rows, keep);
    lemma_visible_prefix(rows, p, keep);
    let front = visible(rows.take(p), keep);
    let n = front.len() as int;
    lemma_sorted_subrange(rows, 0, p);
    assert(rows.take(p) =~= rows.subrange(0, p));
    lemma_visible(rows.take(p), keep);
    assert forall|i: int| 0 <= i < shown.len() implies (if i < n {
        key_lt((#[trigger] shown[i]).0, target)
    } else {
        !key_lt(shown[i].0, target)
    }) by {
        if i < n {
            assert(front[i] == shown[i]);
            let j = index_of_key(rows.take(p), shown[i].0);
            assert(rows.take(p)[j] == rows[j]);
        } else if key_lt(shown[i].0, target) {
            let j = index_of_key(rows, shown[i].0);
            assert(has_key(rows, shown[i].0));
            if j >= p {
                assert(!key_lt(rows[j].0, target));
            }
            lemma_rows_get_at(rows, j);
            assert(rows[j] == shown[i]);
            assert(rows.take(p)[j] == rows[j]);
            let q = lemma_visible_has(rows.take(p), keep, j);
            assert(front[q] == shown[q]);
            lemma_unique_key(shown, q, i);
        }
    }
    assert(is_lower_bound(shown, target, n));
    lemma_lower_bound_unique(shown, target, n);
}

}
