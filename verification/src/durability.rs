//! What is on the disk, and what opening the directory finds again.
use crate::disk::{
    applied, applied_all, crash_leaves, file_or_empty, interrupted, lemma_applied_concat, lemma_crash_concat, FileOp,
    Image,
};
use crate::engine::{contents, lemma_lookup, TreeState};
use crate::levels::{
    ascending, first_level, held_above, lemma_first_level, lemma_levels_get_at, lemma_levels_get_none, level_at,
    level_holds, levels_get, Levels, TableState,
};
use crate::merge::{all_ascending, ids_below, level_count_ok, levels_ok, unique_ids};
use crate::names::{is_tmp, law_fixed_names, law_names_are_apart, parse_table_name, pending_name, wal_name};
use crate::recovery::{
    cleaned, discovered, has_table_file, input_removals, insert_found, is_leftover, is_merged_input, is_table_file,
    lemma_cleaned, loaded, log_in, log_ops, marker_is_text, merge_removals, opening, opening_ops, outputs_present,
    pending_in, replayed, tmp_removals, with_table, Found, Opening, Pending,
};
use crate::rows::Row;
use crate::table::parse_table;
use crate::wal::{law_log_concat, law_truncated_log_is_clean, scan_log};
use vstd::prelude::*;

verus! {

/// The same tables, level by level; one of them may have more empty levels at the end.
pub open spec fn same_levels(a: Levels, b: Levels) -> bool {
    forall|l: int| #[trigger] level_at(a, l) == level_at(b, l)
}

/// Whether a table of level `level` is in its file.
pub open spec fn stored(image: Image, level: int, table: TableState) -> bool {
    &&& 0 <= level <= u32::MAX
    &&& parse_table_name(table.path) == Some((table.id, level as u32))
    &&& image.dom().contains(table.path)
    &&& image[table.path] == table.bytes
}

/// Whether the table files in a directory are those of the levels.
pub open spec fn files_match(levels: Levels, image: Image) -> bool {
    &&& forall|l: int, t: TableState| #[trigger] level_at(levels, l).contains(t) ==> stored(image, l, t)
    &&& forall|name: Seq<char>| #[trigger]
        image.dom().contains(name) && parse_table_name(name) is Some ==> is_path_in(levels, name)
}

pub open spec fn is_path_in(levels: Levels, name: Seq<char>) -> bool {
    exists|l: int, t: TableState| #[trigger] level_at(levels, l).contains(t) && t.path == name
}

/// Whether no table is an output and an input of the merge that is pending.
pub open spec fn marker_is_sound(image: Image) -> bool {
    pending_in(image) matches Some(pending) ==> forall|i: int|
        0 <= i < pending.outputs.len() ==> !pending.inputs.contains(#[trigger] pending.outputs[i])
}

/// Whether opening a directory will find these tables and this memtable.
pub open spec fn represents(image: Image, tree: TreeState, memtable: Seq<Row>) -> bool {
    &&& marker_is_text(image)
    &&& marker_is_sound(image)
    &&& files_match(tree.levels, cleaned(image))
    &&& levels_ok(tree.levels, tree.next_id)
    &&& level_count_ok(tree.levels)
    &&& 0 <= tree.next_id <= u64::MAX
    &&& !(scan_log(log_in(image)).end is Corrupt)
    &&& replayed(scan_log(log_in(image)).rows) == memtable
}

/// Whether a directory holds nothing that an interrupted operation left behind.
pub open spec fn settled(image: Image) -> bool {
    &&& forall|name: Seq<char>| #[trigger] image.dom().contains(name) ==> !is_tmp(name)
    &&& !image.dom().contains(pending_name())
    &&& image.dom().contains(wal_name())
    &&& scan_log(image[wal_name()]).end is Clean
}

/// Whether the names are those of the files, each once.
pub open spec fn lists(names: Seq<Seq<char>>, image: Image) -> bool {
    &&& names.no_duplicates()
    &&& forall|name: Seq<char>| #[trigger] image.dom().contains(name) <==> names.contains(name)
}

proof fn lemma_holds_at(a: Levels, b: Levels, l: int, key: Seq<char>)
    requires
        same_levels(a, b),
        0 <= l < a.len(),
        level_holds(a[l], key),
    ensures
        l < b.len(),
        b[l] == a[l],
{
    assert(level_at(a, l) == level_at(b, l));
}

/// The same tables store the same.
pub proof fn lemma_same_levels_get(a: Levels, b: Levels, key: Seq<char>)
    requires
        same_levels(a, b),
    ensures
        levels_get(a, key) == levels_get(b, key),
{
    lemma_first_level(a, key, 0);
    lemma_first_level(b, key, 0);
    let i = first_level(a, key, 0);
    let j = first_level(b, key, 0);
    if i < a.len() {
        lemma_holds_at(a, b, i, key);
        assert forall|l: int| 0 <= l < i implies !level_holds(#[trigger] b[l], key) by {
            assert(level_at(a, l) == level_at(b, l));
            assert(!level_holds(a[l], key));
        }
        lemma_levels_get_at(a, key, i);
        lemma_levels_get_at(b, key, i);
    } else {
        if j < b.len() {
            assert(same_levels(b, a));
            lemma_holds_at(b, a, j, key);
            assert(!level_holds(a[j], key));
        }
        lemma_levels_get_none(a, key);
        lemma_levels_get_none(b, key);
    }
}

/// The same tables are in order alike.
pub proof fn lemma_same_levels_ok(a: Levels, b: Levels, next_a: int, next_b: int)
    requires
        same_levels(a, b),
        levels_ok(a, next_a),
        ids_below(b, next_b),
        1 <= b.len(),
    ensures
        levels_ok(b, next_b),
{
    assert forall|l: int, i: int| 0 <= l < b.len() && 0 <= i < b[l].len() implies (#[trigger] b[l][i]).wf() by {
        assert(level_at(a, l) == level_at(b, l));
        assert(a[l][i].wf());
    }
    assert forall|l: int, i: int, m: int, j: int|
        #![trigger b[l][i], b[m][j]]
        0 <= l < b.len() && 0 <= i < b[l].len() && 0 <= m < b.len() && 0 <= j < b[m].len() && b[l][i].id
            == b[m][j].id implies l == m && i == j by {
        assert(level_at(a, l) == level_at(b, l));
        assert(level_at(a, m) == level_at(b, m));
        assert(a[l][i].id == a[m][j].id);
    }
    assert forall|l: int| 0 <= l < b.len() implies ascending(#[trigger] b[l]) by {
        assert(level_at(a, l) == level_at(b, l));
        if l < a.len() {
            assert(ascending(a[l]));
        }
    }
    assert forall|l: int, s: TableState, t: TableState, key: Seq<char>|
        #![trigger b[l].contains(s), b[l].contains(t), s.holds(key)]
        1 <= l < b.len() && b[l].contains(s) && b[l].contains(t) && s.holds(key) && t.holds(key) implies s.get(key)
        == t.get(key) || held_above(b, l, key) by {
        assert(level_at(a, l) == level_at(b, l));
        assert(a[l].contains(s) && a[l].contains(t));
        if held_above(a, l, key) {
            let m = choose|m: int| 0 <= m < l && m < a.len() && level_holds(#[trigger] a[m], key);
            lemma_holds_at(a, b, m, key);
            assert(level_holds(b[m], key));
        }
    }
}

/// Ascending ids leave no choice of the order.
proof fn lemma_ascending_unique(a: Seq<TableState>, b: Seq<TableState>)
    requires
        ascending(a),
        ascending(b),
        forall|t: TableState| #[trigger] a.contains(t) <==> b.contains(t),
    ensures
        a == b,
    decreases a.len(),
{
    if a.len() == 0 {
        if b.len() > 0 {
            assert(b.contains(b[0]));
            assert(a.contains(b[0]));
        }
        assert(a =~= b);
    } else {
        assert(a.contains(a.last()));
        assert(b.contains(a.last()));
        let j = choose|j: int| 0 <= j < b.len() && b[j] == a.last();
        if j < b.len() - 1 {
            assert(b.contains(b.last()));
            assert(a.contains(b.last()));
            let i = choose|i: int| 0 <= i < a.len() && a[i] == b.last();
            assert(b[j].id < b[b.len() - 1].id);
            if i < a.len() - 1 {
                assert(a[i].id < a[a.len() - 1].id);
            }
        }
        assert(a.last() == b.last());
        let c = a.drop_last();
        let d = b.drop_last();
        assert forall|t: TableState| #[trigger] c.contains(t) <==> d.contains(t) by {
            assert(a.contains(t) <==> b.contains(t));
            if c.contains(t) {
                let i = choose|i: int| 0 <= i < c.len() && c[i] == t;
                assert(a[i] == t);
                assert(a.contains(t));
                let k = choose|k: int| 0 <= k < b.len() && b[k] == t;
                assert(a[i].id < a[a.len() - 1].id);
                assert(k < b.len() - 1);
                assert(d[k] == t);
            }
            if d.contains(t) {
                let i = choose|i: int| 0 <= i < d.len() && d[i] == t;
                assert(b[i] == t);
                assert(b.contains(t));
                let k = choose|k: int| 0 <= k < a.len() && a[k] == t;
                assert(b[i].id < b[b.len() - 1].id);
                assert(k < a.len() - 1);
                assert(c[k] == t);
            }
        }
        assert forall|i: int, k: int| 0 <= i < k < c.len() implies (#[trigger] c[i]).id < (#[trigger] c[k]).id by {
            assert(a[i].id < a[k].id);
        }
        assert forall|i: int, k: int| 0 <= i < k < d.len() implies (#[trigger] d[i]).id < (#[trigger] d[k]).id by {
            assert(b[i].id < b[k].id);
        }
        lemma_ascending_unique(c, d);
        assert(a =~= c.push(a.last()));
        assert(b =~= d.push(b.last()));
    }
}

spec fn is_found(image: Image, file: Found) -> bool {
    &&& parse_table_name(file.name) == Some((file.id, file.level))
    &&& image.dom().contains(file.name)
}

spec fn found_ascending(found: Seq<Found>) -> bool {
    forall|i: int, j: int| 0 <= i < j < found.len() ==> (#[trigger] found[i]).id < (#[trigger] found[j]).id
}

spec fn same_place(a: Found, b: Found) -> bool {
    a.id == b.id && a.level == b.level
}

/// Files ordered by id, of which no two have the same id and the same level.
spec fn found_apart(found: Seq<Found>) -> bool {
    forall|i: int, j: int|
        0 <= i < j < found.len() ==> (#[trigger] found[i]).id <= (#[trigger] found[j]).id && !same_place(
            found[i],
            found[j],
        )
}

/// No two table files have the same id.
spec fn distinct_files(image: Image) -> bool {
    forall|a: Seq<char>, b: Seq<char>|
        #![trigger image.dom().contains(a), image.dom().contains(b)]
        image.dom().contains(a) && image.dom().contains(b) && parse_table_name(a) is Some && parse_table_name(b) is Some
            && (parse_table_name(a)->Some_0).0 == (parse_table_name(b)->Some_0).0 ==> a == b
}

/// No two table files have the same id and the same level.
pub open spec fn no_table_twice(image: Image) -> bool {
    forall|a: Seq<char>, b: Seq<char>|
        #![trigger image.dom().contains(a), image.dom().contains(b)]
        image.dom().contains(a) && image.dom().contains(b) && parse_table_name(a) is Some && parse_table_name(a)
            == parse_table_name(b) ==> a == b
}

proof fn lemma_insert_found(found: Seq<Found>, file: Found)
    ensures
        found_apart(found) && (forall|i: int| 0 <= i < found.len() ==> !same_place(#[trigger] found[i], file))
            ==> found_apart(insert_found(found, file)),
        forall|f: Found| #[trigger] insert_found(found, file).contains(f) <==> found.contains(f) || f == file,
    decreases found.len(),
{
    let after = insert_found(found, file);
    if found.len() == 0 {
        assert(after[0] == file);
        assert forall|f: Found| #[trigger] after.contains(f) <==> found.contains(f) || f == file by {
            if f == file {
                assert(after[0] == f);
            }
        }
    } else if found.last().id > file.id {
        let before = found.drop_last();
        lemma_insert_found(before, file);
        let earlier = insert_found(before, file);
        assert(after == earlier.push(found.last()));
        assert forall|f: Found| #[trigger] after.contains(f) <==> found.contains(f) || f == file by {
            if after.contains(f) {
                let i = choose|i: int| 0 <= i < after.len() && after[i] == f;
                if i < earlier.len() {
                    assert(earlier[i] == f);
                    assert(earlier.contains(f));
                    if before.contains(f) {
                        let k = choose|k: int| 0 <= k < before.len() && before[k] == f;
                        assert(found[k] == f);
                    }
                } else {
                    assert(found[found.len() - 1] == f);
                }
            }
            if found.contains(f) {
                let k = choose|k: int| 0 <= k < found.len() && found[k] == f;
                if k < before.len() {
                    assert(before[k] == f);
                    assert(before.contains(f));
                    assert(earlier.contains(f));
                    let i = choose|i: int| 0 <= i < earlier.len() && earlier[i] == f;
                    assert(after[i] == f);
                } else {
                    assert(after[after.len() - 1] == f);
                }
            }
            if f == file {
                assert(earlier.contains(f));
                let i = choose|i: int| 0 <= i < earlier.len() && earlier[i] == f;
                assert(after[i] == f);
            }
        }
        if found_apart(found) && (forall|i: int| 0 <= i < found.len() ==> !same_place(#[trigger] found[i], file)) {
            assert forall|i: int, j: int| 0 <= i < j < before.len() implies (#[trigger] before[i]).id <= (
            #[trigger] before[j]).id && !same_place(before[i], before[j]) by {
                assert(found[i].id <= found[j].id && !same_place(found[i], found[j]));
            }
            assert forall|i: int| 0 <= i < before.len() implies !same_place(#[trigger] before[i], file) by {
                assert(!same_place(found[i], file));
            }
            assert(found_apart(earlier));
            assert forall|i: int, j: int| 0 <= i < j < after.len() implies (#[trigger] after[i]).id <= (
            #[trigger] after[j]).id && !same_place(after[i], after[j]) by {
                assert(after[i] == earlier[i]);
                if j < earlier.len() {
                    assert(after[j] == earlier[j]);
                } else {
                    assert(earlier.contains(earlier[i]));
                    if before.contains(earlier[i]) {
                        let k = choose|k: int| 0 <= k < before.len() && before[k] == earlier[i];
                        assert(found[k].id <= found[found.len() - 1].id && !same_place(found[k], found[found.len() - 1]));
                    }
                }
            }
        }
    } else {
        assert(after == found.push(file));
        assert forall|f: Found| #[trigger] after.contains(f) <==> found.contains(f) || f == file by {
            if after.contains(f) {
                let i = choose|i: int| 0 <= i < after.len() && after[i] == f;
                if i < found.len() {
                    assert(found[i] == f);
                }
            }
            if found.contains(f) {
                let k = choose|k: int| 0 <= k < found.len() && found[k] == f;
                assert(after[k] == f);
            }
            if f == file {
                assert(after[found.len() as int] == f);
            }
        }
        if found_apart(found) && (forall|i: int| 0 <= i < found.len() ==> !same_place(#[trigger] found[i], file)) {
            assert forall|i: int, j: int| 0 <= i < j < after.len() implies (#[trigger] after[i]).id <= (
            #[trigger] after[j]).id && !same_place(after[i], after[j]) by {
                assert(after[i] == found[i]);
                if j < found.len() {
                    assert(after[j] == found[j]);
                } else {
                    assert(!same_place(found[i], file));
                    if i < found.len() - 1 {
                        assert(found[i].id <= found[found.len() - 1].id);
                    }
                }
            }
        }
    }
}

/// The table files are all found, in the order of their ids.
proof fn lemma_discovered(names: Seq<Seq<char>>, image: Image)
    ensures
        names.no_duplicates() && no_table_twice(image) ==> found_apart(discovered(names, image)),
        forall|f: Found| #[trigger]
            discovered(names, image).contains(f) <==> names.contains(f.name) && is_found(image, f),
    decreases names.len(),
{
    let found = discovered(names, image);
    if names.len() == 0 {
        assert forall|f: Found| #[trigger] found.contains(f) <==> names.contains(f.name) && is_found(image, f) by {}
    } else {
        let rest = names.drop_last();
        let name = names.last();
        let before = discovered(rest, image);
        lemma_discovered(rest, image);
        assert forall|n: Seq<char>| names.contains(n) <==> (#[trigger] rest.contains(n) || n == name) by {
            if names.contains(n) {
                let i = choose|i: int| 0 <= i < names.len() && names[i] == n;
                if i < rest.len() {
                    assert(rest[i] == n);
                }
            }
            if rest.contains(n) {
                let i = choose|i: int| 0 <= i < rest.len() && rest[i] == n;
                assert(names[i] == n);
            }
            if n == name {
                assert(names[names.len() - 1] == n);
            }
        }
        if names.no_duplicates() {
            assert forall|i: int, j: int| 0 <= i < j < rest.len() implies rest[i] != rest[j] by {
                assert(names[i] != names[j]);
            }
        }
        let here = parse_table_name(name) is Some && image.dom().contains(name);
        if here {
            let (id, level) = parse_table_name(name)->Some_0;
            let file = Found { id, level, name };
            lemma_insert_found(before, file);
            if names.no_duplicates() && no_table_twice(image) {
                assert forall|i: int| 0 <= i < before.len() implies !same_place(#[trigger] before[i], file) by {
                    assert(before.contains(before[i]));
                    if same_place(before[i], file) {
                        assert(image.dom().contains(before[i].name) && image.dom().contains(name));
                        let k = choose|k: int| 0 <= k < rest.len() && rest[k] == name;
                        assert(names[k] != names[names.len() - 1]);
                    }
                }
            }
        }
        assert forall|f: Found| #[trigger] found.contains(f) <==> names.contains(f.name) && is_found(image, f) by {
            assert(names.contains(f.name) <==> (rest.contains(f.name) || f.name == name));
            assert(before.contains(f) <==> rest.contains(f.name) && is_found(image, f));
        }
    }
}

/// Files with different ids are found in ascending order.
proof fn lemma_discovered_ascending(names: Seq<Seq<char>>, image: Image)
    requires
        names.no_duplicates(),
        distinct_files(image),
    ensures
        found_ascending(discovered(names, image)),
{
    let found = discovered(names, image);
    lemma_discovered(names, image);
    assert(no_table_twice(image));
    assert forall|i: int, j: int| 0 <= i < j < found.len() implies (#[trigger] found[i]).id < (#[trigger] found[j]).id by {
        assert(found.contains(found[i]) && found.contains(found[j]));
        assert(image.dom().contains(found[i].name) && image.dom().contains(found[j].name));
        assert(!same_place(found[i], found[j]));
    }
}

spec fn table_of(file: Found, image: Image) -> TableState {
    TableState { id: file.id, path: file.name, bytes: image[file.name] }
}

spec fn found_table(found: Seq<Found>, image: Image, level: int, table: TableState) -> bool {
    exists|f: Found| #[trigger] found.contains(f) && f.level == level && table == table_of(f, image)
}

/// The tables of the files, whatever their order; where no two files have the same id and the same
/// level, ids ascend in every level.
proof fn lemma_loaded_levels(found: Seq<Found>, image: Image)
    ensures
        loaded(found, image) is Ok <==> forall|i: int|
            0 <= i < found.len() ==> parse_table(image[(#[trigger] found[i]).name]) is Ok,
        loaded(found, image) matches Ok(tree) ==> {
            &&& 1 <= tree.levels.len() <= 4294967296
            &&& 0 <= tree.next_id <= u64::MAX
            &&& forall|l: int, t: TableState| #[trigger]
                level_at(tree.levels, l).contains(t) <==> found_table(found, image, l, t)
            &&& forall|i: int| 0 <= i < found.len() ==> (#[trigger] found[i]).level < tree.levels.len()
            &&& tree.levels.len() > 1 ==> level_at(tree.levels, tree.levels.len() - 1).len() > 0
            &&& found_apart(found) ==> all_ascending(tree.levels)
        },
    decreases found.len(),
{
    if found.len() == 0 {
        let levels = (loaded(found, image)->Ok_0).levels;
        assert forall|l: int, t: TableState| #[trigger] level_at(levels, l).contains(t) <==> found_table(
            found,
            image,
            l,
            t,
        ) by {
            if l == 0 {
                assert(level_at(levels, l) == Seq::<TableState>::empty());
            }
        }
    } else {
        let before = found.drop_last();
        let file = found.last();
        let level = file.level as int;
        lemma_loaded_levels(before, image);
        assert(found[found.len() - 1] == file);
        assert(forall|i: int| 0 <= i < before.len() ==> (#[trigger] before[i]) == found[i]);
        if loaded(found, image) is Ok {
            let earlier = loaded(before, image)->Ok_0;
            let table = table_of(file, image);
            let levels = (loaded(found, image)->Ok_0).levels;
            assert forall|i: int| 0 <= i < found.len() implies parse_table(image[(#[trigger] found[i]).name]) is Ok
                && found[i].level < levels.len() by {
                if i < before.len() {
                    assert(before[i] == found[i]);
                }
            }
            assert(levels == with_table(earlier.levels, level, table));
            assert forall|l: int|
                #[trigger] level_at(levels, l) == (if l == level {
                    level_at(earlier.levels, l).push(table)
                } else {
                    level_at(earlier.levels, l)
                }) by {}
            assert forall|l: int, t: TableState| #[trigger] level_at(levels, l).contains(t) <==> found_table(
                found,
                image,
                l,
                t,
            ) by {
                let own = level_at(earlier.levels, l);
                assert(own.contains(t) <==> found_table(before, image, l, t));
                if level_at(levels, l).contains(t) {
                    let k = choose|k: int| 0 <= k < level_at(levels, l).len() && level_at(levels, l)[k] == t;
                    if k < own.len() {
                        assert(own[k] == t);
                        assert(own.contains(t));
                        let f = choose|f: Found| #[trigger]
                            before.contains(f) && f.level == l && t == table_of(f, image);
                        let m = choose|m: int| 0 <= m < before.len() && before[m] == f;
                        assert(found[m] == f);
                        assert(found.contains(f));
                    } else {
                        assert(found.contains(file));
                    }
                }
                if found_table(found, image, l, t) {
                    let f = choose|f: Found| #[trigger] found.contains(f) && f.level == l && t == table_of(f, image);
                    let m = choose|m: int| 0 <= m < found.len() && found[m] == f;
                    if m < before.len() {
                        assert(before[m] == f);
                        assert(before.contains(f));
                        assert(own.contains(t));
                        let k = choose|k: int| 0 <= k < own.len() && own[k] == t;
                        assert(level_at(levels, l)[k] == t);
                    } else {
                        assert(level_at(levels, l)[own.len() as int] == t);
                    }
                }
            }
            if found_apart(found) {
                assert forall|i: int, j: int| 0 <= i < j < before.len() implies (#[trigger] before[i]).id <= (
                #[trigger] before[j]).id && !same_place(before[i], before[j]) by {
                    assert(found[i].id <= found[j].id && !same_place(found[i], found[j]));
                }
                assert forall|l: int| 0 <= l < levels.len() implies ascending(#[trigger] levels[l]) by {
                    let own = level_at(earlier.levels, l);
                    assert(level_at(levels, l) == levels[l]);
                    if l < earlier.levels.len() {
                        assert(ascending(earlier.levels[l]));
                    }
                    assert forall|i: int, j: int| 0 <= i < j < levels[l].len() implies (#[trigger] levels[l][i]).id < (
                    #[trigger] levels[l][j]).id by {
                        assert(levels[l][i] == own[i]);
                        if j < own.len() {
                            assert(levels[l][j] == own[j]);
                        } else {
                            assert(own.contains(own[i]));
                            assert(found_table(before, image, l, own[i]));
                            let f = choose|f: Found| #[trigger]
                                before.contains(f) && f.level == l && own[i] == table_of(f, image);
                            let m = choose|m: int| 0 <= m < before.len() && before[m] == f;
                            assert(found[m].id <= found[found.len() - 1].id && !same_place(
                                found[m],
                                found[found.len() - 1],
                            ));
                        }
                    }
                }
            }
        } else if loaded(before, image) is Ok {
            assert(parse_table(image[found[found.len() - 1].name]) is Err);
        } else {
            let i = choose|i: int| 0 <= i < before.len() && parse_table(image[(#[trigger] before[i]).name]) is Err;
            assert(parse_table(image[found[i].name]) is Err);
        }
    }
}

/// The next id is behind the ids of the tables, where those ascend.
proof fn lemma_loaded(found: Seq<Found>, image: Image, bound: int)
    requires
        found_ascending(found),
        forall|i: int| 0 <= i < found.len() ==> parse_table(image[(#[trigger] found[i]).name]) is Ok,
        forall|i: int| 0 <= i < found.len() ==> (#[trigger] found[i]).id < bound,
        0 <= bound <= u64::MAX,
    ensures
        loaded(found, image) is Ok,
        ({
            let tree = loaded(found, image)->Ok_0;
            &&& 0 <= tree.next_id <= bound
            &&& ids_below(tree.levels, tree.next_id)
            &&& found.len() > 0 ==> tree.next_id == found.last().id + 1
        }),
    decreases found.len(),
{
    if found.len() > 0 {
        let before = found.drop_last();
        let file = found.last();
        assert forall|i: int, j: int| 0 <= i < j < before.len() implies (#[trigger] before[i]).id < (
        #[trigger] before[j]).id by {
            assert(found[i].id < found[j].id);
        }
        assert forall|i: int| 0 <= i < before.len() implies parse_table(image[(#[trigger] before[i]).name]) is Ok
            && before[i].id < bound by {
            assert(before[i] == found[i]);
            assert(parse_table(image[found[i].name]) is Ok);
        }
        lemma_loaded(before, image, bound);
        let earlier = loaded(before, image)->Ok_0;
        assert(found[found.len() - 1] == file);
        assert(parse_table(image[file.name]) is Ok);
        let tree = loaded(found, image)->Ok_0;
        let levels = tree.levels;
        if before.len() > 0 {
            assert(found[before.len() - 1].id < found[found.len() - 1].id);
            assert(before.last() == found[before.len() - 1]);
        }
        assert forall|l: int, i: int| 0 <= l < levels.len() && 0 <= i < levels[l].len() implies (
        #[trigger] levels[l][i]).id < tree.next_id by {
            let own = level_at(earlier.levels, l);
            assert(level_at(levels, l) == levels[l]);
            if i < own.len() {
                assert(levels[l][i] == own[i]);
                assert(earlier.levels[l][i].id < earlier.next_id);
            }
        }
    }
}

/// Table files that belong to tables with different ids have different ids.
proof fn lemma_distinct_files(levels: Levels, image: Image)
    requires
        unique_ids(levels),
        files_match(levels, image),
    ensures
        distinct_files(image),
{
    assert forall|a: Seq<char>, b: Seq<char>|
        #![trigger image.dom().contains(a), image.dom().contains(b)]
        image.dom().contains(a) && image.dom().contains(b) && parse_table_name(a) is Some && parse_table_name(b) is Some
            && (parse_table_name(a)->Some_0).0 == (parse_table_name(b)->Some_0).0 implies a == b by {
        assert(is_path_in(levels, a) && is_path_in(levels, b));
        let (l, s) = choose|l: int, t: TableState| #[trigger] level_at(levels, l).contains(t) && t.path == a;
        let (m, t) = choose|l: int, t: TableState| #[trigger] level_at(levels, l).contains(t) && t.path == b;
        assert(stored(image, l, s) && stored(image, m, t));
        let i = choose|i: int| 0 <= i < level_at(levels, l).len() && level_at(levels, l)[i] == s;
        let j = choose|j: int| 0 <= j < level_at(levels, m).len() && level_at(levels, m)[j] == t;
        assert(levels[l][i].id == levels[m][j].id);
    }
}

/// Opening finds the tables of the files again.
proof fn lemma_tables_found(names: Seq<Seq<char>>, image: Image, levels: Levels, next_id: int)
    requires
        names.no_duplicates(),
        forall|name: Seq<char>| #[trigger] image.dom().contains(name) ==> names.contains(name),
        files_match(levels, image),
        levels_ok(levels, next_id),
        0 <= next_id <= u64::MAX,
    ensures
        loaded(discovered(names, image), image) matches Ok(tree) && same_levels(levels, tree.levels) && levels_ok(
            tree.levels,
            tree.next_id,
        ) && level_count_ok(tree.levels) && 0 <= tree.next_id <= next_id,
{
    lemma_distinct_files(levels, image);
    lemma_discovered(names, image);
    lemma_discovered_ascending(names, image);
    let found = discovered(names, image);
    assert forall|i: int| 0 <= i < found.len() implies parse_table(image[(#[trigger] found[i]).name]) is Ok && found[i].id
        < next_id by {
        assert(found.contains(found[i]));
        let name = found[i].name;
        assert(is_path_in(levels, name));
        let (l, t) = choose|l: int, t: TableState| #[trigger] level_at(levels, l).contains(t) && t.path == name;
        assert(stored(image, l, t));
        let j = choose|j: int| 0 <= j < level_at(levels, l).len() && level_at(levels, l)[j] == t;
        assert(levels[l][j].wf());
        assert(levels[l][j].id < next_id);
    }
    lemma_loaded(found, image, next_id);
    lemma_loaded_levels(found, image);
    let tree = loaded(found, image)->Ok_0;
    assert forall|l: int| #[trigger] level_at(levels, l) == level_at(tree.levels, l) by {
        let a = level_at(levels, l);
        let b = level_at(tree.levels, l);
        assert forall|t: TableState| #[trigger] a.contains(t) <==> b.contains(t) by {
            if a.contains(t) {
                assert(stored(image, l, t));
                let f = Found { id: t.id, level: l as u32, name: t.path };
                assert(is_found(image, f));
                assert(found.contains(f));
                assert(t == table_of(f, image));
                assert(found_table(found, image, l, t));
            }
            if b.contains(t) {
                assert(found_table(found, image, l, t));
                let f = choose|f: Found| #[trigger] found.contains(f) && f.level == l && t == table_of(f, image);
                assert(is_found(image, f));
                assert(is_path_in(levels, f.name));
                let (m, s) = choose|m: int, s: TableState| #[trigger]
                    level_at(levels, m).contains(s) && s.path == f.name;
                assert(stored(image, m, s));
                assert(m == l);
                assert(s == t);
            }
        }
        if 0 <= l < levels.len() {
            assert(ascending(levels[l]));
        }
        if 0 <= l < tree.levels.len() {
            assert(ascending(tree.levels[l]));
        }
        lemma_ascending_unique(a, b);
    }
    lemma_same_levels_ok(levels, tree.levels, next_id, tree.next_id);
}

/// Files under the same names, and the same in the log.
pub open spec fn same_files(a: Image, b: Image) -> bool {
    &&& forall|name: Seq<char>|
        parse_table_name(name) is Some ==> (#[trigger] a.dom().contains(name) <==> b.dom().contains(name))
    &&& forall|name: Seq<char>|
        parse_table_name(name) is Some && a.dom().contains(name) ==> #[trigger] a[name] == b[name]
}

/// A directory with the same tables and another log.
pub proof fn lemma_same_tables(a: Image, b: Image, tree: TreeState, memtable: Seq<Row>)
    requires
        represents(a, tree, memtable),
        same_files(cleaned(a), cleaned(b)),
        marker_is_text(b),
        marker_is_sound(b),
        !(scan_log(log_in(b)).end is Corrupt),
    ensures
        represents(b, tree, replayed(scan_log(log_in(b)).rows)),
{
    let x = cleaned(a);
    let y = cleaned(b);
    assert forall|l: int, t: TableState| #[trigger] level_at(tree.levels, l).contains(t) implies stored(y, l, t) by {
        assert(stored(x, l, t));
        assert(x.dom().contains(t.path));
        assert(x[t.path] == y[t.path]);
    }
    assert forall|name: Seq<char>| #[trigger]
        y.dom().contains(name) && parse_table_name(name) is Some implies is_path_in(tree.levels, name) by {
        assert(x.dom().contains(name));
    }
}

/// What a directory represents depends on its tables and its log alone.
pub proof fn lemma_same_files(a: Image, b: Image, tree: TreeState, memtable: Seq<Row>)
    requires
        represents(a, tree, memtable),
        same_files(cleaned(a), cleaned(b)),
        marker_is_text(b),
        marker_is_sound(b),
        !(scan_log(log_in(b)).end is Corrupt),
        replayed(scan_log(log_in(b)).rows) == memtable,
    ensures
        represents(b, tree, memtable),
{
    lemma_same_tables(a, b, tree, memtable);
}

/// Nothing is to be cleaned up where nothing is left over.
pub proof fn lemma_nothing_left(image: Image)
    requires
        forall|name: Seq<char>| #[trigger] image.dom().contains(name) ==> !is_tmp(name),
        !image.dom().contains(pending_name()),
    ensures
        cleaned(image) == image,
{
    assert(cleaned(image) =~= image);
}

/// A cleaned directory has no leftovers.
proof fn lemma_cleaned_is_clean(image: Image)
    ensures
        forall|name: Seq<char>| #[trigger] cleaned(image).dom().contains(name) ==> !is_tmp(name),
        !cleaned(image).dom().contains(pending_name()),
        cleaned(cleaned(image)) == cleaned(image),
        log_in(cleaned(image)) == log_in(image),
        cleaned(image).dom().contains(wal_name()) <==> image.dom().contains(wal_name()),
{
    law_names_are_apart(wal_name());
    lemma_nothing_left(cleaned(image));
}

/// The log after what does not belong to a complete record has been cut off.
proof fn lemma_log_cut(image: Image)
    requires
        forall|name: Seq<char>| #[trigger] image.dom().contains(name) ==> !is_tmp(name),
        !image.dom().contains(pending_name()),
        !(scan_log(log_in(image)).end is Corrupt),
    ensures
        ({
            let after = applied_all(image, log_ops(image));
            &&& settled(after)
            &&& same_files(image, after)
            &&& scan_log(log_in(after)).rows == scan_log(log_in(image)).rows
        }),
{
    let ops = log_ops(image);
    let after = applied_all(image, ops);
    let log = log_in(image);
    let scan = scan_log(log);
    law_names_are_apart(wal_name());
    law_truncated_log_is_clean(log);
    if !image.dom().contains(wal_name()) {
        let op = FileOp::Append { name: wal_name(), data: Seq::<u8>::empty() };
        assert(ops.drop_last() =~= Seq::<FileOp>::empty());
        assert(ops.last() == op);
        assert(applied_all(image, ops.drop_last()) == image);
        assert(after == applied(image, op));
        assert(file_or_empty(image, wal_name()) + Seq::<u8>::empty() =~= Seq::<u8>::empty());
        assert(log =~= Seq::<u8>::empty());
    } else if scan.valid_len < log.len() {
        let cut = FileOp::Truncate { name: wal_name(), len: scan.valid_len };
        let sync = FileOp::Sync { name: wal_name() };
        assert(ops =~= seq![cut, sync]);
        assert(ops.drop_last() =~= seq![cut]);
        assert(seq![cut].drop_last() =~= Seq::<FileOp>::empty());
        assert(applied_all(image, Seq::<FileOp>::empty()) == image);
        assert(applied_all(image, seq![cut]) == applied(image, cut));
        assert(after == applied(image, cut));
    } else {
        assert(log.take(scan.valid_len) =~= log);
        assert(after == image);
    }
}

/// The names under which nothing but removals happens.
pub proof fn lemma_removal_crash(image: Image, ops: Seq<FileOp>, left: Image)
    requires
        forall|i: int| 0 <= i < ops.len() ==> #[trigger] ops[i] is Remove,
        crash_leaves(image, ops, left),
    ensures
        forall|name: Seq<char>| #[trigger] left.dom().contains(name) ==> image.dom().contains(name) && left[name]
            == image[name],
        forall|name: Seq<char>| #[trigger]
            image.dom().contains(name) && !left.dom().contains(name) ==> is_removed(ops, name),
{
    let i = if left == applied_all(image, ops) {
        ops.len() as int
    } else {
        let i = choose|i: int|
            0 <= i < ops.len() && interrupted(applied_all(image, ops.take(i)), #[trigger] ops[i], left);
        assert(ops.take(i + 1).drop_last() =~= ops.take(i));
        if left == applied_all(image, ops.take(i)) {
            i
        } else {
            i + 1
        }
    };
    assert(ops.take(ops.len() as int) =~= ops);
    assert(left == applied_all(image, ops.take(i)));
    lemma_removed(image, ops, i);
}

pub open spec fn is_removed(ops: Seq<FileOp>, name: Seq<char>) -> bool {
    ops.contains(FileOp::Remove { name })
}

proof fn lemma_removed(image: Image, ops: Seq<FileOp>, n: int)
    requires
        0 <= n <= ops.len(),
        forall|i: int| 0 <= i < ops.len() ==> #[trigger] ops[i] is Remove,
    ensures
        ({
            let left = applied_all(image, ops.take(n));
            &&& forall|name: Seq<char>| #[trigger] left.dom().contains(name) ==> image.dom().contains(name) && left[name]
                == image[name]
            &&& forall|name: Seq<char>| #[trigger]
                image.dom().contains(name) && !left.dom().contains(name) ==> is_removed(ops, name)
        }),
    decreases n,
{
    if n > 0 {
        lemma_removed(image, ops, n - 1);
        assert(ops.take(n).drop_last() =~= ops.take(n - 1));
        let before = applied_all(image, ops.take(n - 1));
        let left = applied_all(image, ops.take(n));
        let gone = ops[n - 1]->Remove_name;
        assert(ops[n - 1] is Remove);
        assert(left == before.remove(gone));
        assert forall|name: Seq<char>| #[trigger]
            image.dom().contains(name) && !left.dom().contains(name) implies is_removed(ops, name) by {
            if before.dom().contains(name) {
                assert(name == gone);
                assert(ops[n - 1] == FileOp::Remove { name });
            }
        }
        assert forall|name: Seq<char>| #[trigger] left.dom().contains(name) implies image.dom().contains(name) && left[name]
            == image[name] by {
            assert(before.dom().contains(name));
        }
    }
}

proof fn lemma_tmp_ops(names: Seq<Seq<char>>)
    ensures
        forall|i: int| 0 <= i < tmp_removals(names).len() ==> #[trigger] tmp_removals(names)[i] is Remove,
        forall|name: Seq<char>| #[trigger] is_removed(tmp_removals(names), name) ==> is_tmp(name),
    decreases names.len(),
{
    let ops = tmp_removals(names);
    if names.len() > 0 {
        let before = tmp_removals(names.drop_last());
        lemma_tmp_ops(names.drop_last());
        if is_tmp(names.last()) {
            assert(ops == before.push(FileOp::Remove { name: names.last() }));
            assert forall|i: int| 0 <= i < ops.len() implies #[trigger] ops[i] is Remove by {
                if i < before.len() {
                    assert(ops[i] == before[i]);
                }
            }
            assert forall|name: Seq<char>| #[trigger] is_removed(ops, name) implies is_tmp(name) by {
                let i = choose|i: int| 0 <= i < ops.len() && ops[i] == FileOp::Remove { name };
                if i < before.len() {
                    assert(before[i] == FileOp::Remove { name });
                    assert(is_removed(before, name));
                }
            }
        }
    }
}

proof fn lemma_input_ops(names: Seq<Seq<char>>, pending: Pending)
    ensures
        forall|i: int| 0 <= i < input_removals(names, pending).len() ==> #[trigger] input_removals(names, pending)[i] is Remove,
        forall|name: Seq<char>| #[trigger]
            is_removed(input_removals(names, pending), name) ==> is_merged_input(name, pending),
    decreases names.len(),
{
    let ops = input_removals(names, pending);
    if names.len() > 0 {
        let before = input_removals(names.drop_last(), pending);
        lemma_input_ops(names.drop_last(), pending);
        if is_merged_input(names.last(), pending) {
            assert(ops == before.push(FileOp::Remove { name: names.last() }));
            assert forall|i: int| 0 <= i < ops.len() implies #[trigger] ops[i] is Remove by {
                if i < before.len() {
                    assert(ops[i] == before[i]);
                }
            }
            assert forall|name: Seq<char>| #[trigger] is_removed(ops, name) implies is_merged_input(name, pending) by {
                let i = choose|i: int| 0 <= i < ops.len() && ops[i] == FileOp::Remove { name };
                if i < before.len() {
                    assert(before[i] == FileOp::Remove { name });
                    assert(is_removed(before, name));
                }
            }
        }
    }
}

/// `left` lacks some of the files of `image` that would go anyway, but not the marker.
pub open spec fn partly_cleaned(image: Image, left: Image) -> bool {
    &&& forall|name: Seq<char>| #[trigger] left.dom().contains(name) ==> image.dom().contains(name) && left[name]
        == image[name]
    &&& forall|name: Seq<char>| #[trigger]
        image.dom().contains(name) && !left.dom().contains(name) ==> is_leftover(image, name) && name != pending_name()
}

pub proof fn lemma_partly_cleaned(image: Image, left: Image)
    requires
        partly_cleaned(image, left),
        marker_is_sound(image),
    ensures
        cleaned(left) == cleaned(image),
        pending_in(left) == pending_in(image),
        log_in(left) == log_in(image),
        marker_is_text(image) ==> marker_is_text(left),
        marker_is_sound(left),
{
    law_names_are_apart(pending_name());
    assert(image.dom().contains(pending_name()) <==> left.dom().contains(pending_name()));
    assert(image.dom().contains(wal_name()) <==> left.dom().contains(wal_name()));
    if let Some(pending) = pending_in(image) {
        assert(outputs_present(left, pending) == outputs_present(image, pending)) by {
            if outputs_present(image, pending) {
                assert forall|i: int| 0 <= i < pending.outputs.len() implies has_table_file(
                    left,
                    #[trigger] pending.outputs[i],
                ) by {
                    let id = pending.outputs[i];
                    assert(has_table_file(image, id));
                    let name = choose|name: Seq<char>| #[trigger] image.dom().contains(name) && is_table_file(name, id);
                    law_names_are_apart(name);
                    assert(!is_leftover(image, name));
                    assert(left.dom().contains(name));
                }
            }
            if outputs_present(left, pending) {
                assert forall|i: int| 0 <= i < pending.outputs.len() implies has_table_file(
                    image,
                    #[trigger] pending.outputs[i],
                ) by {
                    let id = pending.outputs[i];
                    assert(has_table_file(left, id));
                    let name = choose|name: Seq<char>| #[trigger] left.dom().contains(name) && is_table_file(name, id);
                    assert(image.dom().contains(name));
                }
            }
        }
    }
    assert forall|name: Seq<char>| is_leftover(left, name) == is_leftover(image, name) by {}
    assert forall|name: Seq<char>| #[trigger] cleaned(left).dom().contains(name) <==> cleaned(image).dom().contains(name) by {
        if cleaned(image).dom().contains(name) {
            assert(left.dom().contains(name));
        }
        if cleaned(left).dom().contains(name) {
            assert(image.dom().contains(name));
        }
    }
    assert forall|name: Seq<char>| #[trigger] cleaned(left).dom().contains(name) implies cleaned(left)[name]
        == cleaned(image)[name] by {
        assert(left.dom().contains(name));
    }
    assert(cleaned(left) =~= cleaned(image));
}

/// Opening a directory finds the tables and the memtable that it represents, and leaves it
/// without leftovers, representing the same.
pub proof fn law_opening_finds_what_is_there(names: Seq<Seq<char>>, image: Image, tree: TreeState, memtable: Seq<Row>)
    requires
        lists(names, image),
        represents(image, tree, memtable),
    ensures
        opening(names, image) matches Opening::Done { tree: found, memtable: rows } && {
            let after = applied_all(image, opening_ops(names, image));
            &&& rows == memtable
            &&& same_levels(tree.levels, found.levels)
            &&& found.next_id <= tree.next_id
            &&& represents(after, found, memtable)
            &&& settled(after)
            &&& forall|key: Seq<char>| #[trigger]
                contents(rows, found.levels, key) == contents(memtable, tree.levels, key)
        },
{
    let clean = cleaned(image);
    lemma_cleaned_is_clean(image);
    assert forall|name: Seq<char>| #[trigger] clean.dom().contains(name) implies names.contains(name) by {
        assert(image.dom().contains(name));
    }
    lemma_tables_found(names, clean, tree.levels, tree.next_id);
    let found = loaded(discovered(names, clean), clean)->Ok_0;
    lemma_cleaned(names, image);
    let ops = tmp_removals(names) + merge_removals(names, image);
    lemma_applied_concat(image, ops, log_ops(image));
    law_names_are_apart(wal_name());
    assert(log_ops(clean) == log_ops(image));
    lemma_log_cut(clean);
    let after = applied_all(clean, log_ops(image));
    lemma_nothing_left(after);
    law_names_are_apart(pending_name());
    assert(represents(clean, tree, memtable));
    lemma_same_files(clean, after, tree, memtable);
    lemma_relabelled(after, tree, found, memtable);
    assert forall|key: Seq<char>| #[trigger] contents(memtable, found.levels, key) == contents(memtable, tree.levels, key) by {
        lemma_same_levels_get(tree.levels, found.levels, key);
        lemma_lookup(memtable, tree.levels, key);
        lemma_lookup(memtable, found.levels, key);
    }
}

/// What a directory represents does not depend on empty levels at the end, nor on the next id.
proof fn lemma_relabelled(image: Image, tree: TreeState, other: TreeState, memtable: Seq<Row>)
    requires
        represents(image, tree, memtable),
        same_levels(tree.levels, other.levels),
        levels_ok(other.levels, other.next_id),
        level_count_ok(other.levels),
        0 <= other.next_id <= u64::MAX,
    ensures
        represents(image, other, memtable),
{
    let x = cleaned(image);
    assert forall|l: int, t: TableState| #[trigger] level_at(other.levels, l).contains(t) implies stored(x, l, t) by {
        assert(level_at(tree.levels, l).contains(t));
    }
    assert forall|name: Seq<char>| #[trigger]
        x.dom().contains(name) && parse_table_name(name) is Some implies is_path_in(other.levels, name) by {
        assert(is_path_in(tree.levels, name));
        let (l, t) = choose|l: int, t: TableState| #[trigger] level_at(tree.levels, l).contains(t) && t.path == name;
        assert(level_at(other.levels, l).contains(t));
    }
}

/// Opening that is itself interrupted loses nothing: the directory still represents the same.
pub proof fn law_opening_can_be_interrupted(
    names: Seq<Seq<char>>,
    image: Image,
    tree: TreeState,
    memtable: Seq<Row>,
    left: Image,
)
    requires
        lists(names, image),
        represents(image, tree, memtable),
        crash_leaves(image, opening_ops(names, image), left),
    ensures
        represents(left, tree, memtable),
{
    law_opening_finds_what_is_there(names, image, tree, memtable);
    let tmp = tmp_removals(names);
    let merge = merge_removals(names, image);
    let clean = cleaned(image);
    lemma_cleaned(names, image);
    lemma_cleaned_is_clean(image);
    assert(represents(clean, tree, memtable)) by {
        law_names_are_apart(pending_name());
    }
    lemma_crash_concat(image, tmp + merge, log_ops(image), left);
    if crash_leaves(image, tmp + merge, left) {
        lemma_tmp_ops(names);
        let middle = applied_all(image, tmp);
        lemma_crash_concat(image, tmp, merge, left);
        law_names_are_apart(pending_name());
        lemma_removal_crash(image, tmp, middle);
        assert(partly_cleaned(image, middle));
        lemma_partly_cleaned(image, middle);
        if crash_leaves(image, tmp, left) {
            lemma_removal_crash(image, tmp, left);
            assert(partly_cleaned(image, left));
            lemma_partly_cleaned(image, left);
            lemma_same_files(image, left, tree, memtable);
        } else if let Some(pending) = pending_in(image) {
            let inputs = if outputs_present(image, pending) {
                input_removals(names, pending)
            } else {
                Seq::empty()
            };
            let last = seq![FileOp::Remove { name: pending_name() }];
            lemma_input_ops(names, pending);
            assert(merge =~= inputs + last);
            lemma_crash_concat(middle, inputs, last, left);
            let merged = applied_all(middle, inputs);
            lemma_applied_concat(image, tmp, inputs);
            lemma_removal_crash(middle, inputs, merged);
            assert(partly_cleaned(image, merged)) by {
                assert forall|name: Seq<char>| #[trigger]
                    image.dom().contains(name) && !merged.dom().contains(name) implies is_leftover(image, name) && name
                    != pending_name() by {
                    if middle.dom().contains(name) {
                        assert(is_removed(inputs, name));
                    }
                }
                assert forall|name: Seq<char>| #[trigger] merged.dom().contains(name) implies image.dom().contains(name)
                    && merged[name] == image[name] by {
                    assert(middle.dom().contains(name));
                }
            }
            lemma_partly_cleaned(image, merged);
            if crash_leaves(middle, inputs, left) {
                lemma_removal_crash(middle, inputs, left);
                assert(partly_cleaned(image, left)) by {
                    assert forall|name: Seq<char>| #[trigger]
                        image.dom().contains(name) && !left.dom().contains(name) implies is_leftover(image, name) && name
                        != pending_name() by {
                        if middle.dom().contains(name) {
                            assert(is_removed(inputs, name));
                        }
                    }
                    assert forall|name: Seq<char>| #[trigger] left.dom().contains(name) implies image.dom().contains(name)
                        && left[name] == image[name] by {
                        assert(middle.dom().contains(name));
                    }
                }
                lemma_partly_cleaned(image, left);
                lemma_same_files(image, left, tree, memtable);
            } else {
                lemma_single_op(merged, last[0], left);
                lemma_applied_concat(middle, inputs, last);
                lemma_applied_concat(image, tmp, merge);
                if left == merged {
                    lemma_same_files(image, left, tree, memtable);
                } else {
                    assert(applied_all(merged, last) == applied(merged, last[0])) by {
                        assert(last.drop_last() =~= Seq::<FileOp>::empty());
                    }
                    assert(left == clean);
                }
            }
        } else {
            assert(merge =~= Seq::<FileOp>::empty());
            assert(left == middle);
            lemma_same_files(image, middle, tree, memtable);
        }
    } else {
        law_names_are_apart(wal_name());
        assert(log_ops(clean) == log_ops(image));
        lemma_log_crash(clean, left);
        if left != clean {
            lemma_log_cut(clean);
            lemma_nothing_left(left);
            law_names_are_apart(pending_name());
            lemma_same_files(clean, left, tree, memtable);
        }
    }
}

/// A single operation that is not a write happens or does not.
pub proof fn lemma_single_op(image: Image, op: FileOp, left: Image)
    requires
        op is Remove,
        crash_leaves(image, seq![op], left),
    ensures
        left == image || left == applied(image, op),
{
    let ops = seq![op];
    assert(ops.drop_last() =~= Seq::<FileOp>::empty());
    assert(ops.take(0) =~= Seq::<FileOp>::empty());
    assert(ops.last() == op);
    assert(applied_all(image, ops.drop_last()) == image);
    assert(applied_all(image, ops) == applied(image, op));
    if left != applied_all(image, ops) {
        let i = choose|i: int|
            0 <= i < ops.len() && interrupted(applied_all(image, ops.take(i)), #[trigger] ops[i], left);
        assert(i == 0);
    }
}

proof fn lemma_log_crash(image: Image, left: Image)
    requires
        crash_leaves(image, log_ops(image), left),
    ensures
        left == image || left == applied_all(image, log_ops(image)),
{
    let ops = log_ops(image);
    if left != applied_all(image, ops) {
        let i = choose|i: int|
            0 <= i < ops.len() && interrupted(applied_all(image, ops.take(i)), #[trigger] ops[i], left);
        assert(ops.take(0) =~= Seq::<FileOp>::empty());
        assert(applied_all(image, ops.take(0)) == image);
        assert(ops.take(1).drop_last() =~= ops.take(0));
        assert(ops.take(ops.len() as int) =~= ops);
        if i == 1 {
            assert(ops.take(2) =~= ops);
            assert(ops.drop_last() =~= ops.take(1));
        } else if ops.len() == 2 {
            assert(ops.drop_last() =~= ops.take(1));
            assert(applied_all(image, ops) == applied(applied_all(image, ops.take(1)), ops[1]));
        }
    }
}

proof fn lemma_no_tmp(names: Seq<Seq<char>>)
    requires
        forall|i: int| 0 <= i < names.len() ==> !is_tmp(#[trigger] names[i]),
    ensures
        tmp_removals(names).len() == 0,
    decreases names.len(),
{
    if names.len() > 0 {
        assert(!is_tmp(names[names.len() - 1]));
        assert forall|i: int| 0 <= i < names.drop_last().len() implies !is_tmp(#[trigger] names.drop_last()[i]) by {
            assert(!is_tmp(names[i]));
        }
        lemma_no_tmp(names.drop_last());
    }
}

/// Opening a directory in which nothing was left behind does nothing to its files.
proof fn lemma_nothing_to_do(names: Seq<Seq<char>>, image: Image)
    requires
        lists(names, image),
        settled(image),
        opening(names, image) is Done,
    ensures
        opening_ops(names, image) == Seq::<FileOp>::empty(),
{
    assert forall|i: int| 0 <= i < names.len() implies !is_tmp(#[trigger] names[i]) by {
        assert(names.contains(names[i]));
        assert(image.dom().contains(names[i]));
    }
    lemma_no_tmp(names);
    law_log_concat(image[wal_name()], Seq::empty());
    assert(opening_ops(names, image) =~= Seq::<FileOp>::empty());
}

/// Opening a directory that was opened before does nothing to its files.
pub proof fn law_opening_again_does_nothing(names: Seq<Seq<char>>, image: Image, tree: TreeState, memtable: Seq<Row>)
    requires
        lists(names, image),
        settled(image),
        represents(image, tree, memtable),
    ensures
        opening_ops(names, image) == Seq::<FileOp>::empty(),
{
    law_opening_finds_what_is_there(names, image, tree, memtable);
    lemma_nothing_to_do(names, image);
}

/// Two listings of the same table files give the same levels, where no two files have the same id
/// and the same level.
proof fn lemma_same_levels_loaded(names: Seq<Seq<char>>, image: Image, again: Seq<Seq<char>>, after: Image)
    requires
        names.no_duplicates(),
        again.no_duplicates(),
        forall|name: Seq<char>| #[trigger] image.dom().contains(name) ==> names.contains(name),
        forall|name: Seq<char>| #[trigger] after.dom().contains(name) ==> again.contains(name),
        same_files(image, after),
        loaded(discovered(names, image), image) is Ok,
    ensures
        loaded(discovered(again, after), after) is Ok,
        no_table_twice(image) ==> (loaded(discovered(again, after), after)->Ok_0).levels == (loaded(
            discovered(names, image),
            image,
        )->Ok_0).levels,
{
    let a = discovered(names, image);
    let b = discovered(again, after);
    lemma_discovered(names, image);
    lemma_discovered(again, after);
    assert forall|f: Found| #[trigger] a.contains(f) <==> b.contains(f) by {
        assert(image.dom().contains(f.name) ==> names.contains(f.name));
        assert(after.dom().contains(f.name) ==> again.contains(f.name));
    }
    lemma_loaded_levels(a, image);
    lemma_loaded_levels(b, after);
    assert forall|i: int| 0 <= i < b.len() implies parse_table(after[(#[trigger] b[i]).name]) is Ok by {
        assert(b.contains(b[i]));
        assert(a.contains(b[i]));
        let j = choose|j: int| 0 <= j < a.len() && a[j] == b[i];
        assert(parse_table(image[a[j].name]) is Ok);
        assert(image[b[i].name] == after[b[i].name]);
    }
    if no_table_twice(image) {
        assert(no_table_twice(after)) by {
            assert forall|x: Seq<char>, y: Seq<char>|
                #![trigger after.dom().contains(x), after.dom().contains(y)]
                after.dom().contains(x) && after.dom().contains(y) && parse_table_name(x) is Some && parse_table_name(x)
                    == parse_table_name(y) implies x == y by {
                assert(image.dom().contains(x) && image.dom().contains(y));
            }
        }
        let old = (loaded(a, image)->Ok_0).levels;
        let new = (loaded(b, after)->Ok_0).levels;
        assert forall|l: int, t: TableState| found_table(a, image, l, t) <==> #[trigger] found_table(b, after, l, t) by {
            if found_table(a, image, l, t) {
                let f = choose|f: Found| #[trigger] a.contains(f) && f.level == l && t == table_of(f, image);
                assert(b.contains(f));
                assert(image[f.name] == after[f.name]);
            }
            if found_table(b, after, l, t) {
                let f = choose|f: Found| #[trigger] b.contains(f) && f.level == l && t == table_of(f, after);
                assert(a.contains(f));
                assert(image[f.name] == after[f.name]);
            }
        }
        assert forall|l: int| #[trigger] level_at(old, l) == level_at(new, l) by {
            let x = level_at(old, l);
            let y = level_at(new, l);
            assert forall|t: TableState| #[trigger] x.contains(t) <==> y.contains(t) by {
                assert(found_table(a, image, l, t) <==> found_table(b, after, l, t));
            }
            if 0 <= l < old.len() {
                assert(ascending(old[l]));
            }
            if 0 <= l < new.len() {
                assert(ascending(new[l]));
            }
            lemma_ascending_unique(x, y);
        }
        assert(level_at(old, old.len() - 1) == level_at(new, old.len() - 1));
        assert(level_at(old, new.len() - 1) == level_at(new, new.len() - 1));
        assert(old.len() == new.len());
        assert forall|l: int| 0 <= l < old.len() implies old[l] == #[trigger] new[l] by {
            assert(level_at(old, l) == level_at(new, l));
        }
        assert(old =~= new);
    }
}

/// A directory can be opened again wherever it could be opened once, and in whatever order its files
/// are then listed: the second opening finds the same and does nothing to the files. After the first
/// one there is no temporary file, no marker of a merge, and nothing behind the last record of the
/// log. (Two tables of a level that have the same id may change places.)
pub proof fn law_opening_is_repeatable(names: Seq<Seq<char>>, image: Image, again: Seq<Seq<char>>)
    requires
        lists(names, image),
        opening(names, image) is Done,
        lists(again, applied_all(image, opening_ops(names, image))),
    ensures
        ({
            let after = applied_all(image, opening_ops(names, image));
            &&& settled(after)
            &&& opening_ops(again, after) == Seq::<FileOp>::empty()
            &&& opening(again, after) matches Opening::Done { tree, memtable } && {
                &&& memtable == opening(names, image)->memtable
                &&& no_table_twice(cleaned(image)) ==> tree.levels == opening(names, image)->tree.levels
            }
        }),
{
    let clean = cleaned(image);
    let after = applied_all(image, opening_ops(names, image));
    lemma_cleaned_is_clean(image);
    lemma_cleaned(names, image);
    lemma_applied_concat(image, tmp_removals(names) + merge_removals(names, image), log_ops(image));
    law_names_are_apart(wal_name());
    assert(log_ops(clean) == log_ops(image));
    lemma_log_cut(clean);
    lemma_nothing_left(after);
    assert forall|name: Seq<char>| #[trigger] clean.dom().contains(name) implies names.contains(name) by {
        assert(image.dom().contains(name));
    }
    lemma_same_levels_loaded(names, clean, again, after);
    lemma_nothing_to_do(again, after);
}

/// A directory is refused where one of its tables is damaged, where the log has a damaged record in the
/// middle, and where the marker of a merge is no text; and it is opened where none of this holds.
pub proof fn law_damaged_directories_are_refused(names: Seq<Seq<char>>, image: Image)
    requires
        lists(names, image),
    ensures
        !marker_is_text(image) ==> opening(names, image) == Opening::BadMarker,
        marker_is_text(image) && (exists|name: Seq<char>| #[trigger]
            cleaned(image).dom().contains(name) && parse_table_name(name) is Some && parse_table(image[name]) is Err)
            ==> opening(names, image) is BadTable,
        scan_log(log_in(image)).end is Corrupt ==> !(opening(names, image) is Done),
        marker_is_text(image) && !(scan_log(log_in(image)).end is Corrupt) && (forall|name: Seq<char>| #[trigger]
            cleaned(image).dom().contains(name) && parse_table_name(name) is Some ==> parse_table(image[name]) is Ok)
            ==> opening(names, image) is Done,
{
    let clean = cleaned(image);
    let found = discovered(names, clean);
    lemma_discovered(names, clean);
    lemma_loaded_levels(found, clean);
    if exists|name: Seq<char>| #[trigger]
        clean.dom().contains(name) && parse_table_name(name) is Some && parse_table(image[name]) is Err {
        let name = choose|name: Seq<char>| #[trigger]
            clean.dom().contains(name) && parse_table_name(name) is Some && parse_table(image[name]) is Err;
        let (id, level) = parse_table_name(name)->Some_0;
        let f = Found { id, level, name };
        assert(image.dom().contains(name));
        assert(is_found(clean, f));
        assert(found.contains(f));
        let i = choose|i: int| 0 <= i < found.len() && found[i] == f;
        assert(parse_table(clean[found[i].name]) is Err);
    }
    if forall|name: Seq<char>| #[trigger]
        clean.dom().contains(name) && parse_table_name(name) is Some ==> parse_table(image[name]) is Ok {
        assert forall|i: int| 0 <= i < found.len() implies parse_table(clean[(#[trigger] found[i]).name]) is Ok by {
            assert(found.contains(found[i]));
            assert(clean.dom().contains(found[i].name));
        }
    }
}

/// Opening removes files under temporary names, the marker of a merge, and the inputs of a merge whose
/// outputs are all there. Of the log it cuts off what is no record. Every other file it leaves alone.
pub proof fn law_opening_leaves_other_files(names: Seq<Seq<char>>, image: Image, name: Seq<char>)
    requires
        lists(names, image),
        opening(names, image) is Done,
        image.dom().contains(name),
        !".tmp"@.is_suffix_of(name),
        name != "merge.pending"@,
        parse_table_name(name) matches Some((id, level)) ==> (pending_in(image) matches Some(pending)
            ==> !pending.inputs.contains(id) || exists|i: int|
            0 <= i < pending.outputs.len() && !has_table_file(image, #[trigger] pending.outputs[i])),
    ensures
        ({
            let after = applied_all(image, opening_ops(names, image));
            &&& after.dom().contains(name)
            &&& name != "wal.log"@ ==> after[name] == image[name]
            &&& name == "wal.log"@ ==> after[name] == image[name].take(scan_log(image[name]).valid_len)
        }),
{
    let clean = cleaned(image);
    lemma_cleaned(names, image);
    lemma_applied_concat(image, tmp_removals(names) + merge_removals(names, image), log_ops(image));
    law_names_are_apart(name);
    law_fixed_names(name);
    if let Some(pending) = pending_in(image) {
        if outputs_present(image, pending) && is_merged_input(name, pending) {
            assert(false);
        }
    }
    assert(clean.dom().contains(name));
    let ops = log_ops(image);
    let log = log_in(image);
    law_truncated_log_is_clean(log);
    if !image.dom().contains(wal_name()) {
        assert(ops.drop_last() =~= Seq::<FileOp>::empty());
        assert(applied_all(clean, ops.drop_last()) == clean);
        assert(applied_all(clean, ops) == applied(clean, ops.last()));
    } else if scan_log(log).valid_len < log.len() {
        let first = ops.drop_last();
        assert(first.drop_last() =~= Seq::<FileOp>::empty());
        assert(applied_all(clean, first.drop_last()) == clean);
        assert(applied_all(clean, first) == applied(clean, first.last()));
        assert(applied_all(clean, ops) == applied(applied(clean, first.last()), ops.last()));
        law_names_are_apart(wal_name());
    } else {
        assert(applied_all(clean, ops) == clean);
        assert(log.take(scan_log(log).valid_len) =~= log);
    }
}

}
