//! The tables of a database by level: what they hold together, and how a merge changes them.
use crate::rows::{
    has_key, law_merge_newest_wins, lemma_sources_first, lemma_sources_some, merge_rows, rows_get, sorted, sources_get,
    visible, Row,
};
use crate::table::{concat_rows, parse_table};
use vstd::prelude::*;

verus! {

/// A table: its id, the file it is in, and the bytes of that file.
pub struct TableState {
    pub id: u64,
    pub path: Seq<char>,
    pub bytes: Seq<u8>,
}

impl TableState {
    pub open spec fn wf(self) -> bool {
        parse_table(self.bytes) is Ok
    }

    /// The contents, sorted by key.
    pub open spec fn rows(self) -> Seq<Row> {
        concat_rows((parse_table(self.bytes)->Ok_0).blocks)
    }

    pub open spec fn holds(self, key: Seq<char>) -> bool {
        has_key(self.rows(), key)
    }

    /// What the table stores under a key.
    pub open spec fn get(self, key: Seq<char>) -> Option<Option<Seq<char>>> {
        rows_get(self.rows(), key)
    }
}

pub proof fn lemma_table_sorted(table: TableState)
    requires
        table.wf(),
    ensures
        sorted(table.rows()),
{
}

/// The tables of each level, those that were written last at the end.
pub type Levels = Seq<Seq<TableState>>;

pub open spec fn level_holds(files: Seq<TableState>, key: Seq<char>) -> bool {
    exists|i: int| 0 <= i < files.len() && (#[trigger] files[i]).holds(key)
}

/// What the last table of a level that holds `key` stores under it.
pub open spec fn level_get(files: Seq<TableState>, key: Seq<char>) -> Option<Option<Seq<char>>>
    decreases files.len(),
{
    if files.len() == 0 {
        None
    } else if files.last().holds(key) {
        files.last().get(key)
    } else {
        level_get(files.drop_last(), key)
    }
}

/// What the first level that holds `key` stores under it.
pub open spec fn levels_get(levels: Levels, key: Seq<char>) -> Option<Option<Seq<char>>>
    decreases levels.len(),
{
    if levels.len() == 0 {
        None
    } else if level_holds(levels[0], key) {
        level_get(levels[0], key)
    } else {
        levels_get(levels.skip(1), key)
    }
}

/// The value for what is stored: a tombstone is no value.
pub open spec fn value_of(stored: Option<Option<Seq<char>>>) -> Option<Seq<char>> {
    match stored {
        Some(value) => value,
        None => None,
    }
}

/// The rows of a level's tables, in the order in which they are read.
pub open spec fn level_sources(files: Seq<TableState>) -> Seq<Seq<Row>> {
    Seq::new(files.len(), |i: int| files[files.len() - 1 - i].rows())
}

/// The rows of all tables, in the order in which they are read.
pub open spec fn table_sources(levels: Levels) -> Seq<Seq<Row>>
    decreases levels.len(),
{
    if levels.len() == 0 {
        Seq::empty()
    } else {
        table_sources(levels.drop_last()) + level_sources(levels.last())
    }
}

pub open spec fn levels_wf(levels: Levels) -> bool {
    forall|l: int, i: int| 0 <= l < levels.len() && 0 <= i < levels[l].len() ==> (#[trigger] levels[l][i]).wf()
}

/// A table that holds `key` has something stored under it, and the other way round.
pub proof fn lemma_get_holds(table: TableState, key: Seq<char>)
    ensures
        table.get(key) is Some <==> table.holds(key),
{
}

/// The last table of a level that holds a key.
pub proof fn lemma_level_get(files: Seq<TableState>, key: Seq<char>) -> (at: int)
    ensures
        level_get(files, key) is Some <==> level_holds(files, key),
        level_holds(files, key) ==> {
            &&& 0 <= at < files.len()
            &&& files[at].holds(key)
            &&& level_get(files, key) == files[at].get(key)
            &&& forall|i: int| at < i < files.len() ==> !(#[trigger] files[i]).holds(key)
        },
    decreases files.len(),
{
    if files.len() == 0 {
        0
    } else if files.last().holds(key) {
        assert(files[files.len() - 1].holds(key));
        files.len() - 1
    } else {
        let before = files.drop_last();
        let at = lemma_level_get(before, key);
        if level_holds(files, key) {
            let i = choose|i: int| 0 <= i < files.len() && (#[trigger] files[i]).holds(key);
            assert(before[i].holds(key));
        }
        if level_holds(before, key) {
            let i = choose|i: int| 0 <= i < before.len() && (#[trigger] before[i]).holds(key);
            assert(files[i].holds(key));
            assert forall|j: int| at < j < files.len() implies !(#[trigger] files[j]).holds(key) by {
                if j < before.len() {
                    assert(before[j] == files[j]);
                }
            }
        }
        at
    }
}

/// When all tables of a level that hold a key agree, any of them tells what the level stores.
pub proof fn lemma_level_agrees(files: Seq<TableState>, key: Seq<char>, entry: Option<Option<Seq<char>>>)
    requires
        level_holds(files, key),
        forall|i: int| 0 <= i < files.len() && (#[trigger] files[i]).holds(key) ==> files[i].get(key) == entry,
    ensures
        level_get(files, key) == entry,
{
    lemma_level_get(files, key);
}

/// The first level that holds a key decides.
pub proof fn lemma_levels_get_at(levels: Levels, key: Seq<char>, level: int)
    requires
        0 <= level < levels.len(),
        level_holds(levels[level], key),
        forall|l: int| 0 <= l < level ==> !level_holds(#[trigger] levels[l], key),
    ensures
        levels_get(levels, key) == level_get(levels[level], key),
    decreases level,
{
    if level > 0 {
        assert(!level_holds(levels[0], key));
        let rest = levels.skip(1);
        assert forall|l: int| 0 <= l < level - 1 implies !level_holds(#[trigger] rest[l], key) by {
            assert(rest[l] == levels[l + 1]);
        }
        lemma_levels_get_at(rest, key, level - 1);
    }
}

pub proof fn lemma_levels_get_none(levels: Levels, key: Seq<char>)
    requires
        forall|l: int| 0 <= l < levels.len() ==> !level_holds(#[trigger] levels[l], key),
    ensures
        levels_get(levels, key) is None,
    decreases levels.len(),
{
    if levels.len() > 0 {
        assert(!level_holds(levels[0], key));
        let rest = levels.skip(1);
        assert forall|l: int| 0 <= l < rest.len() implies !level_holds(#[trigger] rest[l], key) by {
            assert(rest[l] == levels[l + 1]);
        }
        lemma_levels_get_none(rest, key);
    }
}

/// The first of the levels before `end` that holds a key; `end` where none does.
pub open spec fn first_level(levels: Levels, key: Seq<char>, from: int) -> int
    decreases levels.len() - from,
{
    if from >= levels.len() || level_holds(levels[from], key) {
        from
    } else {
        first_level(levels, key, from + 1)
    }
}

pub proof fn lemma_first_level(levels: Levels, key: Seq<char>, from: int)
    requires
        0 <= from <= levels.len(),
    ensures
        from <= first_level(levels, key, from) <= levels.len(),
        first_level(levels, key, from) < levels.len() ==> level_holds(levels[first_level(levels, key, from)], key),
        forall|l: int| from <= l < first_level(levels, key, from) ==> !level_holds(#[trigger] levels[l], key),
    decreases levels.len() - from,
{
    if from < levels.len() && !level_holds(levels[from], key) {
        lemma_first_level(levels, key, from + 1);
    }
}

pub proof fn lemma_sources_concat(a: Seq<Seq<Row>>, b: Seq<Seq<Row>>, key: Seq<char>)
    ensures
        sources_get(a + b, key) == (if sources_get(a, key) is Some {
            sources_get(a, key)
        } else {
            sources_get(b, key)
        }),
    decreases a.len(),
{
    if a.len() == 0 {
        assert(a + b =~= b);
    } else {
        assert((a + b).drop_first() =~= a.drop_first() + b);
        lemma_sources_concat(a.drop_first(), b, key);
    }
}

pub proof fn lemma_level_sources(files: Seq<TableState>, key: Seq<char>)
    ensures
        sources_get(level_sources(files), key) == level_get(files, key),
    decreases files.len(),
{
    let sources = level_sources(files);
    if files.len() > 0 {
        assert(sources[0] == files.last().rows());
        assert(sources.drop_first() =~= level_sources(files.drop_last()));
        lemma_level_sources(files.drop_last(), key);
    }
}

/// Reading the tables one by one finds what the first level that holds the key stores.
pub proof fn lemma_table_sources(levels: Levels, key: Seq<char>)
    ensures
        sources_get(table_sources(levels), key) == levels_get(levels, key),
    decreases levels.len(),
{
    if levels.len() > 0 {
        let before = levels.drop_last();
        lemma_table_sources(before, key);
        lemma_sources_concat(table_sources(before), level_sources(levels.last()), key);
        lemma_level_sources(levels.last(), key);
        let _ = lemma_level_get(levels.last(), key);
        lemma_first_level(before, key, 0);
        lemma_first_level(levels, key, 0);
        let first = first_level(before, key, 0);
        if first < before.len() {
            lemma_levels_get_at(before, key, first);
            assert forall|l: int| 0 <= l < first implies !level_holds(#[trigger] levels[l], key) by {
                assert(levels[l] == before[l]);
            }
            assert(levels[first] == before[first]);
            lemma_levels_get_at(levels, key, first);
            let _ = lemma_level_get(levels[first], key);
        } else {
            lemma_levels_get_none(before, key);
            assert forall|l: int| 0 <= l < levels.len() - 1 implies !level_holds(#[trigger] levels[l], key) by {
                assert(levels[l] == before[l]);
            }
            if level_holds(levels.last(), key) {
                lemma_levels_get_at(levels, key, levels.len() - 1);
            } else {
                assert forall|l: int| 0 <= l < levels.len() implies !level_holds(#[trigger] levels[l], key) by {
                    if l < before.len() {
                        assert(levels[l] == before[l]);
                    }
                }
                lemma_levels_get_none(levels, key);
            }
        }
    }
}

/// A table with the level at which it stands.
pub struct Placed {
    pub level: int,
    pub table: TableState,
}

/// Whether `a` is to be read before `b`: it stands above it, or at the same level and is newer.
pub open spec fn read_before(a: Placed, b: Placed) -> bool {
    a.level < b.level || (a.level == b.level && a.table.id > b.table.id)
}

/// `sources`, in reading order, with one more at its place.
pub open spec fn insert_source(sources: Seq<Placed>, source: Placed) -> Seq<Placed>
    decreases sources.len(),
{
    if sources.len() == 0 {
        seq![source]
    } else if read_before(source, sources.last()) {
        insert_source(sources.drop_last(), source).push(sources.last())
    } else {
        sources.push(source)
    }
}

/// The tables in reading order.
pub open spec fn in_reading_order(inputs: Seq<Placed>) -> Seq<Placed>
    decreases inputs.len(),
{
    if inputs.len() == 0 {
        Seq::empty()
    } else {
        insert_source(in_reading_order(inputs.drop_last()), inputs.last())
    }
}

pub open spec fn placed_rows(inputs: Seq<Placed>) -> Seq<Seq<Row>> {
    Seq::new(inputs.len(), |i: int| inputs[i].table.rows())
}

/// Tables to be merged into one level.
pub struct Job {
    pub inputs: Seq<Placed>,
    pub output_level: int,
    pub drop_tombstones: bool,
    pub target_file_size: int,
}

/// The bytes that the files of the tables take together.
pub open spec fn total_bytes(tables: Seq<TableState>) -> int
    decreases tables.len(),
{
    if tables.len() == 0 {
        0
    } else {
        total_bytes(tables.drop_last()) + tables.last().bytes.len()
    }
}

pub open spec fn tables_of(inputs: Seq<Placed>) -> Seq<TableState> {
    Seq::new(inputs.len(), |i: int| inputs[i].table)
}

/// What the inputs of a job hold together, before tombstones are dropped.
pub open spec fn job_merged(job: Job) -> Seq<Row> {
    merge_rows(placed_rows(in_reading_order(job.inputs)))
}

/// What the outputs of a job hold together.
pub open spec fn job_rows(job: Job) -> Seq<Row> {
    visible(job_merged(job), !job.drop_tombstones)
}

pub open spec fn inputs_wf(inputs: Seq<Placed>) -> bool {
    forall|i: int| 0 <= i < inputs.len() ==> (#[trigger] inputs[i]).table.wf()
}

proof fn lemma_insert_source(sources: Seq<Placed>, source: Placed)
    requires
        forall|i: int, j: int| 0 <= i < j < sources.len() ==> !read_before(#[trigger] sources[j], #[trigger] sources[i]),
    ensures
        ({
            let new = insert_source(sources, source);
            &&& forall|i: int, j: int| 0 <= i < j < new.len() ==> !read_before(#[trigger] new[j], #[trigger] new[i])
            &&& forall|x: Placed| #[trigger] new.contains(x) <==> sources.contains(x) || x == source
            &&& new.len() == sources.len() + 1
        }),
    decreases sources.len(),
{
    let new = insert_source(sources, source);
    if sources.len() == 0 {
        assert(forall|x: Placed| #[trigger] new.contains(x) ==> x == source);
        assert(new[0] == source);
    } else if read_before(source, sources.last()) {
        let before = sources.drop_last();
        let last = sources.last();
        lemma_insert_source(before, source);
        let front = insert_source(before, source);
        assert forall|i: int, j: int| 0 <= i < j < new.len() implies !read_before(#[trigger] new[j], #[trigger] new[i]) by {
            if j == new.len() - 1 {
                assert(front.contains(front[i]));
                if before.contains(front[i]) {
                    let k = choose|k: int| 0 <= k < before.len() && before[k] == front[i];
                    assert(sources[k] == front[i]);
                    assert(!read_before(sources[sources.len() - 1], sources[k]));
                }
            } else {
                assert(front[i] == new[i] && front[j] == new[j]);
            }
        }
        assert forall|x: Placed| #[trigger] new.contains(x) <==> sources.contains(x) || x == source by {
            if new.contains(x) {
                let k = choose|k: int| 0 <= k < new.len() && new[k] == x;
                if k < front.len() {
                    assert(front[k] == x);
                    assert(front.contains(x));
                    if before.contains(x) {
                        let m = choose|m: int| 0 <= m < before.len() && before[m] == x;
                        assert(sources[m] == x);
                    }
                } else {
                    assert(sources[sources.len() - 1] == x);
                }
            }
            if sources.contains(x) {
                let k = choose|k: int| 0 <= k < sources.len() && sources[k] == x;
                if k < before.len() {
                    assert(before[k] == x);
                    assert(front.contains(x));
                    let m = choose|m: int| 0 <= m < front.len() && front[m] == x;
                    assert(new[m] == x);
                } else {
                    assert(new[new.len() - 1] == x);
                }
            }
            if x == source {
                assert(front.contains(x));
                let m = choose|m: int| 0 <= m < front.len() && front[m] == x;
                assert(new[m] == x);
            }
        }
    } else {
        assert forall|i: int, j: int| 0 <= i < j < new.len() implies !read_before(#[trigger] new[j], #[trigger] new[i]) by {
            if j == new.len() - 1 {
                assert(new[j] == source);
                assert(!read_before(source, sources.last()));
                if i < sources.len() - 1 {
                    assert(!read_before(sources[sources.len() - 1], sources[i]));
                }
            } else {
                assert(!read_before(sources[j], sources[i]));
            }
        }
        assert forall|x: Placed| #[trigger] new.contains(x) <==> sources.contains(x) || x == source by {
            if new.contains(x) {
                let k = choose|k: int| 0 <= k < new.len() && new[k] == x;
                if k < sources.len() {
                    assert(sources[k] == x);
                }
            }
            if sources.contains(x) {
                let k = choose|k: int| 0 <= k < sources.len() && sources[k] == x;
                assert(new[k] == x);
            }
            if x == source {
                assert(new[new.len() - 1] == x);
            }
        }
    }
}

/// Reading order keeps all tables, and puts none behind one that is to be read after it.
pub proof fn law_reading_order(inputs: Seq<Placed>)
    ensures
        ({
            let sources = in_reading_order(inputs);
            &&& forall|i: int, j: int|
                0 <= i < j < sources.len() ==> !read_before(#[trigger] sources[j], #[trigger] sources[i])
            &&& forall|x: Placed| #[trigger] sources.contains(x) <==> inputs.contains(x)
            &&& sources.len() == inputs.len()
        }),
    decreases inputs.len(),
{
    let sources = in_reading_order(inputs);
    if inputs.len() > 0 {
        let before = inputs.drop_last();
        law_reading_order(before);
        lemma_insert_source(in_reading_order(before), inputs.last());
        assert forall|x: Placed| #[trigger] sources.contains(x) <==> inputs.contains(x) by {
            assert(sources.contains(x) <==> in_reading_order(before).contains(x) || x == inputs.last());
            if before.contains(x) {
                let k = choose|k: int| 0 <= k < before.len() && before[k] == x;
                assert(inputs[k] == x);
            }
            if inputs.contains(x) {
                let k = choose|k: int| 0 <= k < inputs.len() && inputs[k] == x;
                if k < before.len() {
                    assert(before[k] == x);
                }
            }
            if x == inputs.last() {
                assert(inputs[inputs.len() - 1] == x);
            }
        }
    } else {
        assert(forall|x: Placed| !#[trigger] sources.contains(x));
        assert(forall|x: Placed| !#[trigger] inputs.contains(x));
    }
}

/// Some input holds the key.
pub open spec fn input_holds(inputs: Seq<Placed>, key: Seq<char>) -> bool {
    exists|i: int| 0 <= i < inputs.len() && (#[trigger] inputs[i]).table.holds(key)
}

/// The input that decides what a merge stores under a key: the first in reading order.
pub proof fn lemma_job_winner(inputs: Seq<Placed>, key: Seq<char>) -> (at: int)
    requires
        inputs_wf(inputs),
    ensures
        ({
            let merged = merge_rows(placed_rows(in_reading_order(inputs)));
            &&& sorted(merged)
            &&& has_key(merged, key) <==> input_holds(inputs, key)
            &&& input_holds(inputs, key) ==> {
                &&& 0 <= at < inputs.len()
                &&& inputs[at].table.holds(key)
                &&& rows_get(merged, key) == inputs[at].table.get(key)
                &&& forall|i: int|
                    0 <= i < inputs.len() && (#[trigger] inputs[i]).table.holds(key) ==> !read_before(inputs[i], inputs[at])
            }
        }),
{
    let ordered = in_reading_order(inputs);
    let sources = placed_rows(ordered);
    law_reading_order(inputs);
    assert forall|i: int| 0 <= i < sources.len() implies sorted(#[trigger] sources[i]) by {
        assert(ordered.contains(ordered[i]));
        let k = choose|k: int| 0 <= k < inputs.len() && inputs[k] == ordered[i];
        lemma_table_sorted(inputs[k].table);
    }
    law_merge_newest_wins(sources);
    lemma_sources_some(sources, key);
    let merged = merge_rows(sources);
    if input_holds(inputs, key) {
        let k = choose|k: int| 0 <= k < inputs.len() && (#[trigger] inputs[k]).table.holds(key);
        assert(inputs.contains(inputs[k]));
        assert(ordered.contains(inputs[k]));
        let m = choose|m: int| 0 <= m < ordered.len() && ordered[m] == inputs[k];
        assert(has_key(sources[m], key));
        let first = lemma_first_source(sources, key, 0, m);
        lemma_sources_first(sources, key, first);
        assert(ordered.contains(ordered[first]));
        let at = choose|at: int| 0 <= at < inputs.len() && inputs[at] == ordered[first];
        assert forall|i: int| 0 <= i < inputs.len() && (#[trigger] inputs[i]).table.holds(key) implies !read_before(
            inputs[i],
            inputs[at],
        ) by {
            assert(inputs.contains(inputs[i]));
            assert(ordered.contains(inputs[i]));
            let n = choose|n: int| 0 <= n < ordered.len() && ordered[n] == inputs[i];
            assert(has_key(sources[n], key));
            if n < first {
                assert(!has_key(sources[n], key));
            }
            if first < n {
                assert(!read_before(ordered[n], ordered[first]));
            }
        }
        assert(has_key(merged, key));
        at
    } else {
        if has_key(merged, key) {
            let m = choose|m: int| 0 <= m < sources.len() && has_key(#[trigger] sources[m], key);
            assert(ordered.contains(ordered[m]));
            let k = choose|k: int| 0 <= k < inputs.len() && inputs[k] == ordered[m];
            assert(inputs[k].table.holds(key));
        }
        0
    }
}

proof fn lemma_first_source(sources: Seq<Seq<Row>>, key: Seq<char>, from: int, known: int) -> (first: int)
    requires
        0 <= from <= known < sources.len(),
        has_key(sources[known], key),
        forall|j: int| 0 <= j < from ==> !has_key(#[trigger] sources[j], key),
    ensures
        from <= first <= known,
        has_key(sources[first], key),
        forall|j: int| 0 <= j < first ==> !has_key(#[trigger] sources[j], key),
    decreases known - from,
{
    if has_key(sources[from], key) {
        from
    } else {
        lemma_first_source(sources, key, from + 1, known)
    }
}

/// The tables of a level; none where there is no such level.
pub open spec fn level_at(levels: Levels, level: int) -> Seq<TableState> {
    if 0 <= level < levels.len() {
        levels[level]
    } else {
        Seq::empty()
    }
}

/// Some level above `level` holds the key.
pub open spec fn held_above(levels: Levels, level: int, key: Seq<char>) -> bool {
    exists|l: int| 0 <= l < level && l < levels.len() && level_holds(#[trigger] levels[l], key)
}

/// Below level 0, tables of one level that hold the same key agree on it, unless a level above
/// holds it too.
pub open spec fn agreeing(levels: Levels) -> bool {
    forall|l: int, a: TableState, b: TableState, key: Seq<char>|
        #![trigger levels[l].contains(a), levels[l].contains(b), a.holds(key)]
        1 <= l < levels.len() && levels[l].contains(a) && levels[l].contains(b) && a.holds(key) && b.holds(key)
            ==> a.get(key) == b.get(key) || held_above(levels, l, key)
}

/// Ids ascend within a level.
pub open spec fn ascending(files: Seq<TableState>) -> bool {
    forall|i: int, j: int| 0 <= i < j < files.len() ==> (#[trigger] files[i]).id < (#[trigger] files[j]).id
}

pub open spec fn is_input(inputs: Seq<Placed>, level: int, table: TableState) -> bool {
    inputs.contains(Placed { level, table })
}

/// A merge of tables of `level` and of the next level that loses nothing: with a table of
/// `level` come all tables of the next level that share a key with it, from level 0 all tables
/// that hold anything are taken, and tombstones are dropped only where nothing lies deeper.
pub open spec fn leveled(levels: Levels, inputs: Seq<Placed>, level: int, drop: bool) -> bool {
    &&& 0 <= level < levels.len()
    &&& inputs_wf(inputs)
    &&& forall|x: Placed| #[trigger]
        inputs.contains(x) ==> (x.level == level || x.level == level + 1) && level_at(levels, x.level).contains(
            x.table,
        )
    &&& level == 0 ==> forall|t: TableState, key: Seq<char>|
        levels[0].contains(t) && #[trigger] t.holds(key) ==> is_input(inputs, 0, t)
    &&& forall|x: Placed, t: TableState, key: Seq<char>|
        #![trigger inputs.contains(x), level_at(levels, level + 1).contains(t), t.holds(key)]
        inputs.contains(x) && x.level == level && x.table.holds(key) && level_at(levels, level + 1).contains(t)
            && t.holds(key) ==> is_input(inputs, level + 1, t)
    &&& drop ==> forall|l: int, key: Seq<char>|
        level + 1 < l < levels.len() ==> !#[trigger] level_holds(levels[l], key)
}

/// What a merge of the inputs stores under a key.
pub open spec fn merged_get(inputs: Seq<Placed>, key: Seq<char>) -> Option<Option<Seq<char>>> {
    rows_get(merge_rows(placed_rows(in_reading_order(inputs))), key)
}

/// The outputs hold nothing but what the merge stores.
pub open spec fn sound_outputs(inputs: Seq<Placed>, outputs: Seq<TableState>) -> bool {
    forall|o: TableState, key: Seq<char>|
        outputs.contains(o) && #[trigger] o.holds(key) ==> input_holds(inputs, key) && o.get(key) == merged_get(
            inputs,
            key,
        )
}

/// The outputs hold all that the merge stores, but for tombstones that are dropped.
pub open spec fn complete_outputs(inputs: Seq<Placed>, drop: bool, outputs: Seq<TableState>) -> bool {
    forall|key: Seq<char>|
        input_holds(inputs, key) && !(drop && #[trigger] merged_get(inputs, key) == Some(None::<Seq<char>>))
            ==> level_holds(outputs, key)
}

/// `after` is `levels` without the inputs, and with the outputs at `output`.
pub open spec fn replaced(
    levels: Levels,
    inputs: Seq<Placed>,
    output: int,
    outputs: Seq<TableState>,
    after: Levels,
) -> bool {
    &&& after.len() >= levels.len()
    &&& 0 <= output < after.len()
    &&& forall|l: int, t: TableState|
        0 <= l < after.len() ==> (#[trigger] after[l].contains(t) <==> (level_at(levels, l).contains(t) && !is_input(
            inputs,
            l,
            t,
        )) || (l == output && outputs.contains(t)))
    &&& forall|l: int|
        0 <= l < after.len() && l != output && (forall|x: Placed| #[trigger] inputs.contains(x) ==> x.level != l)
            ==> #[trigger] after[l] == level_at(levels, l)
}

proof fn lemma_holder(files: Seq<TableState>, key: Seq<char>) -> (t: TableState)
    requires
        level_holds(files, key),
    ensures
        files.contains(t),
        t.holds(key),
{
    let i = choose|i: int| 0 <= i < files.len() && (#[trigger] files[i]).holds(key);
    files[i]
}

proof fn lemma_member_holds(files: Seq<TableState>, t: TableState, key: Seq<char>)
    requires
        files.contains(t),
        t.holds(key),
    ensures
        level_holds(files, key),
{
    let i = choose|i: int| 0 <= i < files.len() && files[i] == t;
    assert(files[i].holds(key));
}

/// When every holder in a level stores `entry`, the level does.
proof fn lemma_members_agree(files: Seq<TableState>, key: Seq<char>, entry: Option<Option<Seq<char>>>)
    requires
        level_holds(files, key),
        forall|t: TableState| #[trigger] files.contains(t) && t.holds(key) ==> t.get(key) == entry,
    ensures
        level_get(files, key) == entry,
{
    assert forall|i: int| 0 <= i < files.len() && (#[trigger] files[i]).holds(key) implies files[i].get(key) == entry by {
        assert(files.contains(files[i]));
    }
    lemma_level_agrees(files, key, entry);
}

/// In a level whose holders agree, any holder tells what the level stores.
proof fn lemma_holder_decides(levels: Levels, l: int, t: TableState, key: Seq<char>)
    requires
        agreeing(levels),
        1 <= l < levels.len(),
        levels[l].contains(t),
        t.holds(key),
        !held_above(levels, l, key),
    ensures
        level_get(levels[l], key) == t.get(key),
        forall|a: TableState| #[trigger] levels[l].contains(a) && a.holds(key) ==> a.get(key) == t.get(key),
{
    lemma_member_holds(levels[l], t, key);
    assert forall|a: TableState| #[trigger] levels[l].contains(a) && a.holds(key) implies a.get(key) == t.get(key) by {
        assert(levels[l].contains(t));
    }
    lemma_members_agree(levels[l], key, t.get(key));
}

/// In level 0 the holder with the largest id decides.
proof fn lemma_newest_decides(files: Seq<TableState>, t: TableState, key: Seq<char>)
    requires
        ascending(files),
        files.contains(t),
        t.holds(key),
        forall|a: TableState| #[trigger] files.contains(a) && a.holds(key) ==> a.id <= t.id,
    ensures
        level_get(files, key) == t.get(key),
{
    lemma_member_holds(files, t, key);
    let at = lemma_level_get(files, key);
    let i = choose|i: int| 0 <= i < files.len() && files[i] == t;
    assert(files.contains(files[at]));
    if at > i {
        assert(files[i].id < files[at].id);
    } else if i > at {
        assert(!files[i].holds(key));
    }
}

/// What a key is in `after`, found level by level.
proof fn lemma_lookup(levels: Levels, key: Seq<char>, level: int, entry: Option<Option<Seq<char>>>)
    requires
        0 <= level < levels.len(),
        !held_above(levels, level, key),
        level_holds(levels[level], key),
        level_get(levels[level], key) == entry,
    ensures
        levels_get(levels, key) == entry,
{
    assert forall|l: int| 0 <= l < level implies !level_holds(#[trigger] levels[l], key) by {
        if level_holds(levels[l], key) {
            assert(held_above(levels, level, key));
        }
    }
    lemma_levels_get_at(levels, key, level);
}

proof fn lemma_lookup_none(levels: Levels, key: Seq<char>)
    requires
        !held_above(levels, levels.len() as int, key),
    ensures
        levels_get(levels, key) is None,
{
    assert forall|l: int| 0 <= l < levels.len() implies !level_holds(#[trigger] levels[l], key) by {
        if level_holds(levels[l], key) {
            assert(held_above(levels, levels.len() as int, key));
        }
    }
    lemma_levels_get_none(levels, key);
}

/// A merge between two neighbouring levels changes no value.
pub proof fn lemma_leveled_keeps_value(
    levels: Levels,
    inputs: Seq<Placed>,
    level: int,
    drop: bool,
    outputs: Seq<TableState>,
    after: Levels,
    key: Seq<char>,
)
    requires
        agreeing(levels),
        ascending(levels[0]),
        leveled(levels, inputs, level, drop),
        sound_outputs(inputs, outputs),
        complete_outputs(inputs, drop, outputs),
        replaced(levels, inputs, level + 1, outputs, after),
    ensures
        value_of(levels_get(after, key)) == value_of(levels_get(levels, key)),
{
    let p = level;
    let below = p + 1;
    lemma_job_winner(inputs, key);
    assert forall|l: int| 0 <= l < after.len() && l != p && l != below implies #[trigger] after[l] == level_at(levels, l) by {}
    if held_above(levels, p, key) {
        lemma_first_level(levels, key, 0);
        let f = first_level(levels, key, 0);
        assert(f < p);
        assert(after[f] == levels[f]);
        assert(!held_above(levels, f, key));
        assert(!held_above(after, f, key)) by {
            if held_above(after, f, key) {
                let l = choose|l: int| 0 <= l < f && l < after.len() && level_holds(#[trigger] after[l], key);
                assert(after[l] == levels[l]);
            }
        }
        lemma_lookup(levels, key, f, level_get(levels[f], key));
        lemma_lookup(after, key, f, level_get(levels[f], key));
    } else {
        assert(!held_above(after, p, key)) by {
            if held_above(after, p, key) {
                let l = choose|l: int| 0 <= l < p && l < after.len() && level_holds(#[trigger] after[l], key);
                assert(after[l] == levels[l]);
            }
        }
        if level_holds(levels[p], key) {
            lemma_upper_value(levels, inputs, p, drop, outputs, after, key);
        } else {
            assert(!level_holds(after[p], key)) by {
                if level_holds(after[p], key) {
                    let t = lemma_holder(after[p], key);
                    assert(after[p].contains(t));
                    lemma_member_holds(levels[p], t, key);
                }
            }
            assert(!held_above(levels, below, key)) by {
                if held_above(levels, below, key) {
                    let l = choose|l: int| 0 <= l < below && l < levels.len() && level_holds(#[trigger] levels[l], key);
                    assert(l == p || held_above(levels, p, key));
                }
            }
            assert(!held_above(after, below, key)) by {
                if held_above(after, below, key) {
                    let l = choose|l: int| 0 <= l < below && l < after.len() && level_holds(#[trigger] after[l], key);
                    assert(l == p || held_above(after, p, key));
                }
            }
            lemma_lower_value(levels, inputs, p, drop, outputs, after, key);
        }
    }
}

/// Below the two levels nothing changes; where tombstones are dropped there is nothing.
proof fn lemma_deeper_same(
    levels: Levels,
    inputs: Seq<Placed>,
    level: int,
    drop: bool,
    outputs: Seq<TableState>,
    after: Levels,
    key: Seq<char>,
)
    requires
        leveled(levels, inputs, level, drop),
        replaced(levels, inputs, level + 1, outputs, after),
        !held_above(levels, level + 2, key),
        !held_above(after, level + 2, key),
    ensures
        levels_get(after, key) == levels_get(levels, key),
        drop ==> levels_get(levels, key) is None,
{
    let n = level + 2;
    lemma_first_level(levels, key, 0);
    let f = first_level(levels, key, 0);
    assert forall|l: int| 0 <= l < after.len() && l >= n implies #[trigger] after[l] == level_at(levels, l) by {}
    if f < levels.len() {
        if f < n {
            assert(held_above(levels, n, key));
        }
        assert(after[f] == levels[f]);
        assert(!held_above(levels, f, key));
        assert(!held_above(after, f, key)) by {
            if held_above(after, f, key) {
                let l = choose|l: int| 0 <= l < f && l < after.len() && level_holds(#[trigger] after[l], key);
                if l < n {
                    assert(held_above(after, n, key));
                }
                assert(after[l] == levels[l]);
            }
        }
        lemma_lookup(levels, key, f, level_get(levels[f], key));
        lemma_lookup(after, key, f, level_get(levels[f], key));
    } else {
        lemma_levels_get_none(levels, key);
        assert(!held_above(after, after.len() as int, key)) by {
            if held_above(after, after.len() as int, key) {
                let l = choose|l: int|
                    0 <= l < after.len() && l < after.len() && level_holds(#[trigger] after[l], key);
                if l < n {
                    assert(held_above(after, n, key));
                }
                assert(after[l] == level_at(levels, l));
            }
        }
        lemma_lookup_none(after, key);
    }
}

/// The upper of the two levels holds the key, and none above it does.
proof fn lemma_upper_value(
    levels: Levels,
    inputs: Seq<Placed>,
    level: int,
    drop: bool,
    outputs: Seq<TableState>,
    after: Levels,
    key: Seq<char>,
)
    requires
        agreeing(levels),
        ascending(levels[0]),
        leveled(levels, inputs, level, drop),
        sound_outputs(inputs, outputs),
        complete_outputs(inputs, drop, outputs),
        replaced(levels, inputs, level + 1, outputs, after),
        !held_above(levels, level, key),
        !held_above(after, level, key),
        level_holds(levels[level], key),
    ensures
        value_of(levels_get(after, key)) == value_of(levels_get(levels, key)),
{
    let p = level;
    let below = p + 1;
    let w = lemma_job_winner(inputs, key);
    let entry = merged_get(inputs, key);
    let upper_input = exists|x: Placed| #[trigger] inputs.contains(x) && x.level == p && x.table.holds(key);
    let old_entry = level_get(levels[p], key);
    lemma_lookup(levels, key, p, old_entry);
    if upper_input {
        let x = choose|x: Placed| #[trigger] inputs.contains(x) && x.level == p && x.table.holds(key);
        let xi = choose|xi: int| 0 <= xi < inputs.len() && inputs[xi] == x;
        assert(input_holds(inputs, key)) by {
            assert(inputs[xi].table.holds(key));
        }
        let winner = inputs[w];
        assert(inputs.contains(winner));
        assert(!read_before(inputs[xi], winner));
        assert(winner.level == p);
        let t = winner.table;
        assert(levels[p].contains(t));
        if p == 0 {
            assert forall|a: TableState| #[trigger] levels[0].contains(a) && a.holds(key) implies a.id <= t.id by {
                assert(is_input(inputs, 0, a));
                let ai = choose|ai: int| 0 <= ai < inputs.len() && inputs[ai] == (Placed { level: 0, table: a });
                assert(inputs[ai].table.holds(key));
                assert(!read_before(inputs[ai], winner));
            }
            lemma_newest_decides(levels[0], t, key);
        } else {
            lemma_holder_decides(levels, p, t, key);
        }
        assert(old_entry == entry);
        assert forall|a: TableState| #[trigger] after[below].contains(a) && a.holds(key) implies a.get(key) == entry by {
            if level_at(levels, below).contains(a) && !is_input(inputs, below, a) {
                assert(inputs.contains(x));
                assert(is_input(inputs, below, a));
            }
        }
        if level_holds(after[p], key) {
            assert forall|a: TableState| #[trigger] after[p].contains(a) && a.holds(key) implies a.get(key) == entry by {
                assert(levels[p].contains(a) && !is_input(inputs, p, a));
                if p == 0 {
                    assert(is_input(inputs, 0, a));
                }
            }
            lemma_members_agree(after[p], key, entry);
            lemma_lookup(after, key, p, entry);
        } else {
            assert(!held_above(after, below, key)) by {
                if held_above(after, below, key) {
                    let l = choose|l: int| 0 <= l < below && l < after.len() && level_holds(#[trigger] after[l], key);
                    assert(l == p || held_above(after, p, key));
                }
            }
            if level_holds(after[below], key) {
                lemma_members_agree(after[below], key, entry);
                lemma_lookup(after, key, below, entry);
            } else {
                assert(drop && entry == Some(None::<Seq<char>>)) by {
                    if !(drop && entry == Some(None::<Seq<char>>)) {
                        assert(level_holds(outputs, key));
                        let o = lemma_holder(outputs, key);
                        assert(after[below].contains(o));
                        lemma_member_holds(after[below], o, key);
                    }
                }
                assert(!held_above(after, after.len() as int, key)) by {
                    if held_above(after, after.len() as int, key) {
                        let l = choose|l: int|
                            0 <= l < after.len() && l < after.len() && level_holds(#[trigger] after[l], key);
                        if l < below {
                            assert(held_above(after, below, key));
                        }
                        assert(after[l] == level_at(levels, l));
                    }
                }
                lemma_lookup_none(after, key);
            }
        }
    } else {
        // No table of the upper level that holds the key is merged, so those that do all stay.
        assert forall|a: TableState| levels[p].contains(a) && a.holds(key) implies #[trigger] after[p].contains(a) by {
            if is_input(inputs, p, a) {
                let x = Placed { level: p, table: a };
                assert(inputs.contains(x));
            }
        }
        let t = lemma_holder(levels[p], key);
        if p == 0 {
            assert(is_input(inputs, 0, t));
            let x = Placed { level: 0, table: t };
            assert(inputs.contains(x));
        }
        lemma_holder_decides(levels, p, t, key);
        assert(after[p].contains(t));
        lemma_member_holds(after[p], t, key);
        assert forall|a: TableState| #[trigger] after[p].contains(a) && a.holds(key) implies a.get(key) == t.get(key) by {
            assert(levels[p].contains(a));
        }
        lemma_members_agree(after[p], key, t.get(key));
        lemma_lookup(after, key, p, t.get(key));
    }
}

/// Neither the upper of the two levels nor one above it holds the key.
proof fn lemma_lower_value(
    levels: Levels,
    inputs: Seq<Placed>,
    level: int,
    drop: bool,
    outputs: Seq<TableState>,
    after: Levels,
    key: Seq<char>,
)
    requires
        agreeing(levels),
        leveled(levels, inputs, level, drop),
        sound_outputs(inputs, outputs),
        complete_outputs(inputs, drop, outputs),
        replaced(levels, inputs, level + 1, outputs, after),
        !held_above(levels, level + 1, key),
        !held_above(after, level + 1, key),
    ensures
        value_of(levels_get(after, key)) == value_of(levels_get(levels, key)),
{
    let below = level + 1;
    let w = lemma_job_winner(inputs, key);
    let entry = merged_get(inputs, key);
    if level_holds(level_at(levels, below), key) {
        let t = lemma_holder(levels[below], key);
        lemma_holder_decides(levels, below, t, key);
        lemma_lookup(levels, key, below, t.get(key));
        if input_holds(inputs, key) {
            let winner = inputs[w];
            assert(inputs.contains(winner));
            if winner.level == level {
                lemma_member_holds(levels[level], winner.table, key);
                assert(held_above(levels, below, key));
            }
            assert(levels[below].contains(winner.table));
            assert(entry == t.get(key));
        }
        assert forall|a: TableState| #[trigger] after[below].contains(a) && a.holds(key) implies a.get(key) == t.get(
            key,
        ) by {
            if outputs.contains(a) {
                assert(a.holds(key));
            } else {
                assert(levels[below].contains(a));
            }
        }
        if level_holds(after[below], key) {
            lemma_members_agree(after[below], key, t.get(key));
            lemma_lookup(after, key, below, t.get(key));
        } else {
            assert(is_input(inputs, below, t)) by {
                if !is_input(inputs, below, t) {
                    assert(after[below].contains(t));
                    lemma_member_holds(after[below], t, key);
                }
            }
            let ti = choose|ti: int|
                0 <= ti < inputs.len() && inputs[ti] == (Placed { level: below, table: t });
            assert(inputs[ti].table.holds(key));
            assert(input_holds(inputs, key));
            assert(drop && entry == Some(None::<Seq<char>>)) by {
                if !(drop && entry == Some(None::<Seq<char>>)) {
                    assert(level_holds(outputs, key));
                    let o = lemma_holder(outputs, key);
                    assert(after[below].contains(o));
                    lemma_member_holds(after[below], o, key);
                }
            }
            assert(!held_above(after, after.len() as int, key)) by {
                if held_above(after, after.len() as int, key) {
                    let l = choose|l: int|
                        0 <= l < after.len() && l < after.len() && level_holds(#[trigger] after[l], key);
                    if l < below {
                        assert(held_above(after, below, key));
                    }
                    assert(after[l] == level_at(levels, l));
                }
            }
            lemma_lookup_none(after, key);
        }
    } else {
        assert(!input_holds(inputs, key)) by {
            if input_holds(inputs, key) {
                let winner = inputs[w];
                assert(inputs.contains(winner));
                lemma_member_holds(level_at(levels, winner.level), winner.table, key);
                assert(winner.level == level);
                assert(held_above(levels, below, key));
            }
        }
        assert(!level_holds(after[below], key)) by {
            if level_holds(after[below], key) {
                let a = lemma_holder(after[below], key);
                assert(after[below].contains(a));
                if !outputs.contains(a) {
                    lemma_member_holds(level_at(levels, below), a, key);
                }
            }
        }
        assert(!held_above(levels, level + 2, key)) by {
            if held_above(levels, level + 2, key) {
                let l = choose|l: int| 0 <= l < level + 2 && l < levels.len() && level_holds(#[trigger] levels[l], key);
                assert(l == below || held_above(levels, below, key));
            }
        }
        assert(!held_above(after, level + 2, key)) by {
            if held_above(after, level + 2, key) {
                let l = choose|l: int| 0 <= l < level + 2 && l < after.len() && level_holds(#[trigger] after[l], key);
                assert(l == below || held_above(after, below, key));
            }
        }
        lemma_deeper_same(levels, inputs, level, drop, outputs, after, key);
    }
}

/// After a merge between two neighbouring levels the tables still agree.
pub proof fn lemma_leveled_keeps_agreement(
    levels: Levels,
    inputs: Seq<Placed>,
    level: int,
    drop: bool,
    outputs: Seq<TableState>,
    after: Levels,
)
    requires
        agreeing(levels),
        leveled(levels, inputs, level, drop),
        sound_outputs(inputs, outputs),
        complete_outputs(inputs, drop, outputs),
        replaced(levels, inputs, level + 1, outputs, after),
    ensures
        agreeing(after),
{
    let below = level + 1;
    assert forall|l: int, a: TableState, b: TableState, key: Seq<char>|
        #![trigger after[l].contains(a), after[l].contains(b), a.holds(key)]
        1 <= l < after.len() && after[l].contains(a) && after[l].contains(b) && a.holds(key) && b.holds(key)
            implies a.get(key) == b.get(key) || held_above(after, l, key) by {
        if a.get(key) != b.get(key) {
            let w = lemma_job_winner(inputs, key);
            let kept_a = level_at(levels, l).contains(a) && !is_input(inputs, l, a);
            let kept_b = level_at(levels, l).contains(b) && !is_input(inputs, l, b);
            assert(kept_a || (l == below && outputs.contains(a)));
            assert(kept_b || (l == below && outputs.contains(b)));
            if kept_a && kept_b {
                assert(levels[l].contains(a) && levels[l].contains(b));
                assert(held_above(levels, l, key));
                lemma_still_held(levels, inputs, level, drop, outputs, after, l, key, a);
            } else {
                // At least one of the two is an output, and both stand at the output level.
                let kept = if kept_a {
                    a
                } else {
                    b
                };
                let output = if kept_a {
                    b
                } else {
                    a
                };
                assert(output.holds(key) && outputs.contains(output));
                assert(output.get(key) == merged_get(inputs, key));
                if !(kept_a || kept_b) {
                    assert(kept.get(key) == merged_get(inputs, key));
                }
                let winner = inputs[w];
                assert(inputs.contains(winner));
                if winner.level == level {
                    assert(level_at(levels, level + 1).contains(kept));
                    assert(is_input(inputs, level + 1, kept));
                    assert(false);
                }
                assert(levels[below].contains(winner.table));
                assert(levels[below].contains(kept));
                assert(held_above(levels, below, key));
                lemma_still_held(levels, inputs, level, drop, outputs, after, below, key, kept);
            }
        }
    }
}

/// A key that stays in a level, and that a level above holds, is still held above.
proof fn lemma_still_held(
    levels: Levels,
    inputs: Seq<Placed>,
    level: int,
    drop: bool,
    outputs: Seq<TableState>,
    after: Levels,
    at: int,
    key: Seq<char>,
    kept: TableState,
)
    requires
        leveled(levels, inputs, level, drop),
        complete_outputs(inputs, drop, outputs),
        replaced(levels, inputs, level + 1, outputs, after),
        0 <= at < levels.len(),
        levels[at].contains(kept),
        !is_input(inputs, at, kept),
        kept.holds(key),
        held_above(levels, at, key),
    ensures
        held_above(after, at, key),
{
    let below = level + 1;
    let m = choose|m: int| 0 <= m < at && m < levels.len() && level_holds(#[trigger] levels[m], key);
    let h = lemma_holder(levels[m], key);
    if !is_input(inputs, m, h) {
        assert(after[m].contains(h));
        lemma_member_holds(after[m], h, key);
    } else {
        let x = Placed { level: m, table: h };
        assert(inputs.contains(x));
        let xi = choose|xi: int| 0 <= xi < inputs.len() && inputs[xi] == x;
        assert(inputs[xi].table.holds(key));
        if at == below && m == level {
            assert(level_at(levels, level + 1).contains(kept));
            assert(is_input(inputs, level + 1, kept));
        }
        lemma_member_holds(levels[at], kept, key);
        if at > below {
            assert(!drop);
            assert(level_holds(outputs, key)) by {
                assert(merged_get(inputs, key) == merged_get(inputs, key));
            }
            let o = lemma_holder(outputs, key);
            assert(after[below].contains(o));
            lemma_member_holds(after[below], o, key);
        }
    }
}

/// Tables that can be added to a level without changing what is found: they hold what is found
/// anyway, or what a level above hides.
pub open spec fn harmless(levels: Levels, output: int, outputs: Seq<TableState>) -> bool {
    forall|o: TableState, key: Seq<char>|
        outputs.contains(o) && #[trigger] o.holds(key) ==> held_above(levels, output, key) || o.get(key) == levels_get(
            levels,
            key,
        )
}

/// Adding such tables changes nothing that is found.
pub proof fn lemma_added_keeps_lookup(
    levels: Levels,
    output: int,
    outputs: Seq<TableState>,
    after: Levels,
    key: Seq<char>,
)
    requires
        agreeing(levels),
        output >= 1,
        harmless(levels, output, outputs),
        replaced(levels, Seq::empty(), output, outputs, after),
    ensures
        levels_get(after, key) == levels_get(levels, key),
{
    let none = Seq::<Placed>::empty();
    assert forall|l: int| 0 <= l < after.len() && l != output implies #[trigger] after[l] == level_at(levels, l) by {}
    lemma_first_level(levels, key, 0);
    let f = first_level(levels, key, 0);
    if f < output && f < levels.len() {
        assert(after[f] == levels[f]);
        assert(!held_above(levels, f, key));
        assert(!held_above(after, f, key)) by {
            if held_above(after, f, key) {
                let l = choose|l: int| 0 <= l < f && l < after.len() && level_holds(#[trigger] after[l], key);
                assert(after[l] == levels[l]);
            }
        }
        lemma_lookup(levels, key, f, level_get(levels[f], key));
        lemma_lookup(after, key, f, level_get(levels[f], key));
    } else {
        assert(!held_above(levels, output, key)) by {
            if held_above(levels, output, key) {
                let l = choose|l: int| 0 <= l < output && l < levels.len() && level_holds(#[trigger] levels[l], key);
            }
        }
        assert(!held_above(after, output, key)) by {
            if held_above(after, output, key) {
                let l = choose|l: int| 0 <= l < output && l < after.len() && level_holds(#[trigger] after[l], key);
                assert(after[l] == level_at(levels, l));
                assert(l < levels.len());
                assert(held_above(levels, output, key));
            }
        }
        let found = levels_get(levels, key);
        if level_holds(after[output], key) {
            assert forall|a: TableState| #[trigger] after[output].contains(a) && a.holds(key) implies a.get(key)
                == found by {
                if !outputs.contains(a) {
                    assert(levels[output].contains(a));
                    lemma_holder_decides(levels, output, a, key);
                    lemma_member_holds(levels[output], a, key);
                    lemma_lookup(levels, key, output, a.get(key));
                }
            }
            lemma_members_agree(after[output], key, found);
            lemma_lookup(after, key, output, found);
        } else {
            assert(!level_holds(level_at(levels, output), key)) by {
                if level_holds(level_at(levels, output), key) {
                    let t = lemma_holder(levels[output], key);
                    assert(!is_input(none, output, t));
                    assert(after[output].contains(t));
                    lemma_member_holds(after[output], t, key);
                }
            }
            if f < levels.len() {
                assert(f != output);
                assert(after[f] == levels[f]);
                assert(!held_above(levels, f, key));
                assert(!held_above(after, f, key)) by {
                    if held_above(after, f, key) {
                        let l = choose|l: int| 0 <= l < f && l < after.len() && level_holds(#[trigger] after[l], key);
                        assert(l != output);
                        assert(after[l] == levels[l]);
                    }
                }
                lemma_lookup(levels, key, f, level_get(levels[f], key));
                lemma_lookup(after, key, f, level_get(levels[f], key));
            } else {
                lemma_levels_get_none(levels, key);
                assert(!held_above(after, after.len() as int, key)) by {
                    if held_above(after, after.len() as int, key) {
                        let l = choose|l: int|
                            0 <= l < after.len() && l < after.len() && level_holds(#[trigger] after[l], key);
                        assert(l != output);
                        assert(after[l] == level_at(levels, l));
                        assert(l < levels.len());
                    }
                }
                lemma_lookup_none(after, key);
            }
        }
    }
}

/// Adding such tables keeps the tables in agreement.
pub proof fn lemma_added_keeps_agreement(levels: Levels, output: int, outputs: Seq<TableState>, after: Levels)
    requires
        agreeing(levels),
        output >= 1,
        harmless(levels, output, outputs),
        replaced(levels, Seq::empty(), output, outputs, after),
    ensures
        agreeing(after),
{
    let none = Seq::<Placed>::empty();
    assert forall|l: int, a: TableState, b: TableState, key: Seq<char>|
        #![trigger after[l].contains(a), after[l].contains(b), a.holds(key)]
        1 <= l < after.len() && after[l].contains(a) && after[l].contains(b) && a.holds(key) && b.holds(key)
            implies a.get(key) == b.get(key) || held_above(after, l, key) by {
        if held_above(levels, l, key) {
            let m = choose|m: int| 0 <= m < l && m < levels.len() && level_holds(#[trigger] levels[m], key);
            let h = lemma_holder(levels[m], key);
            assert(!is_input(none, m, h));
            assert(after[m].contains(h));
            lemma_member_holds(after[m], h, key);
        } else {
            if level_at(levels, l).contains(a) {
                lemma_holder_decides(levels, l, a, key);
                lemma_member_holds(levels[l], a, key);
                lemma_lookup(levels, key, l, a.get(key));
            }
            if level_at(levels, l).contains(b) {
                lemma_holder_decides(levels, l, b, key);
                lemma_member_holds(levels[l], b, key);
                lemma_lookup(levels, key, l, b.get(key));
            }
        }
    }
}

/// The outputs of a merge between two neighbouring levels can be added before the inputs go.
pub proof fn lemma_leveled_outputs_harmless(
    levels: Levels,
    inputs: Seq<Placed>,
    level: int,
    drop: bool,
    outputs: Seq<TableState>,
)
    requires
        agreeing(levels),
        leveled(levels, inputs, level, drop),
        sound_outputs(inputs, outputs),
    ensures
        harmless(levels, level + 1, outputs),
{
    let below = level + 1;
    assert forall|o: TableState, key: Seq<char>| outputs.contains(o) && #[trigger] o.holds(key) implies held_above(
        levels,
        below,
        key,
    ) || o.get(key) == levels_get(levels, key) by {
        let w = lemma_job_winner(inputs, key);
        let winner = inputs[w];
        assert(inputs.contains(winner));
        let t = winner.table;
        lemma_member_holds(level_at(levels, winner.level), t, key);
        if winner.level == level {
            assert(held_above(levels, below, key));
        } else if !held_above(levels, below, key) {
            lemma_holder_decides(levels, below, t, key);
            lemma_lookup(levels, key, below, t.get(key));
        }
    }
}

/// All tables are inputs.
pub open spec fn takes_all(levels: Levels, inputs: Seq<Placed>) -> bool {
    &&& inputs_wf(inputs)
    &&& forall|x: Placed| #[trigger]
        inputs.contains(x) <==> 0 <= x.level < levels.len() && level_at(levels, x.level).contains(x.table)
}

/// A merge of all tables stores what is found by reading them.
pub proof fn lemma_merge_of_all(levels: Levels, inputs: Seq<Placed>, key: Seq<char>)
    requires
        takes_all(levels, inputs),
        forall|l: int| 0 <= l < levels.len() ==> ascending(#[trigger] levels[l]),
    ensures
        merged_get(inputs, key) == levels_get(levels, key),
        input_holds(inputs, key) <==> levels_get(levels, key) is Some,
{
    let w = lemma_job_winner(inputs, key);
    lemma_first_level(levels, key, 0);
    let f = first_level(levels, key, 0);
    if f < levels.len() {
        let at = lemma_level_get(levels[f], key);
        let t = levels[f][at];
        assert(levels[f].contains(t));
        let x = Placed { level: f, table: t };
        assert(inputs.contains(x));
        let xi = choose|xi: int| 0 <= xi < inputs.len() && inputs[xi] == x;
        assert(inputs[xi].table.holds(key));
        assert(input_holds(inputs, key));
        let winner = inputs[w];
        assert(inputs.contains(winner));
        lemma_member_holds(levels[winner.level], winner.table, key);
        assert(!read_before(inputs[xi], winner));
        assert(winner.level == f);
        let wi = choose|wi: int| 0 <= wi < levels[f].len() && levels[f][wi] == winner.table;
        assert(wi <= at) by {
            if wi > at {
                assert(!levels[f][wi].holds(key));
            }
        }
        if wi < at {
            assert(levels[f][wi].id < levels[f][at].id);
        }
        lemma_levels_get_at(levels, key, f);
    } else {
        lemma_levels_get_none(levels, key);
        if input_holds(inputs, key) {
            let winner = inputs[w];
            assert(inputs.contains(winner));
            lemma_member_holds(levels[winner.level], winner.table, key);
        }
    }
}

/// Merging all tables into one level changes no value, and the tables agree afterwards.
pub proof fn lemma_full_merge(
    levels: Levels,
    inputs: Seq<Placed>,
    outputs: Seq<TableState>,
    drop: bool,
    output: int,
    after: Levels,
)
    requires
        takes_all(levels, inputs),
        forall|l: int| 0 <= l < levels.len() ==> ascending(#[trigger] levels[l]),
        sound_outputs(inputs, outputs),
        complete_outputs(inputs, drop, outputs),
        replaced(levels, inputs, output, outputs, after),
    ensures
        forall|key: Seq<char>| value_of(#[trigger] levels_get(after, key)) == value_of(levels_get(levels, key)),
        agreeing(after),
        harmless(levels, output, outputs),
{
    assert forall|l: int, t: TableState| 0 <= l < after.len() && #[trigger] after[l].contains(t) implies l == output
        && outputs.contains(t) by {
        if level_at(levels, l).contains(t) {
            let x = Placed { level: l, table: t };
            assert(inputs.contains(x));
        }
    }
    assert forall|key: Seq<char>| value_of(#[trigger] levels_get(after, key)) == value_of(levels_get(levels, key)) by {
        let entry = merged_get(inputs, key);
        lemma_merge_of_all(levels, inputs, key);
        assert(!held_above(after, output, key)) by {
            if held_above(after, output, key) {
                let l = choose|l: int| 0 <= l < output && l < after.len() && level_holds(#[trigger] after[l], key);
                let t = lemma_holder(after[l], key);
                assert(after[l].contains(t));
            }
        }
        if level_holds(after[output], key) {
            assert forall|a: TableState| #[trigger] after[output].contains(a) && a.holds(key) implies a.get(key)
                == entry by {
                assert(outputs.contains(a));
            }
            lemma_members_agree(after[output], key, entry);
            lemma_lookup(after, key, output, entry);
        } else {
            assert(!held_above(after, after.len() as int, key)) by {
                if held_above(after, after.len() as int, key) {
                    let l = choose|l: int|
                        0 <= l < after.len() && l < after.len() && level_holds(#[trigger] after[l], key);
                    let t = lemma_holder(after[l], key);
                    assert(after[l].contains(t));
                }
            }
            lemma_lookup_none(after, key);
            if input_holds(inputs, key) {
                assert(drop && entry == Some(None::<Seq<char>>)) by {
                    if !(drop && entry == Some(None::<Seq<char>>)) {
                        assert(level_holds(outputs, key));
                        let o = lemma_holder(outputs, key);
                        assert(after[output].contains(o));
                        lemma_member_holds(after[output], o, key);
                    }
                }
            }
        }
    }
    assert forall|l: int, a: TableState, b: TableState, key: Seq<char>|
        #![trigger after[l].contains(a), after[l].contains(b), a.holds(key)]
        1 <= l < after.len() && after[l].contains(a) && after[l].contains(b) && a.holds(key) && b.holds(key)
            implies a.get(key) == b.get(key) || held_above(after, l, key) by {
        assert(outputs.contains(a) && outputs.contains(b));
    }
    assert forall|o: TableState, key: Seq<char>| outputs.contains(o) && #[trigger] o.holds(key) implies held_above(
        levels,
        output,
        key,
    ) || o.get(key) == levels_get(levels, key) by {
        lemma_merge_of_all(levels, inputs, key);
    }
}

}
