//! What opening a directory makes of the files in it.
use crate::compaction::at_most;
use crate::db::{Counters, DbModel, DbOptions};
use crate::disk::{applied_all, lemma_applied_concat, FileOp, Image, Run};
use crate::engine::TreeState;
use crate::fault::FaultInjector;
use crate::levels::{level_at, Levels, TableState};
use crate::metrics::MetricsState;
use crate::names::{is_tmp, law_names_are_apart, parse_marker, parse_table_name, pending_name, wal_name};
use crate::rows::{upsert, Row};
use crate::table::parse_table;
use crate::wal::{scan_log, LogEnd};
use vstd::prelude::*;
use vstd::utf8::{decode_utf8, valid_utf8};

verus! {

/// A merge that was recorded as pending: the ids of its outputs and of its inputs.
pub struct Pending {
    pub outputs: Seq<u64>,
    pub inputs: Seq<u64>,
}

/// The merge that the marker in a directory tells of; its text must be valid UTF-8.
pub open spec fn pending_in(image: Image) -> Option<Pending> {
    if image.dom().contains(pending_name()) {
        let (outputs, inputs) = parse_marker(decode_utf8(image[pending_name()]));
        Some(Pending { outputs, inputs })
    } else {
        None
    }
}

pub open spec fn marker_is_text(image: Image) -> bool {
    image.dom().contains(pending_name()) ==> valid_utf8(image[pending_name()])
}

/// Whether there is a table file with an id.
pub open spec fn has_table_file(image: Image, id: u64) -> bool {
    exists|name: Seq<char>| #[trigger] image.dom().contains(name) && is_table_file(name, id)
}

pub open spec fn is_table_file(name: Seq<char>, id: u64) -> bool {
    parse_table_name(name) matches Some((own, _)) && own == id
}

/// Whether all outputs of a merge are there, so that its inputs are no longer needed.
pub open spec fn outputs_present(image: Image, pending: Pending) -> bool {
    forall|i: int| 0 <= i < pending.outputs.len() ==> has_table_file(image, #[trigger] pending.outputs[i])
}

pub open spec fn is_merged_input(name: Seq<char>, pending: Pending) -> bool {
    parse_table_name(name) matches Some((id, _)) && pending.inputs.contains(id)
}

/// Whether a file of the directory goes when it is opened.
pub open spec fn is_leftover(image: Image, name: Seq<char>) -> bool {
    ||| is_tmp(name)
    ||| match pending_in(image) {
        Some(pending) => name == pending_name() || (outputs_present(image, pending) && is_merged_input(name, pending)),
        None => false,
    }
}

/// The directory without the files that an interrupted operation left behind.
pub open spec fn cleaned(image: Image) -> Image {
    Map::new(|name: Seq<char>| image.dom().contains(name) && !is_leftover(image, name), |name: Seq<char>| image[name])
}

/// Removing the files that were written under a temporary name.
pub open spec fn tmp_removals(names: Seq<Seq<char>>) -> Seq<FileOp>
    decreases names.len(),
{
    if names.len() == 0 {
        Seq::empty()
    } else if is_tmp(names.last()) {
        tmp_removals(names.drop_last()).push(FileOp::Remove { name: names.last() })
    } else {
        tmp_removals(names.drop_last())
    }
}

/// Removing the inputs of a merge.
pub open spec fn input_removals(names: Seq<Seq<char>>, pending: Pending) -> Seq<FileOp>
    decreases names.len(),
{
    if names.len() == 0 {
        Seq::empty()
    } else if is_merged_input(names.last(), pending) {
        input_removals(names.drop_last(), pending).push(FileOp::Remove { name: names.last() })
    } else {
        input_removals(names.drop_last(), pending)
    }
}

/// Finishing a merge.
pub open spec fn merge_removals(names: Seq<Seq<char>>, image: Image) -> Seq<FileOp> {
    match pending_in(image) {
        Some(pending) => (if outputs_present(image, pending) {
            input_removals(names, pending)
        } else {
            Seq::empty()
        }).push(FileOp::Remove { name: pending_name() }),
        None => Seq::empty(),
    }
}

/// A table file in a directory.
pub struct Found {
    pub id: u64,
    pub level: u32,
    pub name: Seq<char>,
}

/// Files whose ids do not descend, with one more behind those whose id is not larger.
pub open spec fn insert_found(found: Seq<Found>, file: Found) -> Seq<Found>
    decreases found.len(),
{
    if found.len() == 0 {
        seq![file]
    } else if found.last().id > file.id {
        insert_found(found.drop_last(), file).push(found.last())
    } else {
        found.push(file)
    }
}

/// The table files among the names that the directory holds, ordered by id.
pub open spec fn discovered(names: Seq<Seq<char>>, image: Image) -> Seq<Found>
    decreases names.len(),
{
    if names.len() == 0 {
        Seq::empty()
    } else {
        let before = discovered(names.drop_last(), image);
        match parse_table_name(names.last()) {
            Some((id, level)) => if image.dom().contains(names.last()) {
                insert_found(before, Found { id, level, name: names.last() })
            } else {
                before
            },
            None => before,
        }
    }
}

/// The levels with one more table at the end of a level.
pub open spec fn with_table(levels: Levels, level: int, table: TableState) -> Levels {
    let len = if levels.len() > level {
        levels.len() as int
    } else {
        level + 1
    };
    Seq::new(
        len as nat,
        |l: int|
            if l == level {
                level_at(levels, l).push(table)
            } else {
                level_at(levels, l)
            },
    )
}

/// The tables of the files, one by one; the problem of the first file that is none.
pub open spec fn loaded(found: Seq<Found>, image: Image) -> core::result::Result<TreeState, Seq<char>>
    decreases found.len(),
{
    if found.len() == 0 {
        Ok(TreeState { levels: seq![Seq::empty()], next_id: 0 })
    } else {
        let file = found.last();
        match loaded(found.drop_last(), image) {
            Err(problem) => Err(problem),
            Ok(tree) => match parse_table(image[file.name]) {
                Err(problem) => Err(problem),
                Ok(_) => Ok(
                    TreeState {
                        levels: with_table(
                            tree.levels,
                            file.level as int,
                            TableState { id: file.id, path: file.name, bytes: image[file.name] },
                        ),
                        next_id: next_after(file.id, tree.next_id),
                    },
                ),
            },
        }
    }
}

/// The next id when a table with `id` is there; ids end at the largest 64-bit number.
pub open spec fn next_after(id: u64, next_id: int) -> int {
    let larger = if id > next_id {
        id as int
    } else {
        next_id
    };
    at_most(larger + 1, u64::MAX as int)
}

/// The memtable after the rows have been written to it in turn.
pub open spec fn replayed(rows: Seq<Row>) -> Seq<Row>
    decreases rows.len(),
{
    if rows.len() == 0 {
        Seq::empty()
    } else {
        upsert(replayed(rows.drop_last()), rows.last())
    }
}

/// What the log of a directory holds.
pub open spec fn log_in(image: Image) -> Seq<u8> {
    crate::disk::file_or_empty(image, wal_name())
}

/// Cutting off what does not belong to a complete record. A log that is not there is created.
pub open spec fn log_ops(image: Image) -> Seq<FileOp> {
    let scan = scan_log(log_in(image));
    if !image.dom().contains(wal_name()) {
        seq![FileOp::Append { name: wal_name(), data: Seq::empty() }]
    } else if scan.valid_len < log_in(image).len() {
        seq![FileOp::Truncate { name: wal_name(), len: scan.valid_len }, FileOp::Sync { name: wal_name() }]
    } else {
        Seq::empty()
    }
}

/// How the opening of a directory ends.
pub enum Opening {
    /// The marker of a pending merge is no text.
    BadMarker,
    /// A table file is damaged in the way told.
    BadTable(Seq<char>),
    /// A record of the log is damaged in the way told.
    BadLog(Seq<char>),
    /// With these tables and this memtable.
    Done { tree: TreeState, memtable: Seq<Row> },
}

pub open spec fn opening(names: Seq<Seq<char>>, image: Image) -> Opening {
    if !marker_is_text(image) {
        Opening::BadMarker
    } else {
        match loaded(discovered(names, cleaned(image)), cleaned(image)) {
            Err(problem) => Opening::BadTable(problem),
            Ok(tree) => match scan_log(log_in(image)).end {
                LogEnd::Corrupt(problem) => Opening::BadLog(problem),
                _ => Opening::Done { tree, memtable: replayed(scan_log(log_in(image)).rows) },
            },
        }
    }
}

/// What opening a directory does to its files.
pub open spec fn opening_ops(names: Seq<Seq<char>>, image: Image) -> Seq<FileOp> {
    match opening(names, image) {
        Opening::BadMarker => tmp_removals(names),
        Opening::Done { .. } => tmp_removals(names) + merge_removals(names, image) + log_ops(image),
        _ => tmp_removals(names) + merge_removals(names, image),
    }
}

/// The state of a database that was just opened.
pub open spec fn opened(tree: TreeState, memtable: Seq<Row>, image: Image, options: DbOptions) -> DbModel {
    DbModel {
        memtable,
        tree,
        trail: Run {
            injector: FaultInjector { fault: options.fault, hits: 0 },
            ops: Seq::empty(),
            stop: None,
        },
        options,
        wal_size: scan_log(log_in(image)).valid_len as u64,
        metrics: MetricsState {
            compactions: 0,
            full_compactions: 0,
            compactions_by_level: Seq::empty(),
            bytes_read: 0,
            bytes_written: 0,
            input_files: 0,
            output_files: 0,
            bytes_flushed: 0,
        },
        counters: Counters { memtable_hits: 0, bloom_rejects: 0, block_reads: 0 },
    }
}

proof fn lemma_contains_step(names: Seq<Seq<char>>, name: Seq<char>)
    requires
        names.len() > 0,
    ensures
        names.contains(name) <==> (names.drop_last().contains(name) || names.last() == name),
{
    if names.contains(name) {
        let i = choose|i: int| 0 <= i < names.len() && names[i] == name;
        if i < names.len() - 1 {
            assert(names.drop_last()[i] == name);
        }
    }
    if names.drop_last().contains(name) {
        let i = choose|i: int| 0 <= i < names.drop_last().len() && names.drop_last()[i] == name;
        assert(names[i] == name);
    }
    assert(names[names.len() - 1] == names.last());
}

/// What removing the temporary files leaves.
pub proof fn lemma_tmp_removals(names: Seq<Seq<char>>, image: Image)
    ensures
        forall|name: Seq<char>| #[trigger]
            applied_all(image, tmp_removals(names)).dom().contains(name) <==> image.dom().contains(name) && !(is_tmp(name)
                && names.contains(name)),
        forall|name: Seq<char>|
            applied_all(image, tmp_removals(names)).dom().contains(name) ==> #[trigger] applied_all(
                image,
                tmp_removals(names),
            )[name] == image[name],
    decreases names.len(),
{
    if names.len() > 0 {
        let before = names.drop_last();
        lemma_tmp_removals(before, image);
        assert forall|name: Seq<char>| names.contains(name) <==> (#[trigger] before.contains(name) || names.last()
            == name) by {
            lemma_contains_step(names, name);
        }
        if is_tmp(names.last()) {
            assert(tmp_removals(names).drop_last() =~= tmp_removals(before));
        }
        assert forall|name: Seq<char>| #[trigger]
            applied_all(image, tmp_removals(names)).dom().contains(name) <==> image.dom().contains(name) && !(is_tmp(name)
                && names.contains(name)) by {
            lemma_contains_step(names, name);
            assert(applied_all(image, tmp_removals(before)).dom().contains(name) <==> image.dom().contains(name) && !(
            is_tmp(name) && before.contains(name)));
        }
        assert forall|name: Seq<char>|
            applied_all(image, tmp_removals(names)).dom().contains(name) implies #[trigger] applied_all(
            image,
            tmp_removals(names),
        )[name] == image[name] by {
            assert(applied_all(image, tmp_removals(before))[name] == image[name]);
        }
    }
}

/// What removing the inputs of a merge leaves.
pub proof fn lemma_input_removals(names: Seq<Seq<char>>, image: Image, pending: Pending)
    ensures
        forall|name: Seq<char>| #[trigger]
            applied_all(image, input_removals(names, pending)).dom().contains(name) <==> image.dom().contains(name) && !(
            is_merged_input(name, pending) && names.contains(name)),
        forall|name: Seq<char>|
            applied_all(image, input_removals(names, pending)).dom().contains(name) ==> #[trigger] applied_all(
                image,
                input_removals(names, pending),
            )[name] == image[name],
    decreases names.len(),
{
    if names.len() > 0 {
        let before = names.drop_last();
        lemma_input_removals(before, image, pending);
        if is_merged_input(names.last(), pending) {
            assert(input_removals(names, pending).drop_last() =~= input_removals(before, pending));
        }
        assert forall|name: Seq<char>| #[trigger]
            applied_all(image, input_removals(names, pending)).dom().contains(name) <==> image.dom().contains(name) && !(
            is_merged_input(name, pending) && names.contains(name)) by {
            lemma_contains_step(names, name);
            assert(applied_all(image, input_removals(before, pending)).dom().contains(name) <==> image.dom().contains(
                name,
            ) && !(is_merged_input(name, pending) && before.contains(name)));
        }
        assert forall|name: Seq<char>|
            applied_all(image, input_removals(names, pending)).dom().contains(name) implies #[trigger] applied_all(
            image,
            input_removals(names, pending),
        )[name] == image[name] by {
            assert(applied_all(image, input_removals(before, pending))[name] == image[name]);
        }
    }
}

/// The directory that the removals leave.
pub proof fn lemma_cleaned(names: Seq<Seq<char>>, image: Image)
    requires
        forall|name: Seq<char>| #[trigger] image.dom().contains(name) ==> names.contains(name),
    ensures
        applied_all(image, tmp_removals(names) + merge_removals(names, image)) == cleaned(image),
{
    law_names_are_apart(pending_name());
    let tmp = tmp_removals(names);
    let merge = merge_removals(names, image);
    lemma_applied_concat(image, tmp, merge);
    lemma_tmp_removals(names, image);
    let middle = applied_all(image, tmp);
    match pending_in(image) {
        Some(pending) => {
            let inputs = if outputs_present(image, pending) {
                input_removals(names, pending)
            } else {
                Seq::empty()
            };
            assert(merge.drop_last() =~= inputs);
            let merged = applied_all(middle, inputs);
            lemma_input_removals(names, middle, pending);
            let end = applied_all(middle, merge);
            assert(end == merged.remove(pending_name()));
            assert forall|name: Seq<char>| #[trigger] end.dom().contains(name) <==> cleaned(image).dom().contains(name) by {
                assert(middle.dom().contains(name) <==> image.dom().contains(name) && !is_tmp(name));
                assert(outputs_present(image, pending) ==> (merged.dom().contains(name) <==> middle.dom().contains(name)
                    && !(is_merged_input(name, pending) && names.contains(name))));
            }
            assert forall|name: Seq<char>| end.dom().contains(name) implies #[trigger] end[name] == cleaned(image)[name] by {
                assert(merged.dom().contains(name));
                assert(merged[name] == middle[name]);
                assert(middle.dom().contains(name));
                assert(middle[name] == image[name]);
                assert(cleaned(image).dom().contains(name));
            }
            assert(end =~= cleaned(image));
        },
        None => {
            assert forall|name: Seq<char>| #[trigger] middle.dom().contains(name) <==> cleaned(image).dom().contains(
                name,
            ) by {}
            assert(middle =~= cleaned(image));
        },
    }
}

/// A database that was just opened has the tables and the memtable that were found, the options that
/// were given, and nothing counted; nothing is left to be carried out.
pub proof fn law_opened_database_starts_anew(tree: TreeState, memtable: Seq<Row>, image: Image, options: DbOptions)
    ensures
        ({
            let model = opened(tree, memtable, image, options);
            &&& model.tree == tree
            &&& model.memtable == memtable
            &&& model.options == options
            &&& model.trail.ops.len() == 0
            &&& model.trail.stop is None
            &&& model.trail.injector.fault == options.fault
            &&& model.trail.injector.hits == 0
            &&& scan_log(log_in(image)).valid_len <= u64::MAX && 0 <= scan_log(log_in(image)).valid_len ==> model.wal_size
                == scan_log(log_in(image)).valid_len
            &&& model.metrics.compactions == 0 && model.metrics.full_compactions == 0
            &&& model.metrics.bytes_read == 0 && model.metrics.bytes_written == 0
            &&& model.metrics.input_files == 0 && model.metrics.output_files == 0
            &&& model.metrics.bytes_flushed == 0 && model.metrics.compactions_by_level.len() == 0
            &&& model.counters.memtable_hits == 0 && model.counters.bloom_rejects == 0 && model.counters.block_reads == 0
        }),
{
}

proof fn lemma_ids_in_use(found: Seq<Found>, image: Image, i: int)
    requires
        loaded(found, image) is Ok,
        0 <= i < found.len(),
    ensures
        (loaded(found, image)->Ok_0).next_id > found[i].id || (loaded(found, image)->Ok_0).next_id == u64::MAX,
        0 <= (loaded(found, image)->Ok_0).next_id <= u64::MAX,
    decreases found.len(),
{
    let before = found.drop_last();
    lemma_next_id(before, image);
    if i < before.len() {
        lemma_ids_in_use(before, image, i);
        assert(before[i] == found[i]);
    }
}

proof fn lemma_next_id(found: Seq<Found>, image: Image)
    requires
        loaded(found, image) is Ok,
    ensures
        0 <= (loaded(found, image)->Ok_0).next_id <= u64::MAX,
    decreases found.len(),
{
    if found.len() > 0 {
        lemma_next_id(found.drop_last(), image);
    }
}

/// New tables get ids that no table file has, as long as there are any.
pub proof fn law_ids_go_on_behind_those_in_use(names: Seq<Seq<char>>, image: Image, i: int)
    requires
        opening(names, image) is Done,
        0 <= i < discovered(names, cleaned(image)).len(),
    ensures
        opening(names, image)->tree.next_id > discovered(names, cleaned(image))[i].id || opening(names, image)->tree.next_id
            == u64::MAX,
{
    lemma_ids_in_use(discovered(names, cleaned(image)), cleaned(image), i);
}

}
