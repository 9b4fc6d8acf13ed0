//! Opening a database.
use crate::db::{files_wf, level_states, table_state, Counters, DbOptions, MemtableEntry, PebbleDB};
use crate::disk::{applied, applied_all, copy_bytes, lemma_applied_concat, ops_of, Directory, DiskOp, FileOp, Image};
use crate::engine::TreeState;
use crate::error::{PebbleError, Result};
use crate::fault::FaultInjector;
use crate::keymap::KeyMap;
use crate::levels::{level_at, TableState};
use crate::metrics::Metrics;
use crate::names::{
    is_tmp_file_name, law_names_are_apart, parse_pending_merge, parse_sstable_file_name, parse_table_name,
    pending_file_name, pending_name, wal_file_name, wal_name, PendingMerge,
};
use crate::recovery::{
    cleaned, discovered, has_table_file, input_removals, insert_found, is_table_file, lemma_cleaned, lemma_tmp_removals,
    loaded, log_in, log_ops, marker_is_text, merge_removals, opened, opening, opening_ops, outputs_present, pending_in,
    replayed, tmp_removals, with_table, Found, Opening, Pending,
};
use crate::rows::Row;
use crate::sstable::SSTable;
use crate::text::string_from_utf8;
use crate::wal::{record_rows, scan_log, LogEnd, WalReader, WalRecord, WalWriter};
use std::sync::Arc;
use vstd::prelude::*;

verus! {

spec fn names_of(names: Seq<String>) -> Seq<Seq<char>> {
    Seq::new(names.len(), |i: int| names[i]@)
}

/// A table file in a directory.
struct FoundFile {
    id: u64,
    level: u32,
    name: String,
}

impl FoundFile {
    spec fn found(&self) -> Found {
        Found { id: self.id, level: self.level, name: self.name@ }
    }
}

spec fn found_of(files: Seq<FoundFile>) -> Seq<Found> {
    Seq::new(files.len(), |i: int| files[i].found())
}

/// The names in a directory.
fn names_in(dir: &Directory) -> (names: Vec<String>)
    ensures
        names_of(names@) == dir.listing(),
{
    let mut names: Vec<String> = Vec::new();
    let mut i: usize = 0;
    while i < dir.len()
        invariant
            i <= dir.listing().len(),
            names@.len() == i,
            forall|j: int| 0 <= j < i ==> (#[trigger] names@[j])@ == dir.listing()[j],
        decreases dir.listing().len() - i,
    {
        names.push(dir.name(i).to_string());
        i = i + 1;
    }
    proof {
        assert(names_of(names@) =~= dir.listing());
    }
    names
}

proof fn lemma_done(image: Image, done: Seq<FileOp>, ops: Seq<FileOp>, op: FileOp)
    ensures
        (done + ops).push(op) == done + ops.push(op),
        applied_all(image, ops.push(op)) == applied(applied_all(image, ops), op),
{
    assert((done + ops).push(op) =~= done + ops.push(op));
    assert(ops.push(op).drop_last() =~= ops);
}

/// Removes the files that were never renamed.
fn remove_tmp_files(dir: &mut Directory, names: &Vec<String>)
    requires
        old(dir).wf(),
    ensures
        final(dir).wf(),
        final(dir).image() == applied_all(old(dir).image(), tmp_removals(names_of(names@))),
        final(dir).done() == old(dir).done() + tmp_removals(names_of(names@)),
{
    let ghost all = names_of(names@);
    let ghost image = dir.image();
    let ghost done = dir.done();
    let mut i: usize = 0;
    proof {
        assert(all.take(0) =~= Seq::<Seq<char>>::empty());
        assert(done + Seq::<FileOp>::empty() =~= done);
    }
    while i < names.len()
        invariant
            i <= names@.len(),
            all == names_of(names@),
            image == old(dir).image(),
            done == old(dir).done(),
            dir.wf(),
            dir.image() == applied_all(image, tmp_removals(all.take(i as int))),
            dir.done() == done + tmp_removals(all.take(i as int)),
        decreases names@.len() - i,
    {
        proof {
            assert(all.take(i + 1).drop_last() =~= all.take(i as int));
            lemma_done(image, done, tmp_removals(all.take(i as int)), FileOp::Remove { name: all[i as int] });
        }
        if is_tmp_file_name(&names[i]) {
            dir.perform(DiskOp::Remove { name: names[i].clone() });
        }
        i = i + 1;
    }
    proof {
        assert(all.take(i as int) =~= all);
    }
}

/// The merge that is recorded as pending.
fn read_pending_merge(dir: &Directory) -> (result: Result<Option<PendingMerge>>)
    requires
        dir.wf(),
    ensures
        if marker_is_text(dir.image()) {
            match pending_in(dir.image()) {
                Some(pending) => result matches Ok(Some(own)) && own.outputs@ == pending.outputs && own.inputs@
                    == pending.inputs,
                None => result matches Ok(None),
            }
        } else {
            result matches Err(PebbleError::Io(text)) && text@ == "stream did not contain valid UTF-8"@
        },
{
    let marker = pending_file_name();
    match dir.read(&marker) {
        None => Ok(None),
        Some(data) => match string_from_utf8(copy_bytes(data)) {
            Some(text) => Ok(Some(parse_pending_merge(&text))),
            None => Err(PebbleError::Io("stream did not contain valid UTF-8".to_string())),
        },
    }
}

/// Whether there is a table file with an id.
fn has_file(names: &Vec<String>, id: u64, Ghost(image): Ghost<Image>) -> (found: bool)
    requires
        all_listed(names_of(names@), image),
    ensures
        found == has_table_file(image, id),
{
    let ghost all = names_of(names@);
    let mut i: usize = 0;
    while i < names.len()
        invariant
            i <= names@.len(),
            all == names_of(names@),
            all_listed(all, image),
            forall|j: int| 0 <= j < i ==> !is_table_file(#[trigger] all[j], id),
        decreases names@.len() - i,
    {
        if let Some((own, _)) = parse_sstable_file_name(&names[i]) {
            if own == id {
                proof {
                    assert(is_table_file(all[i as int], id));
                    assert(image.dom().contains(all[i as int]));
                }
                return true;
            }
        }
        i = i + 1;
    }
    proof {
        assert forall|name: Seq<char>| #[trigger] image.dom().contains(name) implies !is_table_file(name, id) by {
            let j = choose|j: int| 0 <= j < all.len() && all[j] == name;
            assert(!is_table_file(all[j], id));
        }
    }
    false
}

/// Every file is among the names, and so is no table file that is not there.
spec fn all_listed(names: Seq<Seq<char>>, image: Image) -> bool {
    &&& forall|name: Seq<char>| #[trigger] image.dom().contains(name) ==> names.contains(name)
    &&& forall|i: int|
        0 <= i < names.len() && parse_table_name(#[trigger] names[i]) is Some ==> image.dom().contains(names[i])
}

/// Finishes a merge that was recorded as pending: where its outputs are there, its inputs go.
fn finish_pending_merge(dir: &mut Directory, names: &Vec<String>) -> (result: Result<()>)
    requires
        old(dir).wf(),
        all_listed(names_of(names@), old(dir).image()),
    ensures
        final(dir).wf(),
        if marker_is_text(old(dir).image()) {
            &&& result is Ok
            &&& final(dir).image() == applied_all(
                old(dir).image(),
                merge_removals(names_of(names@), old(dir).image()),
            )
            &&& final(dir).done() == old(dir).done() + merge_removals(names_of(names@), old(dir).image())
        } else {
            &&& result matches Err(PebbleError::Io(text)) && text@ == "stream did not contain valid UTF-8"@
            &&& final(dir).image() == old(dir).image()
            &&& final(dir).done() == old(dir).done()
        },
{
    let ghost all = names_of(names@);
    let ghost image = dir.image();
    let ghost done = dir.done();
    proof {
        assert(done + Seq::<FileOp>::empty() =~= done);
    }
    let own = match read_pending_merge(dir) {
        Ok(Some(own)) => own,
        Ok(None) => {
            return Ok(());
        },
        Err(error) => {
            return Err(error);
        },
    };
    let ghost pending = Pending { outputs: own.outputs@, inputs: own.inputs@ };
    let mut present = true;
    let mut i: usize = 0;
    while i < own.outputs.len()
        invariant
            i <= own.outputs@.len(),
            pending.outputs == own.outputs@,
            all_listed(names_of(names@), image),
            present == (forall|j: int| 0 <= j < i ==> has_table_file(image, #[trigger] pending.outputs[j])),
        decreases own.outputs@.len() - i,
    {
        if !has_file(names, own.outputs[i], Ghost(image)) {
            present = false;
            proof {
                assert(!has_table_file(image, pending.outputs[i as int]));
            }
        }
        i = i + 1;
    }
    let ghost mut ops: Seq<FileOp> = Seq::empty();
    if present {
        let mut j: usize = 0;
        proof {
            assert(all.take(0) =~= Seq::<Seq<char>>::empty());
        }
        while j < names.len()
            invariant
                j <= names@.len(),
                all == names_of(names@),
                image == old(dir).image(),
                done == old(dir).done(),
                pending.inputs == own.inputs@,
                dir.wf(),
                dir.image() == applied_all(image, input_removals(all.take(j as int), pending)),
                dir.done() == done + input_removals(all.take(j as int), pending),
            decreases names@.len() - j,
        {
            proof {
                assert(all.take(j + 1).drop_last() =~= all.take(j as int));
                lemma_done(
                    image,
                    done,
                    input_removals(all.take(j as int), pending),
                    FileOp::Remove { name: all[j as int] },
                );
            }
            if let Some((id, _)) = parse_sstable_file_name(&names[j]) {
                if crate::db::contains_id(&own.inputs, id) {
                    dir.perform(DiskOp::Remove { name: names[j].clone() });
                }
            }
            j = j + 1;
        }
        proof {
            assert(all.take(j as int) =~= all);
            ops = input_removals(all, pending);
        }
    }
    proof {
        lemma_done(image, done, ops, FileOp::Remove { name: pending_name() });
    }
    dir.perform(DiskOp::Remove { name: pending_file_name() });
    Ok(())
}

proof fn lemma_insert_found(found: Seq<Found>, file: Found, at: int)
    requires
        0 <= at <= found.len(),
        forall|j: int| at <= j < found.len() ==> (#[trigger] found[j]).id > file.id,
        at == 0 || found[at - 1].id <= file.id,
    ensures
        insert_found(found, file) == found.insert(at, file),
    decreases found.len(),
{
    if found.len() == 0 {
        assert(found.insert(at, file) =~= seq![file]);
    } else if at == found.len() {
        assert(found.insert(at, file) =~= found.push(file));
    } else {
        assert(found[found.len() - 1].id > file.id);
        let before = found.drop_last();
        assert forall|j: int| at <= j < before.len() implies (#[trigger] before[j]).id > file.id by {
            assert(before[j] == found[j]);
        }
        lemma_insert_found(before, file, at);
        assert(before.insert(at, file).push(found.last()) =~= found.insert(at, file));
    }
}

/// The table files in a directory, ordered by id.
fn discover_sstables(dir: &Directory, names: &Vec<String>) -> (files: Vec<FoundFile>)
    requires
        dir.wf(),
    ensures
        found_of(files@) == discovered(names_of(names@), dir.image()),
{
    let ghost all = names_of(names@);
    let mut files: Vec<FoundFile> = Vec::new();
    let mut i: usize = 0;
    proof {
        assert(all.take(0) =~= Seq::<Seq<char>>::empty());
        assert(found_of(files@) =~= Seq::<Found>::empty());
    }
    while i < names.len()
        invariant
            i <= names@.len(),
            dir.wf(),
            all == names_of(names@),
            found_of(files@) == discovered(all.take(i as int), dir.image()),
        decreases names@.len() - i,
    {
        proof {
            assert(all.take(i + 1).drop_last() =~= all.take(i as int));
        }
        if let Some((id, level)) = parse_sstable_file_name(&names[i]) {
            if dir.read(&names[i]).is_some() {
                let ghost file = Found { id, level, name: all[i as int] };
                let ghost before = files@;
                let mut at: usize = files.len();
                while at > 0 && files[at - 1].id > id
                    invariant
                        at <= files@.len(),
                        files@ == before,
                        file.id == id,
                        forall|j: int| at <= j < files@.len() ==> (#[trigger] found_of(files@)[j]).id > file.id,
                    decreases at,
                {
                    at = at - 1;
                }
                files.insert(at, FoundFile { id, level, name: names[i].clone() });
                proof {
                    lemma_insert_found(found_of(before), file, at as int);
                    assert(found_of(files@) =~= found_of(before).insert(at as int, file));
                }
            }
        }
        i = i + 1;
    }
    proof {
        assert(all.take(i as int) =~= all);
    }
    files
}

spec fn all_levels_wf(levels: Seq<Vec<Arc<SSTable>>>) -> bool {
    forall|l: int| 0 <= l < levels.len() ==> files_wf((#[trigger] levels[l])@)
}

/// Adds a table at the end of a level.
fn add_table(levels: &mut Vec<Vec<Arc<SSTable>>>, level: u32, table: Arc<SSTable>)
    requires
        all_levels_wf(old(levels)@),
        table.wf(),
        old(levels)@.len() <= 4294967296,
    ensures
        all_levels_wf(final(levels)@),
        level_states(final(levels)@) == with_table(level_states(old(levels)@), level as int, table_state(*table)),
        1 <= final(levels)@.len() <= 4294967296,
{
    let ghost before = level_states(levels@);
    while levels.len() <= level as usize
        invariant
            before == level_states(old(levels)@),
            all_levels_wf(levels@),
            levels@.len() == old(levels)@.len() || levels@.len() <= level + 1,
            levels@.len() >= old(levels)@.len(),
            forall|l: int| 0 <= l < levels@.len() ==> #[trigger] level_states(levels@)[l] == level_at(before, l),
        decreases level + 1 - levels@.len(),
    {
        let ghost earlier = levels@;
        levels.push(Vec::new());
        proof {
            assert forall|l: int| 0 <= l < levels@.len() implies #[trigger] level_states(levels@)[l] == level_at(
                before,
                l,
            ) by {
                if l < earlier.len() {
                    assert(level_states(earlier)[l] == level_at(before, l));
                } else {
                    assert(level_states(levels@)[l] =~= Seq::<TableState>::empty());
                }
            }
            assert forall|l: int| 0 <= l < levels@.len() implies files_wf((#[trigger] levels@[l])@) by {
                if l < earlier.len() {
                    assert(levels@[l] == earlier[l]);
                }
            }
        }
    }
    let ghost grown = levels@;
    levels[level as usize].push(table);
    proof {
        let after = levels@;
        assert forall|l: int| 0 <= l < after.len() implies files_wf((#[trigger] after[l])@) by {
            assert(files_wf(grown[l]@));
            if l == level {
                assert forall|i: int| 0 <= i < after[l]@.len() implies (#[trigger] after[l]@[i]).wf() by {
                    if i < grown[l]@.len() {
                        assert(after[l]@[i] == grown[l]@[i]);
                    }
                }
            }
        }
        assert forall|l: int| 0 <= l < after.len() implies #[trigger] level_states(after)[l] == with_table(
            before,
            level as int,
            table_state(*table),
        )[l] by {
            assert(level_states(grown)[l] == level_at(before, l));
            if l == level {
                assert(level_states(after)[l] =~= level_states(grown)[l].push(table_state(*table)));
            }
        }
        assert(level_states(after) =~= with_table(before, level as int, table_state(*table)));
    }
}

/// The tables of the files, level by level, and the id that the next one will get.
fn load_tables(dir: &Directory, files: &Vec<FoundFile>) -> (result: Result<(Vec<Vec<Arc<SSTable>>>, u64)>)
    requires
        dir.wf(),
        forall|i: int| 0 <= i < files@.len() ==> dir.image().dom().contains((#[trigger] files@[i]).name@),
    ensures
        match loaded(found_of(files@), dir.image()) {
            Ok(tree) => result matches Ok((levels, next_sst_id)) && level_states(levels@) == tree.levels && next_sst_id
                == tree.next_id && all_levels_wf(levels@) && 1 <= levels@.len() <= 4294967296,
            Err(problem) => result matches Err(PebbleError::SSTableCorruption(text)) && text@ == problem,
        },
{
    let ghost found = found_of(files@);
    let ghost image = dir.image();
    let mut levels: Vec<Vec<Arc<SSTable>>> = Vec::new();
    levels.push(Vec::new());
    let mut next_sst_id: u64 = 0;
    let mut i: usize = 0;
    proof {
        assert(found.take(0) =~= Seq::<Found>::empty());
        assert(level_states(levels@)[0] =~= Seq::<TableState>::empty());
        assert(level_states(levels@) =~= seq![Seq::<TableState>::empty()]);
    }
    while i < files.len()
        invariant
            i <= files@.len(),
            dir.wf(),
            image == dir.image(),
            found == found_of(files@),
            forall|i: int| 0 <= i < files@.len() ==> image.dom().contains((#[trigger] files@[i]).name@),
            loaded(found.take(i as int), image) == core::result::Result::<TreeState, Seq<char>>::Ok(
                TreeState { levels: level_states(levels@), next_id: next_sst_id as int },
            ),
            all_levels_wf(levels@),
            1 <= levels@.len() <= 4294967296,
        decreases files@.len() - i,
    {
        let file = &files[i];
        proof {
            assert(found.take(i + 1).drop_last() =~= found.take(i as int));
            assert(image.dom().contains(files@[i as int].name@));
        }
        let data = match dir.read(&file.name) {
            Some(data) => copy_bytes(data),
            None => Vec::new(),
        };
        match SSTable::load(file.id, file.name.clone(), data) {
            Ok(table) => {
                add_table(&mut levels, file.level, Arc::new(table));
                let larger: u64 = if file.id > next_sst_id {
                    file.id
                } else {
                    next_sst_id
                };
                next_sst_id = larger.saturating_add(1);
            },
            Err(error) => {
                proof {
                    lemma_loaded_stops(found, image, i + 1);
                }
                return Err(error);
            },
        }
        i = i + 1;
    }
    proof {
        assert(found.take(i as int) =~= found);
    }
    Ok((levels, next_sst_id))
}

/// The first problem is the one that is told.
proof fn lemma_loaded_stops(found: Seq<Found>, image: Image, i: int)
    requires
        0 <= i <= found.len(),
        loaded(found.take(i), image) is Err,
    ensures
        loaded(found, image) == loaded(found.take(i), image),
    decreases found.len() - i,
{
    if i == found.len() {
        assert(found.take(i) =~= found);
    } else {
        assert(found.take(i + 1).drop_last() =~= found.take(i));
        lemma_loaded_stops(found, image, i + 1);
    }
}

/// Writes the rows of a log to a memtable.
fn replay(records: Vec<WalRecord>) -> (memtable: KeyMap<MemtableEntry>)
    ensures
        memtable.wf(),
        memtable.rows() == replayed(record_rows(records@)),
{
    let ghost rows = record_rows(records@);
    let mut memtable: KeyMap<MemtableEntry> = KeyMap::new();
    let mut i: usize = 0;
    proof {
        assert(rows.take(0) =~= Seq::<Row>::empty());
    }
    while i < records.len()
        invariant
            i <= records@.len(),
            rows == record_rows(records@),
            memtable.wf(),
            memtable.rows() == replayed(rows.take(i as int)),
        decreases records@.len() - i,
    {
        proof {
            assert(rows.take(i + 1).drop_last() =~= rows.take(i as int));
        }
        match &records[i] {
            WalRecord::Put { key, value } => {
                memtable.insert(key.clone(), MemtableEntry::Value(value.clone()));
            },
            WalRecord::Delete { key } => {
                memtable.insert(key.clone(), MemtableEntry::Tombstone);
            },
        }
        i = i + 1;
    }
    proof {
        assert(rows.take(i as int) =~= rows);
    }
    memtable
}

/// Reads the log into a memtable and cuts off what an interrupted write left behind. Hands back
/// the bytes of the log, too.
fn recover_log(dir: &mut Directory) -> (result: Result<(KeyMap<MemtableEntry>, u64)>)
    requires
        old(dir).wf(),
    ensures
        final(dir).wf(),
        ({
            let image = old(dir).image();
            let scan = scan_log(log_in(image));
            match scan.end {
                LogEnd::Corrupt(problem) => {
                    &&& result matches Err(PebbleError::WalCorruption(text)) && text@ == problem
                    &&& final(dir).image() == image
                    &&& final(dir).done() == old(dir).done()
                },
                _ => {
                    &&& result matches Ok((memtable, size)) && memtable.wf() && memtable.rows() == replayed(scan.rows)
                        && size == scan.valid_len
                    &&& final(dir).image() == applied_all(image, log_ops(image))
                    &&& final(dir).done() == old(dir).done() + log_ops(image)
                },
            }
        }),
{
    let ghost image = dir.image();
    let ghost done = dir.done();
    let name = wal_file_name();
    let data: Vec<u8> = match dir.read(&name) {
        Some(data) => copy_bytes(data),
        None => {
            proof {
                let op = FileOp::Append { name: wal_name(), data: Seq::<u8>::empty() };
                lemma_done(image, done, Seq::empty(), op);
                assert(seq![op] =~= Seq::<FileOp>::empty().push(op));
                assert(done + Seq::<FileOp>::empty() =~= done);
            }
            let empty: Vec<u8> = Vec::new();
            proof {
                assert(empty@ =~= Seq::<u8>::empty());
            }
            dir.perform(DiskOp::Append { name, data: empty });
            let memtable: KeyMap<MemtableEntry> = KeyMap::new();
            return Ok((memtable, 0));
        },
    };
    let len: u64 = data.len() as u64;
    let reader = WalReader::open(data);
    let recovery = match reader.recover() {
        Ok(recovery) => recovery,
        Err(error) => {
            return Err(error);
        },
    };
    let size: u64 = recovery.valid_len;
    let memtable = replay(recovery.records);
    if size < len {
        proof {
            let cut = FileOp::Truncate { name: wal_name(), len: size as int };
            let sync = FileOp::Sync { name: wal_name() };
            lemma_done(image, done, Seq::empty(), cut);
            lemma_done(image, done, seq![cut], sync);
            assert(Seq::<FileOp>::empty().push(cut) =~= seq![cut]);
            assert(seq![cut].push(sync) =~= seq![cut, sync]);
            assert(done + Seq::<FileOp>::empty() =~= done);
        }
        dir.perform(DiskOp::Truncate { name: name.clone(), len: size });
        dir.perform(DiskOp::Sync { name });
    } else {
        proof {
            assert(done + Seq::<FileOp>::empty() =~= done);
        }
    }
    Ok((memtable, size))
}

/// The state of the directory when the temporary files are gone.
proof fn lemma_without_tmp(names: Seq<Seq<char>>, image: Image, middle: Image)
    requires
        forall|name: Seq<char>| #[trigger] image.dom().contains(name) <==> names.contains(name),
        middle == applied_all(image, tmp_removals(names)),
    ensures
        all_listed(names, middle),
        pending_in(middle) == pending_in(image),
        marker_is_text(middle) == marker_is_text(image),
        merge_removals(names, middle) == merge_removals(names, image),
{
    lemma_tmp_removals(names, image);
    law_names_are_apart(pending_name());
    assert(image.dom().contains(pending_name()) <==> middle.dom().contains(pending_name()));
    if image.dom().contains(pending_name()) {
        assert(middle[pending_name()] == image[pending_name()]);
    }
    assert forall|id: u64| has_table_file(middle, id) == #[trigger] has_table_file(image, id) by {
        if has_table_file(image, id) {
            let name = choose|name: Seq<char>| #[trigger] image.dom().contains(name) && is_table_file(name, id);
            law_names_are_apart(name);
            assert(middle.dom().contains(name));
        }
        if has_table_file(middle, id) {
            let name = choose|name: Seq<char>| #[trigger] middle.dom().contains(name) && is_table_file(name, id);
            assert(image.dom().contains(name));
        }
    }
    assert forall|i: int| 0 <= i < names.len() && parse_table_name(#[trigger] names[i]) is Some implies middle.dom().contains(
        names[i],
    ) by {
        law_names_are_apart(names[i]);
        assert(names.contains(names[i]));
        assert(image.dom().contains(names[i]));
    }
    if let Some(pending) = pending_in(image) {
        assert(outputs_present(middle, pending) == outputs_present(image, pending)) by {
            if outputs_present(image, pending) {
                assert forall|i: int| 0 <= i < pending.outputs.len() implies has_table_file(
                    middle,
                    #[trigger] pending.outputs[i],
                ) by {
                    assert(has_table_file(image, pending.outputs[i]));
                }
            }
            if outputs_present(middle, pending) {
                assert forall|i: int| 0 <= i < pending.outputs.len() implies has_table_file(
                    image,
                    #[trigger] pending.outputs[i],
                ) by {
                    assert(has_table_file(middle, pending.outputs[i]));
                }
            }
        }
    }
}

/// Cleaning up does not touch the log.
proof fn lemma_log_stays(image: Image)
    ensures
        log_in(cleaned(image)) == log_in(image),
        log_ops(cleaned(image)) == log_ops(image),
{
    law_names_are_apart(wal_name());
}

proof fn lemma_discovered_there(names: Seq<Seq<char>>, image: Image)
    ensures
        forall|i: int|
            0 <= i < discovered(names, image).len() ==> image.dom().contains((#[trigger] discovered(names, image)[i]).name),
    decreases names.len(),
{
    if names.len() > 0 {
        lemma_discovered_there(names.drop_last(), image);
        let before = discovered(names.drop_last(), image);
        if let Some((id, level)) = parse_table_name(names.last()) {
            if image.dom().contains(names.last()) {
                lemma_insert_found_members(before, Found { id, level, name: names.last() }, image);
            }
        }
    }
}

proof fn lemma_insert_found_members(found: Seq<Found>, file: Found, image: Image)
    requires
        image.dom().contains(file.name),
        forall|i: int| 0 <= i < found.len() ==> image.dom().contains((#[trigger] found[i]).name),
    ensures
        forall|i: int|
            0 <= i < insert_found(found, file).len() ==> image.dom().contains((#[trigger] insert_found(found, file)[i]).name),
    decreases found.len(),
{
    if found.len() > 0 && found.last().id > file.id {
        let before = found.drop_last();
        assert forall|i: int| 0 <= i < before.len() implies image.dom().contains((#[trigger] before[i]).name) by {
            assert(before[i] == found[i]);
        }
        lemma_insert_found_members(before, file, image);
        assert(image.dom().contains(found[found.len() - 1].name));
    }
    let all = insert_found(found, file);
    assert forall|i: int| 0 <= i < all.len() implies image.dom().contains((#[trigger] all[i]).name) by {
        if found.len() > 0 && found.last().id > file.id {
            let before = insert_found(found.drop_last(), file);
            if i < before.len() {
                assert(all[i] == before[i]);
            }
        } else if found.len() > 0 && i < found.len() {
            assert(all[i] == found[i]);
        }
    }
}

impl PebbleDB {
    /// Opens the database in a directory.
    pub fn open_with_options(dir: &mut Directory, options: DbOptions) -> (result: Result<PebbleDB>)
        requires
            old(dir).wf(),
        ensures
            final(dir).wf(),
            final(dir).done() == old(dir).done() + opening_ops(old(dir).listing(), old(dir).image()),
            final(dir).image() == applied_all(
                old(dir).image(),
                opening_ops(old(dir).listing(), old(dir).image()),
            ),
            match opening(old(dir).listing(), old(dir).image()) {
                Opening::BadMarker => result matches Err(PebbleError::Io(text)) && text@
                    == "stream did not contain valid UTF-8"@,
                Opening::BadTable(problem) => result matches Err(PebbleError::SSTableCorruption(text)) && text@ == problem,
                Opening::BadLog(problem) => result matches Err(PebbleError::WalCorruption(text)) && text@ == problem,
                Opening::Done { tree, memtable } => result matches Ok(db) && db.wf() && db.model() == opened(
                    tree,
                    memtable,
                    old(dir).image(),
                    options,
                ),
            },
    {
        let names = names_in(dir);
        let ghost all = dir.listing();
        let ghost image = dir.image();
        let ghost done = dir.done();
        let ghost tmp = tmp_removals(all);
        let ghost merge = merge_removals(all, image);
        proof {
            dir.lemma_listing();
            assert forall|name: Seq<char>| #[trigger] image.dom().contains(name) <==> all.contains(name) by {}
        }
        remove_tmp_files(dir, &names);
        let ghost middle = dir.image();
        proof {
            lemma_without_tmp(all, image, middle);
            lemma_cleaned(all, image);
            lemma_applied_concat(image, tmp, merge);
            assert(done + tmp + merge =~= done + (tmp + merge));
        }
        match finish_pending_merge(dir, &names) {
            Ok(()) => {},
            Err(error) => {
                return Err(error);
            },
        }
        proof {
            assert(dir.image() == cleaned(image));
            lemma_log_stays(image);
            lemma_discovered_there(all, cleaned(image));
            lemma_applied_concat(image, tmp + merge, log_ops(image));
            assert(done + (tmp + merge) + log_ops(image) =~= done + (tmp + merge + log_ops(image)));
        }
        let files = discover_sstables(dir, &names);
        proof {
            assert forall|i: int| 0 <= i < files@.len() implies dir.image().dom().contains((#[trigger] files@[i]).name@) by {
                assert(found_of(files@)[i].name == files@[i].name@);
            }
        }
        let (levels, next_sst_id) = match load_tables(dir, &files) {
            Ok(tables) => tables,
            Err(error) => {
                return Err(error);
            },
        };
        let (memtable, wal_size) = match recover_log(dir) {
            Ok(log) => log,
            Err(error) => {
                return Err(error);
            },
        };
        let db = PebbleDB {
            memtable,
            wal: WalWriter::open(wal_file_name(), wal_size),
            levels,
            next_sst_id,
            options,
            counters: Counters { memtable_hits: 0, bloom_rejects: 0, block_reads: 0 },
            metrics: Metrics::new(),
            fault: FaultInjector::new(options.fault),
            journal: Vec::new(),
        };
        proof {
            assert forall|l: int, i: int| 0 <= l < db.levels@.len() && 0 <= i < db.levels@[l]@.len() implies (
            #[trigger] db.levels@[l]@[i]).wf() by {
                assert(files_wf(db.levels@[l]@));
            }
            assert(ops_of(db.journal@) =~= Seq::<FileOp>::empty());
        }
        Ok(db)
    }

    /// Opens the database in a directory with the default options.
    pub fn open(dir: &mut Directory) -> (result: Result<PebbleDB>)
        requires
            old(dir).wf(),
        ensures
            final(dir).wf(),
            final(dir).done() == old(dir).done() + opening_ops(old(dir).listing(), old(dir).image()),
            final(dir).image() == applied_all(
                old(dir).image(),
                opening_ops(old(dir).listing(), old(dir).image()),
            ),
            match opening(old(dir).listing(), old(dir).image()) {
                Opening::BadMarker => result matches Err(PebbleError::Io(text)) && text@
                    == "stream did not contain valid UTF-8"@,
                Opening::BadTable(problem) => result matches Err(PebbleError::SSTableCorruption(text)) && text@ == problem,
                Opening::BadLog(problem) => result matches Err(PebbleError::WalCorruption(text)) && text@ == problem,
                Opening::Done { tree, memtable } => result matches Ok(db) && db.wf() && db.model() == opened(
                    tree,
                    memtable,
                    old(dir).image(),
                    crate::db::default_options(),
                ),
            },
    {
        Self::open_with_options(dir, DbOptions::default())
    }

    /// Opens the database in a directory; the memtable is written to a table at `flush_threshold`
    /// entries.
    pub fn open_with_threshold(dir: &mut Directory, flush_threshold: usize) -> (result: Result<PebbleDB>)
        requires
            old(dir).wf(),
        ensures
            final(dir).wf(),
            final(dir).done() == old(dir).done() + opening_ops(old(dir).listing(), old(dir).image()),
            final(dir).image() == applied_all(
                old(dir).image(),
                opening_ops(old(dir).listing(), old(dir).image()),
            ),
            match opening(old(dir).listing(), old(dir).image()) {
                Opening::BadMarker => result matches Err(PebbleError::Io(text)) && text@
                    == "stream did not contain valid UTF-8"@,
                Opening::BadTable(problem) => result matches Err(PebbleError::SSTableCorruption(text)) && text@ == problem,
                Opening::BadLog(problem) => result matches Err(PebbleError::WalCorruption(text)) && text@ == problem,
                Opening::Done { tree, memtable } => result matches Ok(db) && db.wf() && db.model() == opened(
                    tree,
                    memtable,
                    old(dir).image(),
                    (DbOptions { flush_threshold, ..crate::db::default_options() }),
                ),
            },
    {
        let defaults = DbOptions::default();
        Self::open_with_options(dir, DbOptions { flush_threshold, ..defaults })
    }
}

}
