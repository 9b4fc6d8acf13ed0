//! Ordered cursors over one source, over several merged ones, and over a range of keys.
use crate::db::MemtableEntry;
use crate::keymap::{lower_bound_of, rows_of, KeyMap, Record};
use crate::keys::{group_key_order, key_le, key_lt, str_eq, str_le, str_lt};
use crate::rows::{
    aligned_pos, all_sorted, has_key, is_lower_bound, law_merge_newest_wins, lemma_aligned_first, lemma_aligned_seek,
    lemma_aligned_step, lemma_live_push, lemma_lower_bound, lemma_lower_bound_unique, lemma_rows_get_at,
    lemma_sources_first, lemma_sources_some, lemma_visible, lemma_visible_lower_bound, lemma_visible_prefix,
    lemma_visible_step, live_rows, lower_bound, merge_rows, sorted, visible, Row,
};
use crate::sstable::{SSTable, SSTableEntry};
use crate::table::{block_start, concat_rows, lemma_block_rows, lemma_row_in_block};
use std::sync::Arc;
use vstd::prelude::*;

verus! {

/// Ordered cursor over a single key-space source served in ascending key order.
///
/// A tombstone is reported as a valid key with no value; use [`StorageIterator::valid`]
/// to distinguish an exhausted iterator from a deleted entry.
pub trait StorageIterator: Sized {
    spec fn wf(&self) -> bool;

    /// All rows of the source, sorted by key.
    spec fn rows(&self) -> Seq<Row>;

    /// The index of the row under the cursor; the number of rows when there is none.
    spec fn pos(&self) -> int;

    /// Whether a cursor on no row is there because nothing follows.
    spec fn settled(&self) -> bool;

    proof fn lemma_wf(&self)
        requires
            self.wf(),
        ensures
            sorted(self.rows()),
            0 <= self.pos() <= self.rows().len(),
    ;

    /// Moves to the first row.
    fn seek_to_first(&mut self)
        requires
            old(self).wf(),
        ensures
            final(self).wf(),
            final(self).settled(),
            final(self).rows() == old(self).rows(),
            final(self).pos() == 0,
    ;

    /// Moves to the first row whose key is at least `target`.
    fn seek(&mut self, target: &str)
        requires
            old(self).wf(),
        ensures
            final(self).wf(),
            final(self).settled(),
            final(self).rows() == old(self).rows(),
            final(self).pos() == lower_bound(old(self).rows(), target@),
    ;

    /// Moves to the next row.
    fn advance(&mut self)
        requires
            old(self).wf(),
        ensures
            final(self).wf(),
            final(self).rows() == old(self).rows(),
            old(self).settled() ==> final(self).settled(),
            old(self).settled() ==> final(self).pos() == (if old(self).pos() < old(self).rows().len() {
                old(self).pos() + 1
            } else {
                old(self).pos()
            }),
    ;

    /// Whether the cursor is on a row.
    fn valid(&self) -> (valid: bool)
        requires
            self.wf(),
        ensures
            valid == (self.pos() < self.rows().len()),
    ;

    /// The key under the cursor.
    fn key(&self) -> (key: Option<&str>)
        requires
            self.wf(),
        ensures
            match key {
                Some(key) => self.pos() < self.rows().len() && key@ == self.rows()[self.pos()].0,
                None => self.pos() == self.rows().len(),
            },
    ;

    /// The value under the cursor; a tombstone has none.
    fn value(&self) -> (value: Option<&str>)
        requires
            self.wf(),
        ensures
            match value {
                Some(value) => self.pos() < self.rows().len() && self.rows()[self.pos()].1 == Some(value@),
                None => self.pos() == self.rows().len() || self.rows()[self.pos()].1 is None,
            },
    ;
}

impl Record for Option<String> {
    open spec fn stored(&self) -> Option<Seq<char>> {
        match self {
            Some(value) => Some(value@),
            None => None,
        }
    }
}

/// A cursor over a copy of a memtable. It starts on no row.
pub struct MemtableIterator {
    entries: Vec<(String, Option<String>)>,
    pos: Option<usize>,
}

impl MemtableIterator {
    pub fn new(memtable: &KeyMap<MemtableEntry>) -> (iter: Self)
        requires
            memtable.wf(),
        ensures
            iter.wf(),
            iter.rows() == memtable.rows(),
            iter.pos() == iter.rows().len(),
            iter.settled(),
    {
        let mut entries: Vec<(String, Option<String>)> = Vec::new();
        let mut i: usize = 0;
        while i < memtable.len()
            invariant
                i <= memtable.rows().len(),
                rows_of(entries@) =~= memtable.rows().take(i as int),
            decreases memtable.rows().len() - i,
        {
            let entry = memtable.entry(i);
            let value = match &entry.1 {
                MemtableEntry::Value(value) => Some(value.clone()),
                MemtableEntry::Tombstone => None,
            };
            let ghost before = entries@;
            let key = entry.0.clone();
            entries.push((key, value));
            proof {
                assert(rows_of(entries@) =~= rows_of(before).push(memtable.rows()[i as int]));
            }
            i = i + 1;
        }
        proof {
            assert(memtable.rows().take(i as int) =~= memtable.rows());
        }
        MemtableIterator { entries, pos: None }
    }
}

impl StorageIterator for MemtableIterator {
    closed spec fn wf(&self) -> bool {
        &&& sorted(rows_of(self.entries@))
        &&& self.pos matches Some(pos) ==> pos < self.entries@.len()
    }

    closed spec fn rows(&self) -> Seq<Row> {
        rows_of(self.entries@)
    }

    closed spec fn pos(&self) -> int {
        match self.pos {
            Some(pos) => pos as int,
            None => self.entries@.len() as int,
        }
    }

    open spec fn settled(&self) -> bool {
        true
    }

    proof fn lemma_wf(&self) {
    }

    fn seek_to_first(&mut self) {
        self.pos = if self.entries.len() > 0 {
            Some(0)
        } else {
            None
        };
    }

    fn seek(&mut self, target: &str) {
        let at = lower_bound_of(&self.entries, target);
        self.pos = if at < self.entries.len() {
            Some(at)
        } else {
            None
        };
    }

    fn advance(&mut self) {
        self.pos = match self.pos {
            Some(pos) => if pos < self.entries.len() - 1 {
                Some(pos + 1)
            } else {
                None
            },
            None => None,
        };
    }

    fn valid(&self) -> (valid: bool) {
        self.pos.is_some()
    }

    fn key(&self) -> (key: Option<&str>) {
        match self.pos {
            Some(pos) => Some(self.entries[pos].0.as_str()),
            None => None,
        }
    }

    fn value(&self) -> (value: Option<&str>) {
        match self.pos {
            Some(pos) => match &self.entries[pos].1 {
                Some(value) => Some(value.as_str()),
                None => None,
            },
            None => None,
        }
    }
}

/// A cursor over a table, which decodes one block at a time. It starts on no row.
pub struct SSTableIterator {
    pub sst: Arc<SSTable>,
    block: usize,
    entries: Vec<(String, SSTableEntry)>,
    index: usize,
}

impl SSTableIterator {
    pub closed spec fn table(&self) -> SSTable {
        *self.sst
    }

    pub fn new(sst: Arc<SSTable>) -> (iter: Self)
        requires
            sst.wf(),
        ensures
            iter.wf(),
            iter.table() == *sst,
            iter.rows() == sst.rows(),
            iter.pos() == iter.rows().len(),
            iter.settled() <==> sst.blocks().len() <= 1,
    {
        let iter = SSTableIterator { sst, block: 0, entries: Vec::new(), index: 0 };
        proof {
            assert(rows_of(iter.entries@) =~= Seq::<Row>::empty());
            iter.sst.lemma_wf();
            if iter.sst.blocks().len() > 0 {
                assert(iter.sst.blocks()[0].len() > 0);
            }
        }
        iter
    }

    /// The cursor is on the row `index` of the block that was read, or behind its last row.
    spec fn in_block(&self) -> bool {
        &&& self.block < self.sst.blocks().len()
        &&& rows_of(self.entries@) == self.sst.blocks()[self.block as int]
        &&& self.index <= self.entries@.len()
    }

    spec fn fresh(&self) -> bool {
        self.block == 0 && self.entries@.len() == 0 && self.index == 0
    }

    spec fn loaded(&self) -> bool {
        &&& self.sst.wf()
        &&& self.in_block() || (self.fresh())
    }

    fn load_block(&mut self, block: usize)
        requires
            old(self).sst.wf(),
            block < old(self).sst.blocks().len() || block == 0,
        ensures
            final(self).loaded(),
            final(self).sst == old(self).sst,
            final(self).block == block,
            final(self).index == 0,
            block < old(self).sst.blocks().len() ==> final(self).in_block(),
            block >= old(self).sst.blocks().len() ==> final(self).fresh(),
    {
        self.block = block;
        self.entries = match self.sst.read_block(block) {
            Some(entries) => entries,
            None => Vec::new(),
        };
        self.index = 0;
    }

    /// Moves to the next block while the current one is exhausted.
    fn ensure_entry(&mut self) -> (found: bool)
        requires
            old(self).loaded(),
        ensures
            final(self).loaded(),
            final(self).sst == old(self).sst,
            final(self).settled(),
            found == (final(self).pos() < final(self).rows().len()),
            old(self).index < old(self).entries@.len() ==> *final(self) == *old(self),
            old(self).index >= old(self).entries@.len() && old(self).in_block() ==> final(self).pos() == block_start(
                old(self).sst.blocks(),
                old(self).block + 1,
            ),
            old(self).index >= old(self).entries@.len() && !old(self).in_block() ==> final(self).pos() == (
            if old(self).sst.blocks().len() <= 1 {
                old(self).sst.rows().len() as int
            } else {
                block_start(old(self).sst.blocks(), 1)
            }),
    {
        proof {
            self.sst.lemma_wf();
        }
        if self.index < self.entries.len() {
            proof {
                self.lemma_pos_in_block();
            }
            return true;
        }
        let count: usize = self.sst.block_count();
        if count == 0 || self.block >= count - 1 {
            proof {
                let blocks = self.sst.blocks();
                assert(blocks.take(blocks.len() as int) =~= blocks);
                if self.in_block() {
                    assert(self.block + 1 == blocks.len());
                }
            }
            return false;
        }
        let next: usize = self.block + 1;
        self.load_block(next);
        proof {
            assert(self.sst.blocks()[next as int].len() > 0);
            assert(self.entries@.len() == rows_of(self.entries@).len());
            self.lemma_pos_in_block();
        }
        true
    }

    proof fn lemma_pos_in_block(&self)
        requires
            self.loaded(),
            self.index < self.entries@.len(),
        ensures
            self.pos() == block_start(self.sst.blocks(), self.block as int) + self.index,
            0 <= self.pos() < self.rows().len(),
            self.rows()[self.pos()] == rows_of(self.entries@)[self.index as int],
    {
        let blocks = self.sst.blocks();
        lemma_block_rows(blocks, self.block as int);
        let start = block_start(blocks, self.block as int);
        let block = blocks[self.block as int];
        assert(concat_rows(blocks).subrange(start, start + block.len())[self.index as int] == concat_rows(
            blocks,
        )[start + self.index]);
    }
}

impl StorageIterator for SSTableIterator {
    closed spec fn wf(&self) -> bool {
        &&& self.loaded()
        &&& self.in_block() && self.index >= self.entries@.len() ==> self.block + 1 >= self.sst.blocks().len()
    }

    closed spec fn rows(&self) -> Seq<Row> {
        self.sst.rows()
    }

    closed spec fn pos(&self) -> int {
        if self.index < self.entries@.len() {
            block_start(self.sst.blocks(), self.block as int) + self.index
        } else {
            self.sst.rows().len() as int
        }
    }

    /// A cursor that was never moved stands before the blocks behind the first.
    closed spec fn settled(&self) -> bool {
        self.index < self.entries@.len() || self.block + 1 >= self.sst.blocks().len()
    }

    proof fn lemma_wf(&self) {
        self.sst.lemma_wf();
        if self.index < self.entries@.len() {
            self.lemma_pos_in_block();
        }
    }

    fn seek_to_first(&mut self) {
        self.load_block(0);
        let ghost loaded = *self;
        let _ = self.ensure_entry();
        proof {
            let blocks = self.sst.blocks();
            self.sst.lemma_wf();
            assert(blocks.take(0) =~= Seq::<Seq<Row>>::empty());
            if blocks.len() > 0 {
                assert(blocks[0].len() > 0);
                assert(rows_of(loaded.entries@).len() > 0);
                assert(*self == loaded);
                self.lemma_pos_in_block();
            } else {
                assert(blocks =~= Seq::<Seq<Row>>::empty());
            }
        }
    }

    fn seek(&mut self, target: &str) {
        let block = match self.sst.find_block(target) {
            Some(block) => block,
            None => 0,
        };
        self.load_block(block);
        proof {
            self.sst.lemma_wf();
            if self.in_block() {
                lemma_sorted_block(self.sst.blocks(), block as int);
            } else {
                assert(rows_of(self.entries@) =~= Seq::<Row>::empty());
            }
        }
        self.index = lower_bound_of(&self.entries, target);
        let ghost positioned = *self;
        let _ = self.ensure_entry();
        proof {
            lemma_seek_in_block(
                self.sst.blocks(),
                block as int,
                target@,
                if positioned.in_block() {
                    positioned.index as int
                } else {
                    0
                },
            );
            if positioned.in_block() && positioned.index < positioned.entries@.len() {
                self.lemma_pos_in_block();
            } else if positioned.in_block() {
                lemma_block_rows(self.sst.blocks(), block as int);
            }
        }
    }

    fn advance(&mut self)
        ensures
            !old(self).settled() ==> final(self).settled(),
            !old(self).settled() ==> final(self).pos() == block_start(old(self).table().blocks(), 1),
    {
        let ghost before = *self;
        proof {
            self.sst.lemma_wf();
            if self.index < self.entries@.len() {
                self.lemma_pos_in_block();
            }
        }
        if self.index < self.entries.len() {
            self.index = self.index + 1;
        }
        let ghost stepped = *self;
        let _ = self.ensure_entry();
        proof {
            let blocks = self.sst.blocks();
            if before.index < before.entries@.len() {
                lemma_block_rows(blocks, before.block as int);
                if stepped.index < stepped.entries@.len() {
                    self.lemma_pos_in_block();
                }
            } else if before.settled() {
                assert(blocks.take(blocks.len() as int) =~= blocks);
                if before.in_block() {
                    assert(before.block + 1 == blocks.len());
                }
            }
        }
    }

    fn valid(&self) -> (valid: bool) {
        proof {
            if self.index < self.entries@.len() {
                self.lemma_pos_in_block();
            }
        }
        self.index < self.entries.len()
    }

    fn key(&self) -> (key: Option<&str>) {
        proof {
            if self.index < self.entries@.len() {
                self.lemma_pos_in_block();
            }
        }
        if self.index < self.entries.len() {
            Some(self.entries[self.index].0.as_str())
        } else {
            None
        }
    }

    fn value(&self) -> (value: Option<&str>) {
        proof {
            if self.index < self.entries@.len() {
                self.lemma_pos_in_block();
            }
        }
        if self.index < self.entries.len() {
            self.entries[self.index].1.value()
        } else {
            None
        }
    }
}

proof fn lemma_sorted_block(blocks: Seq<Seq<Row>>, b: int)
    requires
        sorted(concat_rows(blocks)),
        0 <= b < blocks.len(),
    ensures
        sorted(blocks[b]),
{
    lemma_block_rows(blocks, b);
    let start = block_start(blocks, b);
    crate::rows::lemma_sorted_subrange(concat_rows(blocks), start, start + blocks[b].len());
}

/// The rows before a block that starts at or below a key are below the key.
proof fn lemma_row_before_block(blocks: Seq<Seq<Row>>, b: int, target: Seq<char>, p: int)
    requires
        sorted(concat_rows(blocks)),
        0 <= b < blocks.len(),
        blocks[b].len() > 0,
        b > 0 ==> key_le(blocks[b][0].0, target),
        0 <= p < block_start(blocks, b),
    ensures
        p < concat_rows(blocks).len(),
        key_lt(concat_rows(blocks)[p].0, target),
{
    broadcast use group_key_order;

    let rows = concat_rows(blocks);
    let start = block_start(blocks, b);
    lemma_block_rows(blocks, b);
    if b == 0 {
        assert(blocks.take(0) =~= Seq::<Seq<Row>>::empty());
    }
    assert(rows[start] == rows.subrange(start, start + blocks[b].len())[0]);
    assert(key_lt(rows[p].0, rows[start].0));
}

/// The rows behind a block are not below a key that is below the blocks behind it.
proof fn lemma_row_behind_block(blocks: Seq<Seq<Row>>, b: int, target: Seq<char>, p: int)
    requires
        sorted(concat_rows(blocks)),
        forall|i: int| 0 <= i < blocks.len() ==> (#[trigger] blocks[i]).len() > 0,
        0 <= b < blocks.len(),
        forall|i: int| b < i < blocks.len() ==> key_lt(target, (#[trigger] blocks[i])[0].0),
        block_start(blocks, b) + blocks[b].len() <= p < concat_rows(blocks).len(),
    ensures
        !key_lt(concat_rows(blocks)[p].0, target),
{
    broadcast use group_key_order;

    let rows = concat_rows(blocks);
    let c = lemma_row_in_block(blocks, p);
    let other = block_start(blocks, c);
    lemma_block_rows(blocks, c);
    if c <= b {
        lemma_starts(blocks, c, b);
        assert(false);
    }
    assert(rows[other] == rows.subrange(other, other + blocks[c].len())[0]);
    assert(key_lt(target, rows[other].0));
    if other < p {
        assert(key_lt(rows[other].0, rows[p].0));
    }
}

/// Where a key belongs among all rows, found from where it belongs in the last block that does
/// not start above it.
proof fn lemma_seek_in_block(blocks: Seq<Seq<Row>>, b: int, target: Seq<char>, index: int)
    requires
        sorted(concat_rows(blocks)),
        forall|i: int| 0 <= i < blocks.len() ==> (#[trigger] blocks[i]).len() > 0,
        0 <= b < blocks.len() || (b == 0 && blocks.len() == 0),
        forall|i: int| b < i < blocks.len() ==> key_lt(target, (#[trigger] blocks[i])[0].0),
        b > 0 ==> key_le(blocks[b][0].0, target),
        blocks.len() > 0 ==> index == lower_bound(blocks[b], target),
        blocks.len() == 0 ==> index == 0,
    ensures
        ({
            let rows = concat_rows(blocks);
            let at = block_start(blocks, b) + index;
            &&& lower_bound(rows, target) == at
            &&& 0 <= at <= rows.len()
            &&& blocks.len() == 0 ==> rows.len() == 0
        }),
{
    let rows = concat_rows(blocks);
    let start = block_start(blocks, b);
    let at = start + index;
    if blocks.len() == 0 {
        assert(blocks.take(0) =~= blocks);
        assert(is_lower_bound(rows, target, 0));
    } else {
        let len = blocks[b].len() as int;
        lemma_sorted_block(blocks, b);
        lemma_block_rows(blocks, b);
        lemma_lower_bound(blocks[b], target);
        assert forall|p: int| 0 <= p < rows.len() implies (if p < at {
            key_lt((#[trigger] rows[p]).0, target)
        } else {
            !key_lt(rows[p].0, target)
        }) by {
            if p < start {
                lemma_row_before_block(blocks, b, target, p);
            } else if p < start + len {
                assert(rows.subrange(start, start + len)[p - start] == rows[p]);
                assert(blocks[b][p - start] == rows[p]);
            } else {
                lemma_row_behind_block(blocks, b, target, p);
            }
        }
        assert(is_lower_bound(rows, target, at));
    }
    lemma_lower_bound_unique(rows, target, at);
}

proof fn lemma_starts(blocks: Seq<Seq<Row>>, a: int, b: int)
    requires
        0 <= a <= b < blocks.len(),
    ensures
        block_start(blocks, a) + blocks[a].len() <= block_start(blocks, b) + blocks[b].len(),
    decreases b - a,
{
    if a < b {
        lemma_block_rows(blocks, b - 1);
        lemma_starts(blocks, a, b - 1);
    }
}

/// A cursor over one of the sources of a database.
pub enum SourceIterator {
    Memtable(MemtableIterator),
    Table(SSTableIterator),
}

impl StorageIterator for SourceIterator {
    open spec fn wf(&self) -> bool {
        match self {
            SourceIterator::Memtable(iter) => iter.wf(),
            SourceIterator::Table(iter) => iter.wf(),
        }
    }

    open spec fn rows(&self) -> Seq<Row> {
        match self {
            SourceIterator::Memtable(iter) => iter.rows(),
            SourceIterator::Table(iter) => iter.rows(),
        }
    }

    open spec fn pos(&self) -> int {
        match self {
            SourceIterator::Memtable(iter) => iter.pos(),
            SourceIterator::Table(iter) => iter.pos(),
        }
    }

    open spec fn settled(&self) -> bool {
        match self {
            SourceIterator::Memtable(iter) => iter.settled(),
            SourceIterator::Table(iter) => iter.settled(),
        }
    }

    proof fn lemma_wf(&self) {
        match self {
            SourceIterator::Memtable(iter) => iter.lemma_wf(),
            SourceIterator::Table(iter) => iter.lemma_wf(),
        }
    }

    fn seek_to_first(&mut self) {
        match self {
            SourceIterator::Memtable(iter) => iter.seek_to_first(),
            SourceIterator::Table(iter) => iter.seek_to_first(),
        }
    }

    fn seek(&mut self, target: &str) {
        match self {
            SourceIterator::Memtable(iter) => iter.seek(target),
            SourceIterator::Table(iter) => iter.seek(target),
        }
    }

    fn advance(&mut self) {
        match self {
            SourceIterator::Memtable(iter) => iter.advance(),
            SourceIterator::Table(iter) => iter.advance(),
        }
    }

    fn valid(&self) -> (valid: bool) {
        match self {
            SourceIterator::Memtable(iter) => iter.valid(),
            SourceIterator::Table(iter) => iter.valid(),
        }
    }

    fn key(&self) -> (key: Option<&str>) {
        match self {
            SourceIterator::Memtable(iter) => iter.key(),
            SourceIterator::Table(iter) => iter.key(),
        }
    }

    fn value(&self) -> (value: Option<&str>) {
        match self {
            SourceIterator::Memtable(iter) => iter.value(),
            SourceIterator::Table(iter) => iter.value(),
        }
    }
}

struct CurrentEntry {
    key: String,
    source: usize,
}

/// Merges several sources ordered from newest to oldest.
///
/// Keys are emitted once, in ascending order, using the value of the newest source
/// that contains them. A tombstone in the newest source hides older values. It is
/// emitted only by an iterator that was made to keep tombstones.
pub struct MergeIterator<I: StorageIterator> {
    children: Vec<I>,
    current: Option<CurrentEntry>,
    keep_tombstones: bool,
    at: Ghost<int>,
}

/// The rows of each source.
pub open spec fn source_rows<I: StorageIterator>(children: Seq<I>) -> Seq<Seq<Row>> {
    Seq::new(children.len(), |i: int| children[i].rows())
}

pub open spec fn all_wf<I: StorageIterator>(children: Seq<I>) -> bool {
    forall|i: int| 0 <= i < children.len() ==> (#[trigger] children[i]).wf()
}

/// Every source stands where the merge is at index `p` of the merged rows.
spec fn aligned<I: StorageIterator>(children: Seq<I>, p: int) -> bool {
    &&& 0 <= p <= merge_rows(source_rows(children)).len()
    &&& forall|i: int| 0 <= i < children.len() ==> (#[trigger] children[i]).wf() && children[i].settled()
        && children[i].pos() == aligned_pos(children[i].rows(), merge_rows(source_rows(children)), p)
}

proof fn lemma_sources_sorted<I: StorageIterator>(children: Seq<I>)
    requires
        all_wf(children),
    ensures
        all_sorted(source_rows(children)),
{
    assert forall|i: int| 0 <= i < children.len() implies sorted(#[trigger] source_rows(children)[i]) by {
        assert(children[i].wf());
        children[i].lemma_wf();
    }
}

impl<I: StorageIterator> MergeIterator<I> {
    /// The rows of the sources, newest first.
    pub closed spec fn sources(&self) -> Seq<Seq<Row>> {
        source_rows(self.children@)
    }

    pub closed spec fn keeps_tombstones(&self) -> bool {
        self.keep_tombstones
    }

    spec fn merged(&self) -> Seq<Row> {
        merge_rows(self.sources())
    }

    /// Builds the merged iterator positioned on the smallest live key.
    pub fn new(children: Vec<I>) -> (iter: Self)
        requires
            all_wf(children@),
        ensures
            iter.wf(),
            iter.sources() == source_rows(children@),
            !iter.keeps_tombstones(),
            iter.rows() == live_rows(merge_rows(source_rows(children@))),
            iter.pos() == 0,
    {
        Self::start(children, false)
    }

    /// Builds the merged iterator positioned on the smallest key, deleted or not.
    pub fn new_with_tombstones(children: Vec<I>) -> (iter: Self)
        requires
            all_wf(children@),
        ensures
            iter.wf(),
            iter.sources() == source_rows(children@),
            iter.keeps_tombstones(),
            iter.rows() == merge_rows(source_rows(children@)),
            iter.pos() == 0,
    {
        Self::start(children, true)
    }

    fn start(children: Vec<I>, keep_tombstones: bool) -> (iter: Self)
        requires
            all_wf(children@),
        ensures
            iter.wf(),
            iter.sources() == source_rows(children@),
            iter.keeps_tombstones() == keep_tombstones,
            iter.pos() == 0,
    {
        let mut iter = MergeIterator { children, current: None, keep_tombstones, at: Ghost(0) };
        iter.seek_children_to_first();
        iter.normalize();
        proof {
            lemma_shown_from_zero(iter.merged(), keep_tombstones);
        }
        iter
    }

    fn seek_children_to_first(&mut self)
        requires
            all_wf(old(self).children@),
        ensures
            aligned(final(self).children@, 0),
            final(self).at@ == 0,
            final(self).sources() == old(self).sources(),
            final(self).keep_tombstones == old(self).keep_tombstones,
    {
        let ghost start = self.children@;
        let mut i: usize = 0;
        while i < self.children.len()
            invariant
                i <= self.children@.len(),
                self.children@.len() == start.len(),
                self.keep_tombstones == old(self).keep_tombstones,
                all_wf(start),
                forall|j: int| 0 <= j < start.len() ==> (#[trigger] self.children@[j]).rows() == start[j].rows()
                    && self.children@[j].wf(),
                forall|j: int| 0 <= j < i ==> (#[trigger] self.children@[j]).settled() && self.children@[j].pos() == 0,
            decreases self.children@.len() - i,
        {
            self.children[i].seek_to_first();
            i = i + 1;
        }
        self.at = Ghost(0);
        proof {
            assert(source_rows(self.children@) =~= source_rows(start));
            lemma_sources_sorted(self.children@);
            let sources = source_rows(self.children@);
            assert forall|j: int| 0 <= j < self.children@.len() implies (#[trigger] self.children@[j]).wf()
                && self.children@[j].settled() && self.children@[j].pos() == aligned_pos(
                self.children@[j].rows(),
                merge_rows(sources),
                0,
            ) by {
                lemma_aligned_first(sources, j);
            }
        }
    }

    /// Goes on from the current place to the first row to be shown.
    fn normalize(&mut self)
        requires
            aligned(old(self).children@, old(self).at@),
        ensures
            final(self).wf(),
            final(self).sources() == old(self).sources(),
            final(self).keep_tombstones == old(self).keep_tombstones,
            final(self).pos() == visible(
                merge_rows(old(self).sources()).take(old(self).at@),
                old(self).keep_tombstones,
            ).len(),
    {
        let ghost shown = visible(self.merged().take(self.at@), self.keep_tombstones).len();
        loop
            invariant
                aligned(self.children@, self.at@),
                self.sources() == old(self).sources(),
                self.keep_tombstones == old(self).keep_tombstones,
                visible(self.merged().take(self.at@), self.keep_tombstones).len() == shown,
                shown == visible(merge_rows(old(self).sources()).take(old(self).at@), old(self).keep_tombstones).len(),
            decreases self.merged().len() - self.at@,
        {
            let (key, source) = match self.smallest() {
                Some(found) => found,
                None => {
                    self.current = None;
                    return;
                },
            };
            if self.keep_tombstones || self.children[source].value().is_some() {
                self.current = Some(CurrentEntry { key, source });
                return;
            }
            proof {
                lemma_visible_step(self.merged(), self.at@, self.keep_tombstones);
            }
            self.skip_key(key.as_str());
        }
    }

    /// The smallest key under the cursors, and the newest source that has it.
    fn smallest(&self) -> (found: Option<(String, usize)>)
        requires
            aligned(self.children@, self.at@),
        ensures
            match found {
                Some((key, source)) => {
                    &&& self.at@ < self.merged().len()
                    &&& key@ == self.merged()[self.at@].0
                    &&& source < self.children@.len()
                    &&& self.children@[source as int].pos() < self.children@[source as int].rows().len()
                    &&& self.children@[source as int].rows()[self.children@[source as int].pos()]
                        == self.merged()[self.at@]
                },
                None => self.at@ == self.merged().len(),
            },
    {
        let ghost sources = self.sources();
        let ghost merged = self.merged();
        let ghost p = self.at@;
        proof {
            assert(all_wf(self.children@));
            lemma_sources_sorted(self.children@);
        }
        let mut best: Option<(String, usize)> = None;
        let mut i: usize = 0;
        while i < self.children.len()
            invariant
                sources == source_rows(self.children@),
                merged == merge_rows(sources),
                p == self.at@,
                aligned(self.children@, p),
                all_sorted(sources),
                i <= self.children@.len(),
                match best {
                    Some((key, source)) => {
                        &&& source < i
                        &&& self.children@[source as int].pos() < self.children@[source as int].rows().len()
                        &&& key@ == self.children@[source as int].rows()[self.children@[source as int].pos()].0
                        &&& forall|j: int|
                            0 <= j < source ==> child_key_above(#[trigger] self.children@[j], key@, true)
                        &&& forall|j: int|
                            source <= j < i ==> child_key_above(#[trigger] self.children@[j], key@, false)
                    },
                    None => forall|j: int| 0 <= j < i ==> (#[trigger] self.children@[j]).pos()
                        == self.children@[j].rows().len(),
                },
            decreases self.children@.len() - i,
        {
            broadcast use group_key_order;

            let child = &self.children[i];
            proof {
                assert(self.children@[i as int].wf());
            }
            match child.key() {
                None => {},
                Some(key) => {
                    let keep = match &best {
                        Some((best_key, _)) => str_le(best_key.as_str(), key),
                        None => false,
                    };
                    if !keep {
                        best = Some((key.to_owned(), i));
                    }
                },
            }
            i = i + 1;
        }
        proof {
            lemma_smallest(self.children@, p);
            if best is Some {
                let found = best->Some_0;
                lemma_smallest_found(self.children@, p, found.1 as int, found.0@);
            }
        }
        best
    }

    /// Moves every source that stands on `key`.
    fn skip_key(&mut self, key: &str)
        requires
            aligned(old(self).children@, old(self).at@),
            old(self).at@ < old(self).merged().len(),
            key@ == old(self).merged()[old(self).at@].0,
        ensures
            aligned(final(self).children@, final(self).at@),
            final(self).at@ == old(self).at@ + 1,
            final(self).sources() == old(self).sources(),
            final(self).keep_tombstones == old(self).keep_tombstones,
    {
        let ghost start = self.children@;
        let ghost sources = self.sources();
        let ghost merged = self.merged();
        let ghost p = self.at@;
        proof {
            assert(all_wf(start));
            lemma_sources_sorted(start);
        }
        let mut i: usize = 0;
        while i < self.children.len()
            invariant
                i <= self.children@.len(),
                self.children@.len() == start.len(),
                self.keep_tombstones == old(self).keep_tombstones,
                sources == source_rows(start),
                merged == merge_rows(sources),
                all_sorted(sources),
                0 <= p < merged.len(),
                key@ == merged[p].0,
                aligned(start, p),
                forall|j: int| 0 <= j < start.len() ==> (#[trigger] self.children@[j]).rows() == start[j].rows()
                    && self.children@[j].wf() && self.children@[j].settled(),
                forall|j: int| 0 <= j < i ==> (#[trigger] self.children@[j]).pos() == aligned_pos(
                    self.children@[j].rows(),
                    merged,
                    p + 1,
                ),
                forall|j: int| i <= j < start.len() ==> #[trigger] self.children@[j] == start[j],
            decreases self.children@.len() - i,
        {
            let ghost before = self.children@;
            let stands = match self.children[i].key() {
                Some(found) => str_eq(found, key),
                None => false,
            };
            proof {
                assert(before[i as int] == start[i as int]);
                assert(sources[i as int] == start[i as int].rows());
                lemma_aligned_step(sources, i as int, p);
            }
            if stands {
                self.children[i].advance();
            }
            i = i + 1;
        }
        self.at = Ghost(p + 1);
        proof {
            assert(source_rows(self.children@) =~= source_rows(start));
        }
    }
}

proof fn lemma_shown_from_zero(rows: Seq<Row>, keep: bool)
    ensures
        visible(rows.take(0), keep).len() == 0,
{
    assert(rows.take(0) =~= Seq::<Row>::empty());
    lemma_live_push(rows, (Seq::empty(), None));
}

/// A child stands on no key below `key`, nor, when strict, on `key` itself.
spec fn child_key_above<I: StorageIterator>(child: I, key: Seq<char>, strict: bool) -> bool {
    child.pos() < child.rows().len() ==> key_le(key, child.rows()[child.pos()].0) && (strict ==> key
        != child.rows()[child.pos()].0)
}

/// At the end of the merge every source is exhausted; before it some source stands on the key.
proof fn lemma_smallest<I: StorageIterator>(children: Seq<I>, p: int)
    requires
        aligned(children, p),
        all_sorted(source_rows(children)),
    ensures
        ({
            let merged = merge_rows(source_rows(children));
            &&& p < merged.len() ==> exists|i: int|
                0 <= i < children.len() && (#[trigger] children[i]).pos() < children[i].rows().len()
            &&& p == merged.len() ==> forall|i: int|
                0 <= i < children.len() ==> (#[trigger] children[i]).pos() == children[i].rows().len()
        }),
{
    let sources = source_rows(children);
    let merged = merge_rows(sources);
    if p < merged.len() {
        let key = merged[p].0;
        law_merge_newest_wins(sources);
        assert(has_key(merged, key));
        lemma_sources_some(sources, key);
        let i = choose|i: int| 0 <= i < sources.len() && has_key(#[trigger] sources[i], key);
        lemma_aligned_step(sources, i, p);
        assert(children[i].pos() < children[i].rows().len());
    }
}

/// The smallest key under the cursors, in the first source that has it, is the merged row.
proof fn lemma_smallest_found<I: StorageIterator>(children: Seq<I>, p: int, source: int, key: Seq<char>)
    requires
        aligned(children, p),
        all_sorted(source_rows(children)),
        0 <= source < children.len(),
        children[source].pos() < children[source].rows().len(),
        key == children[source].rows()[children[source].pos()].0,
        forall|j: int| 0 <= j < source ==> child_key_above(#[trigger] children[j], key, true),
        forall|j: int| source <= j < children.len() ==> child_key_above(#[trigger] children[j], key, false),
    ensures
        p < merge_rows(source_rows(children)).len(),
        key == merge_rows(source_rows(children))[p].0,
        children[source].rows()[children[source].pos()] == merge_rows(source_rows(children))[p],
{
    broadcast use group_key_order;

    let sources = source_rows(children);
    let merged = merge_rows(sources);
    lemma_smallest(children, p);
    law_merge_newest_wins(sources);
    assert(children[source].pos() == aligned_pos(children[source].rows(), merged, p));
    assert(p < merged.len());
    let target = merged[p].0;
    assert(sources[source] == children[source].rows());
    lemma_aligned_step(sources, source, p);
    assert(has_key(merged, target));
    lemma_sources_some(sources, target);
    let i = choose|i: int| 0 <= i < sources.len() && has_key(#[trigger] sources[i], target);
    lemma_aligned_step(sources, i, p);
    assert(child_key_above(children[i], key, false));
    assert(key_le(key, target));
    assert(key == target);
    assert forall|j: int| 0 <= j < source implies !has_key(#[trigger] sources[j], key) by {
        lemma_aligned_step(sources, j, p);
        assert(child_key_above(children[j], key, true));
    }
    lemma_sources_first(sources, key, source);
    assert(sorted(sources[source]));
    lemma_rows_get_at(sources[source], children[source].pos());
    lemma_rows_get_at(merged, p);
}

impl<I: StorageIterator> StorageIterator for MergeIterator<I> {
    closed spec fn wf(&self) -> bool {
        &&& aligned(self.children@, self.at@)
        &&& match self.current {
            Some(current) => {
                let child = self.children@[current.source as int];
                &&& self.at@ < self.merged().len()
                &&& current.key@ == self.merged()[self.at@].0
                &&& current.source < self.children@.len()
                &&& child.pos() < child.rows().len()
                &&& child.rows()[child.pos()] == self.merged()[self.at@]
                &&& self.keep_tombstones || self.merged()[self.at@].1 is Some
            },
            None => self.at@ == self.merged().len(),
        }
    }

    open spec fn rows(&self) -> Seq<Row> {
        visible(merge_rows(self.sources()), self.keeps_tombstones())
    }

    closed spec fn pos(&self) -> int {
        visible(self.merged().take(self.at@), self.keep_tombstones).len() as int
    }

    open spec fn settled(&self) -> bool {
        true
    }

    proof fn lemma_wf(&self) {
        assert(all_wf(self.children@));
        lemma_sources_sorted(self.children@);
        law_merge_newest_wins(self.sources());
        lemma_visible(self.merged(), self.keep_tombstones);
        lemma_visible_prefix(self.merged(), self.at@, self.keep_tombstones);
    }

    fn seek_to_first(&mut self)
        ensures
            final(self).sources() == old(self).sources(),
            final(self).keeps_tombstones() == old(self).keeps_tombstones(),
    {
        proof {
            assert(all_wf(self.children@));
        }
        self.seek_children_to_first();
        proof {
            lemma_shown_from_zero(self.merged(), self.keep_tombstones);
        }
        self.normalize();
    }

    fn seek(&mut self, target: &str)
        ensures
            final(self).sources() == old(self).sources(),
            final(self).keeps_tombstones() == old(self).keeps_tombstones(),
    {
        let ghost start = self.children@;
        let ghost sources = self.sources();
        let ghost merged = self.merged();
        proof {
            assert(all_wf(start));
            lemma_sources_sorted(start);
            law_merge_newest_wins(sources);
        }
        let mut i: usize = 0;
        while i < self.children.len()
            invariant
                i <= self.children@.len(),
                self.children@.len() == start.len(),
                self.keep_tombstones == old(self).keep_tombstones,
                forall|j: int| 0 <= j < start.len() ==> (#[trigger] self.children@[j]).rows() == start[j].rows()
                    && self.children@[j].wf() && self.children@[j].settled(),
                forall|j: int| 0 <= j < i ==> (#[trigger] self.children@[j]).pos() == lower_bound(
                    self.children@[j].rows(),
                    target@,
                ),
            decreases self.children@.len() - i,
        {
            self.children[i].seek(target);
            i = i + 1;
        }
        self.at = Ghost(lower_bound(merged, target@));
        proof {
            assert(source_rows(self.children@) =~= source_rows(start));
            lemma_lower_bound(merged, target@);
            assert forall|j: int| 0 <= j < self.children@.len() implies (#[trigger] self.children@[j]).wf()
                && self.children@[j].settled() && self.children@[j].pos() == aligned_pos(
                self.children@[j].rows(),
                merge_rows(source_rows(self.children@)),
                self.at@,
            ) by {
                lemma_aligned_seek(sources, j, target@);
            }
            lemma_visible_lower_bound(merged, self.keep_tombstones, target@);
        }
        self.normalize();
    }

    fn advance(&mut self)
        ensures
            final(self).sources() == old(self).sources(),
            final(self).keeps_tombstones() == old(self).keeps_tombstones(),
    {
        proof {
            lemma_visible_prefix(self.merged(), self.at@, self.keep_tombstones);
            if self.current is None {
                assert(self.merged().take(self.at@) =~= self.merged());
            }
        }
        let current = self.current.take();
        match current {
            None => {},
            Some(current) => {
                proof {
                    lemma_visible_step(self.merged(), self.at@, self.keep_tombstones);
                }
                self.skip_key(current.key.as_str());
                self.normalize();
            },
        }
    }

    fn valid(&self) -> (valid: bool) {
        proof {
            lemma_visible_prefix(self.merged(), self.at@, self.keep_tombstones);
            if self.current is None {
                assert(self.merged().take(self.at@) =~= self.merged());
            }
        }
        self.current.is_some()
    }

    fn key(&self) -> (key: Option<&str>) {
        proof {
            lemma_visible_prefix(self.merged(), self.at@, self.keep_tombstones);
            if self.current is None {
                assert(self.merged().take(self.at@) =~= self.merged());
            }
        }
        match &self.current {
            Some(current) => Some(current.key.as_str()),
            None => None,
        }
    }

    fn value(&self) -> (value: Option<&str>) {
        proof {
            lemma_visible_prefix(self.merged(), self.at@, self.keep_tombstones);
            if self.current is None {
                assert(self.merged().take(self.at@) =~= self.merged());
            }
        }
        match &self.current {
            Some(current) => self.children[current.source].value(),
            None => None,
        }
    }
}

/// One end of a range of keys.
#[derive(Debug, Clone, PartialEq, Eq)]
pub enum Bound {
    Unbounded,
    Included(String),
    Excluded(String),
}

/// The number of rows before those that satisfy a start bound.
pub open spec fn start_index(rows: Seq<Row>, start: Bound) -> int {
    match start {
        Bound::Unbounded => 0,
        Bound::Included(key) => lower_bound(rows, key@),
        Bound::Excluded(key) => after_key(rows, key@),
    }
}

/// The number of rows that satisfy an end bound.
pub open spec fn end_index(rows: Seq<Row>, end: Bound) -> int {
    match end {
        Bound::Unbounded => rows.len() as int,
        Bound::Included(key) => after_key(rows, key@),
        Bound::Excluded(key) => lower_bound(rows, key@),
    }
}

/// The number of rows whose key is at most `key`.
pub open spec fn after_key(rows: Seq<Row>, key: Seq<char>) -> int {
    let at = lower_bound(rows, key);
    if at < rows.len() && rows[at].0 == key {
        at + 1
    } else {
        at
    }
}

/// The rows between two bounds.
pub open spec fn range_rows(rows: Seq<Row>, start: Bound, end: Bound) -> Seq<Row> {
    if start_index(rows, start) < end_index(rows, end) {
        rows.subrange(start_index(rows, start), end_index(rows, end))
    } else {
        Seq::empty()
    }
}

pub open spec fn within_start(start: Bound, key: Seq<char>) -> bool {
    match start {
        Bound::Unbounded => true,
        Bound::Included(first) => key_le(first@, key),
        Bound::Excluded(before) => key_lt(before@, key),
    }
}

pub open spec fn within_end(end: Bound, key: Seq<char>) -> bool {
    match end {
        Bound::Unbounded => true,
        Bound::Included(last) => key_le(key, last@),
        Bound::Excluded(stop) => key_lt(key, stop@),
    }
}

pub open spec fn min_int(a: int, b: int) -> int {
    if a < b {
        a
    } else {
        b
    }
}

proof fn lemma_end_index(rows: Seq<Row>, end: Bound)
    requires
        sorted(rows),
    ensures
        0 <= end_index(rows, end) <= rows.len(),
        forall|i: int| 0 <= i < rows.len() ==> (i < end_index(rows, end) <==> within_end(end, (#[trigger] rows[i]).0)),
{
    broadcast use group_key_order;

    match end {
        Bound::Unbounded => {},
        Bound::Included(key) => {
            lemma_lower_bound(rows, key@);
            let at = lower_bound(rows, key@);
            assert forall|i: int| 0 <= i < rows.len() implies (i < end_index(rows, end) <==> within_end(
                end,
                (#[trigger] rows[i]).0,
            )) by {
                if i > at {
                    assert(key_lt(rows[at].0, rows[i].0));
                }
            }
        },
        Bound::Excluded(key) => {
            lemma_lower_bound(rows, key@);
        },
    }
}

proof fn lemma_start_index(rows: Seq<Row>, start: Bound)
    requires
        sorted(rows),
    ensures
        0 <= start_index(rows, start) <= rows.len(),
        forall|i: int| 0 <= i < rows.len() ==> (start_index(rows, start) <= i <==> within_start(start, (#[trigger] rows[i]).0)),
{
    broadcast use group_key_order;

    match start {
        Bound::Unbounded => {},
        Bound::Included(key) => {
            lemma_lower_bound(rows, key@);
        },
        Bound::Excluded(key) => {
            lemma_lower_bound(rows, key@);
            let at = lower_bound(rows, key@);
            assert forall|i: int| 0 <= i < rows.len() implies (start_index(rows, start) <= i <==> within_start(
                start,
                (#[trigger] rows[i]).0,
            )) by {
                if i > at {
                    assert(key_lt(rows[at].0, rows[i].0));
                }
            }
        },
    }
}

/// A range has the rows whose keys are within both bounds, in order, and no others.
pub proof fn law_range_is_what_the_bounds_admit(rows: Seq<Row>, start: Bound, end: Bound)
    requires
        sorted(rows),
    ensures
        sorted(range_rows(rows, start, end)),
        forall|row: Row| #[trigger] range_rows(rows, start, end).contains(row) <==> rows.contains(row) && within_start(
            start,
            row.0,
        ) && within_end(end, row.0),
{
    let s = start_index(rows, start);
    let e = end_index(rows, end);
    let range = range_rows(rows, start, end);
    lemma_start_index(rows, start);
    lemma_end_index(rows, end);
    if s < e {
        crate::rows::lemma_sorted_subrange(rows, s, e);
    }
    assert forall|row: Row| #[trigger] range.contains(row) <==> rows.contains(row) && within_start(start, row.0)
        && within_end(end, row.0) by {
        if range.contains(row) {
            let i = choose|i: int| 0 <= i < range.len() && range[i] == row;
            assert(rows[s + i] == row);
        }
        if rows.contains(row) && within_start(start, row.0) && within_end(end, row.0) {
            let i = choose|i: int| 0 <= i < rows.len() && rows[i] == row;
            assert(s <= i < e);
            assert(range[i - s] == row);
        }
    }
}

/// Seeking within a range.
proof fn lemma_lower_bound_range(rows: Seq<Row>, start: Bound, end: Bound, target: Seq<char>)
    requires
        sorted(rows),
    ensures
        ({
            let s = start_index(rows, start);
            let e = end_index(rows, end);
            let at = lower_bound(rows, target);
            lower_bound(range_rows(rows, start, end), target) == (if s >= e || at < s {
                0
            } else {
                min_int(at, e) - s
            })
        }),
{
    let s = start_index(rows, start);
    let e = end_index(rows, end);
    let at = lower_bound(rows, target);
    let range = range_rows(rows, start, end);
    lemma_start_index(rows, start);
    lemma_end_index(rows, end);
    lemma_lower_bound(rows, target);
    if s < e {
        crate::rows::lemma_sorted_subrange(rows, s, e);
        let found = if at < s {
            0
        } else {
            min_int(at, e) - s
        };
        assert(is_lower_bound(range, target, found));
        lemma_lower_bound_unique(range, target, found);
    }
}

/// The number of rows from `from` on before the first tombstone.
pub open spec fn live_run(rows: Seq<Row>, from: int) -> int
    decreases rows.len() - from,
{
    if from < rows.len() && rows[from].1 is Some {
        1 + live_run(rows, from + 1)
    } else {
        0
    }
}

/// The keys and values that a vector of pairs holds, as rows.
pub open spec fn pair_rows(pairs: Seq<(String, String)>) -> Seq<Row> {
    Seq::new(pairs.len(), |i: int| (pairs[i].0@, Some(pairs[i].1@)))
}

/// Ascending iterator over the live keys of a database between two bounds.
pub struct RangeIterator<I: StorageIterator> {
    merged: MergeIterator<I>,
    start: Bound,
    end: Bound,
}

impl<I: StorageIterator> RangeIterator<I> {
    /// All rows of the merged sources, also those outside the bounds.
    pub closed spec fn all_rows(&self) -> Seq<Row> {
        self.merged.rows()
    }

    pub closed spec fn start_bound(&self) -> Bound {
        self.start
    }

    pub closed spec fn end_bound(&self) -> Bound {
        self.end
    }

    /// Positions the iterator on the first live key that satisfies `start`.
    pub fn new(merged: MergeIterator<I>, start: Bound, end: Bound) -> (iter: Self)
        requires
            merged.wf(),
        ensures
            iter.wf(),
            iter.all_rows() == merged.rows(),
            iter.start_bound() == start,
            iter.end_bound() == end,
            iter.pos() == (if start is Unbounded {
                min_int(merged.pos(), end_index(merged.rows(), end))
            } else {
                0
            }),
    {
        let mut merged = merged;
        proof {
            merged.lemma_wf();
            lemma_start_index(merged.rows(), start);
            lemma_end_index(merged.rows(), end);
        }
        match &start {
            Bound::Unbounded => {},
            _ => {
                Self::seek_start(&mut merged, &start);
            },
        }
        RangeIterator { merged, start, end }
    }

    /// Moves to the first row that satisfies `start`.
    fn seek_start(merged: &mut MergeIterator<I>, start: &Bound)
        requires
            old(merged).wf(),
        ensures
            final(merged).wf(),
            final(merged).rows() == old(merged).rows(),
            final(merged).pos() == start_index(old(merged).rows(), *start),
    {
        let ghost rows = merged.rows();
        proof {
            merged.lemma_wf();
        }
        match start {
            Bound::Unbounded => {
                merged.seek_to_first();
            },
            Bound::Included(key) => {
                merged.seek(key.as_str());
            },
            Bound::Excluded(key) => {
                merged.seek(key.as_str());
                proof {
                    lemma_lower_bound(rows, key@);
                }
                let found = match merged.key() {
                    Some(current) => str_eq(current, key.as_str()),
                    None => false,
                };
                if found {
                    merged.advance();
                }
            },
        }
    }

    /// Whether a key is within the start bound.
    fn admits(&self, key: &str) -> (within: bool)
        ensures
            within == within_start(self.start_bound(), key@),
    {
        match &self.start {
            Bound::Unbounded => true,
            Bound::Included(first) => str_le(first.as_str(), key),
            Bound::Excluded(before) => str_lt(before.as_str(), key),
        }
    }

    fn within_end(&self) -> (within: bool)
        requires
            self.merged.wf(),
        ensures
            within == (self.merged.pos() < end_index(self.merged.rows(), self.end)),
    {
        proof {
            self.merged.lemma_wf();
            lemma_end_index(self.merged.rows(), self.end);
        }
        match self.merged.key() {
            None => false,
            Some(key) => match &self.end {
                Bound::Unbounded => true,
                Bound::Included(end) => str_le(key, end.as_str()),
                Bound::Excluded(end) => str_lt(key, end.as_str()),
            },
        }
    }

    /// The key and value under the cursor, which moves on.
    pub fn next(&mut self) -> (item: Option<(String, String)>)
        requires
            old(self).wf(),
        ensures
            final(self).wf(),
            final(self).rows() == old(self).rows(),
            match item {
                Some((key, value)) => {
                    &&& old(self).pos() < old(self).rows().len()
                    &&& old(self).rows()[old(self).pos()] == (key@, Some(value@))
                    &&& final(self).pos() == old(self).pos() + 1
                },
                None => {
                    &&& *final(self) == *old(self)
                    &&& old(self).pos() == old(self).rows().len() || old(self).rows()[old(self).pos()].1 is None
                },
            },
    {
        if !self.valid() {
            proof {
                self.lemma_wf();
            }
            return None;
        }
        let key = match self.key() {
            Some(key) => key.to_owned(),
            None => {
                return None;
            },
        };
        let value = match self.value() {
            Some(value) => value.to_owned(),
            None => {
                return None;
            },
        };
        self.advance();
        Some((key, value))
    }

    /// What `next` gives until it gives nothing.
    pub fn collect(self) -> (pairs: Vec<(String, String)>)
        requires
            self.wf(),
        ensures
            pair_rows(pairs@) == self.rows().subrange(
                self.pos(),
                self.pos() + live_run(self.rows(), self.pos()),
            ),
    {
        let mut iter = self;
        let ghost rows = self.rows();
        let ghost from = self.pos();
        let mut pairs: Vec<(String, String)> = Vec::new();
        proof {
            self.lemma_wf();
            assert(pair_rows(pairs@) =~= rows.subrange(from, from));
        }
        loop
            invariant
                iter.wf(),
                iter.rows() == rows,
                0 <= from <= iter.pos() <= rows.len(),
                pair_rows(pairs@) == rows.subrange(from, iter.pos()),
                from + live_run(rows, from) == iter.pos() + live_run(rows, iter.pos()),
                rows == self.rows(),
                from == self.pos(),
            decreases rows.len() - iter.pos(),
        {
            let ghost at = iter.pos();
            match iter.next() {
                Some(pair) => {
                    let ghost before = pairs@;
                    pairs.push(pair);
                    proof {
                        assert(pair_rows(pairs@) =~= pair_rows(before).push(rows[at]));
                        assert(rows.subrange(from, at + 1) =~= rows.subrange(from, at).push(rows[at]));
                        iter.lemma_wf();
                    }
                },
                None => {
                    return pairs;
                },
            }
        }
    }

    /// How many pairs `next` gives until it gives nothing.
    pub fn count(self) -> (count: usize)
        requires
            self.wf(),
        ensures
            count == live_run(self.rows(), self.pos()),
    {
        proof {
            self.lemma_wf();
            lemma_live_run(self.rows(), self.pos());
        }
        let ghost rows = self.rows();
        let ghost from = self.pos();
        let pairs = self.collect();
        proof {
            assert(pair_rows(pairs@).len() == rows.subrange(from, from + live_run(rows, from)).len());
        }
        pairs.len()
    }
}

/// A run of live rows ends within the rows; rows without tombstones are one run.
pub proof fn lemma_live_run(rows: Seq<Row>, from: int)
    requires
        0 <= from <= rows.len(),
    ensures
        0 <= live_run(rows, from),
        from + live_run(rows, from) <= rows.len(),
        (forall|i: int| from <= i < rows.len() ==> (#[trigger] rows[i]).1 is Some) ==> from + live_run(rows, from)
            == rows.len(),
    decreases rows.len() - from,
{
    if from < rows.len() && rows[from].1 is Some {
        lemma_live_run(rows, from + 1);
    }
}

impl<I: StorageIterator> StorageIterator for RangeIterator<I> {
    closed spec fn wf(&self) -> bool {
        self.merged.wf() && start_index(self.merged.rows(), self.start) <= self.merged.pos()
    }

    /// The rows between the bounds.
    open spec fn rows(&self) -> Seq<Row> {
        range_rows(self.all_rows(), self.start_bound(), self.end_bound())
    }

    closed spec fn pos(&self) -> int {
        let s = start_index(self.merged.rows(), self.start);
        let e = end_index(self.merged.rows(), self.end);
        if s < e {
            min_int(self.merged.pos(), e) - s
        } else {
            0
        }
    }

    open spec fn settled(&self) -> bool {
        true
    }

    proof fn lemma_wf(&self) {
        self.merged.lemma_wf();
        lemma_start_index(self.all_rows(), self.start);
        lemma_end_index(self.all_rows(), self.end);
        law_range_is_what_the_bounds_admit(self.all_rows(), self.start, self.end);
    }

    fn seek_to_first(&mut self) {
        proof {
            self.lemma_wf();
        }
        Self::seek_start(&mut self.merged, &self.start);
        proof {
            self.merged.lemma_wf();
            lemma_end_index(self.all_rows(), self.end);
        }
    }

    /// Seeks to the first live key greater than or equal to `target`.
    fn seek(&mut self, target: &str) {
        proof {
            self.lemma_wf();
            self.merged.lemma_wf();
            lemma_start_index(self.all_rows(), self.start);
            lemma_end_index(self.all_rows(), self.end);
            lemma_lower_bound(self.all_rows(), target@);
            lemma_lower_bound_range(self.all_rows(), self.start, self.end, target@);
            lemma_lower_bound_start(self.all_rows(), self.start, target@);
        }
        if self.admits(target) {
            self.merged.seek(target);
        } else {
            Self::seek_start(&mut self.merged, &self.start);
        }
    }

    fn advance(&mut self) {
        proof {
            self.lemma_wf();
            self.merged.lemma_wf();
            lemma_start_index(self.all_rows(), self.start);
            lemma_end_index(self.all_rows(), self.end);
        }
        self.merged.advance();
    }

    fn valid(&self) -> (valid: bool) {
        proof {
            self.merged.lemma_wf();
            lemma_start_index(self.all_rows(), self.start);
            lemma_end_index(self.all_rows(), self.end);
        }
        self.merged.valid() && self.within_end()
    }

    fn key(&self) -> (key: Option<&str>) {
        proof {
            self.lemma_wf();
            self.merged.lemma_wf();
            lemma_start_index(self.all_rows(), self.start);
            lemma_end_index(self.all_rows(), self.end);
        }
        if self.valid() {
            self.merged.key()
        } else {
            None
        }
    }

    fn value(&self) -> (value: Option<&str>) {
        proof {
            self.lemma_wf();
            self.merged.lemma_wf();
            lemma_start_index(self.all_rows(), self.start);
            lemma_end_index(self.all_rows(), self.end);
        }
        if self.valid() {
            self.merged.value()
        } else {
            None
        }
    }
}

/// A key within the start bound belongs at or behind the start, and any other before it.
proof fn lemma_lower_bound_start(rows: Seq<Row>, start: Bound, target: Seq<char>)
    requires
        sorted(rows),
    ensures
        if within_start(start, target) {
            start_index(rows, start) <= lower_bound(rows, target)
        } else {
            lower_bound(rows, target) <= start_index(rows, start)
        },
{
    broadcast use group_key_order;

    let s = start_index(rows, start);
    let at = lower_bound(rows, target);
    lemma_start_index(rows, start);
    lemma_lower_bound(rows, target);
    if within_start(start, target) && at < s {
        assert(!within_start(start, rows[at].0));
    }
    if !within_start(start, target) && s < at {
        assert(within_start(start, rows[s].0));
    }
}

}
