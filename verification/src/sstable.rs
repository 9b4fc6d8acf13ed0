//! Table files: immutable, sorted, split into blocks that a sparse index locates.
use crate::bloom::{decoded_words, views, BloomFilter};
use crate::bytes::{copy_range, lemma_u32_at_same, push_bytes, push_u32, read_u32, u32_at};
use crate::checksum::crc32;
use crate::error::{PebbleError, Result};
use crate::keymap::{find_in, rows_of, KeyMap, Record};
use crate::keys::{group_key_order, key_le, key_lt, str_eq, str_le, str_lt};
use crate::records::{checked_record_size, lemma_record_layout, push_record, record_bytes, row_of, OP_DELETE, OP_SET};
use crate::rows::{has_key, rows_get, sorted, Row};
use crate::table::{
    after_rows, after_spans, block_offset, block_start, blocks_of, bloom_region, concat_rows, filter_bytes_has,
    filter_covers, frame_problem, index_bytes, index_region, law_blocks_partition_rows, lemma_block_keys_ascend,
    lemma_block_rows, lemma_blocks_problem, lemma_contiguous_bounds, lemma_parsed_block, lemma_parsed_block_count,
    lemma_parsed_len, lemma_parsed_spans, lemma_row_in_block, lemma_rows_bytes_concat, parse_blocks, parse_contents,
    parse_index, parse_record, parse_records, parse_span, parse_table, parsed_len, row_keys, rows_bytes, span_bytes,
    spans_end, spans_of, table_bytes, table_len, valid_bloom, DEFAULT_BLOCK_SIZE, FOOTER_SIZE, HEADER_SIZE, MAGIC, Span,
    TableParts, VERSION,
};
use crate::text::{byte_len, decimal_string, string_from_utf8};
use vstd::prelude::*;
use vstd::utf8::encode_utf8;

verus! {

#[derive(Debug, Clone, PartialEq)]
pub enum SSTableEntry {
    Value(String),
    Tombstone,
}

impl Record for SSTableEntry {
    open spec fn stored(&self) -> Option<Seq<char>> {
        match self {
            SSTableEntry::Value(value) => Some(value@),
            SSTableEntry::Tombstone => None,
        }
    }
}

impl SSTableEntry {
    /// The value, unless the entry is a tombstone.
    pub fn value(&self) -> (value: Option<&str>)
        ensures
            match value {
                Some(text) => self.stored() == Some(text@),
                None => self.stored() is None,
            },
    {
        match self {
            SSTableEntry::Value(value) => Some(value.as_str()),
            SSTableEntry::Tombstone => None,
        }
    }

    /// The same entry again.
    pub fn copy(&self) -> (copy: Self)
        ensures
            copy.stored() == self.stored(),
    {
        match self {
            SSTableEntry::Value(value) => SSTableEntry::Value(value.clone()),
            SSTableEntry::Tombstone => SSTableEntry::Tombstone,
        }
    }
}

/// Where a block starts in the file, how long it is, and which row is its first.
struct BlockPlan {
    first: usize,
    offset: u32,
    size: u32,
}

spec fn plan_fits(plan: BlockPlan, rows: Seq<Row>, blocks: Seq<Seq<Row>>, j: int) -> bool {
    &&& plan.first < rows.len()
    &&& blocks[j].len() > 0
    &&& rows[plan.first as int].0 == blocks[j][0].0
    &&& plan.offset == block_offset(blocks, j)
    &&& plan.size == rows_bytes(blocks[j]).len()
}

spec fn plans_fit(plans: Seq<BlockPlan>, rows: Seq<Row>, blocks: Seq<Seq<Row>>) -> bool {
    &&& plans.len() == blocks.len()
    &&& forall|j: int| 0 <= j < plans.len() ==> plan_fits(#[trigger] plans[j], rows, blocks, j)
}

proof fn lemma_rows_bytes_grow(rows: Seq<Row>, n: int)
    requires
        0 <= n <= rows.len(),
    ensures
        rows_bytes(rows.take(n)).len() <= rows_bytes(rows).len(),
{
    assert(rows.take(n) + rows.skip(n) =~= rows);
    lemma_rows_bytes_concat(rows.take(n), rows.skip(n));
}

/// The records of the entries, cut into blocks; `None` when they take more than 32-bit offsets
/// can reach.
fn encode_blocks(entries: &KeyMap<SSTableEntry>, block_size: u32) -> (encoded: Option<(Vec<u8>, Vec<BlockPlan>)>)
    ensures
        encoded is Some <==> 20 + rows_bytes(entries.rows()).len() <= u32::MAX,
        encoded matches Some((body, plans)) ==> {
            &&& body@ == rows_bytes(entries.rows())
            &&& plans_fit(plans@, entries.rows(), blocks_of(entries.rows(), block_size as int))
        },
{
    let ghost rows = entries.rows();
    let mut body: Vec<u8> = Vec::new();
    let mut plans: Vec<BlockPlan> = Vec::new();
    let mut i: usize = 0;
    proof {
        assert(rows.take(0) =~= Seq::<Row>::empty());
    }
    while i < entries.len()
        invariant
            rows == entries.rows(),
            i <= rows.len(),
            body@ == rows_bytes(rows.take(i as int)),
            20 + body@.len() <= u32::MAX,
            plans_fit(plans@, rows, blocks_of(rows.take(i as int), block_size as int)),
        decreases rows.len() - i,
    {
        let entry = entries.entry(i);
        let key = entry.0.as_str();
        let value = entry.1.value();
        let ghost row = rows[i as int];
        let ghost before = blocks_of(rows.take(i as int), block_size as int);
        let ghost after = blocks_of(rows.take(i + 1), block_size as int);
        proof {
            assert(row_of(key@, value) == row);
            assert(rows.take(i + 1).drop_last() =~= rows.take(i as int));
            lemma_record_layout(row);
            lemma_rows_bytes_grow(rows, i + 1);
            law_blocks_partition_rows(rows.take(i as int), block_size as int);
        }
        let size: u32 = match checked_record_size(key, value) {
            Some(size) => size,
            None => {
                return None;
            },
        };
        if 20 + body.len() as u64 + size as u64 > 0xFFFF_FFFF {
            return None;
        }
        let count: usize = plans.len();
        if count > 0 && plans[count - 1].size as u64 + size as u64 <= block_size as u64 {
            let last = BlockPlan {
                first: plans[count - 1].first,
                offset: plans[count - 1].offset,
                size: plans[count - 1].size + size,
            };
            proof {
                let n = count - 1;
                assert(plan_fits(plans@[n as int], rows, before, n as int));
                assert(after == before.update(n as int, before.last().push(row)));
                assert(after[n as int].drop_last() =~= before[n as int]);
                assert(after.take(n as int) =~= before.take(n as int));
                assert(plan_fits(last, rows, after, n as int));
                assert forall|j: int| 0 <= j < n implies plan_fits(#[trigger] plans@[j], rows, after, j) by {
                    assert(plan_fits(plans@[j], rows, before, j));
                    assert(after.take(j) =~= before.take(j));
                }
            }
            plans[count - 1] = last;
        } else {
            let plan = BlockPlan { first: i, offset: 20 + body.len() as u32, size };
            proof {
                assert(count > 0 ==> plan_fits(plans@[count - 1], rows, before, count - 1));
                assert(after == before.push(seq![row]));
                assert(seq![row].drop_last() =~= Seq::<Row>::empty());
                assert(rows_bytes(Seq::<Row>::empty()) =~= Seq::<u8>::empty());
                assert(rows_bytes(seq![row]) =~= record_bytes(row));
                assert(after.take(before.len() as int) =~= before);
                assert(plan_fits(plan, rows, after, before.len() as int));
                assert forall|j: int| 0 <= j < count implies plan_fits(#[trigger] plans@[j], rows, after, j) by {
                    assert(plan_fits(plans@[j], rows, before, j));
                    assert(after.take(j) =~= before.take(j));
                }
            }
            plans.push(plan);
        }
        push_record(&mut body, key, value);
        i = i + 1;
    }
    proof {
        assert(rows.take(i as int) =~= rows);
    }
    Some((body, plans))
}

/// The sparse index of the planned blocks.
fn encode_index(entries: &KeyMap<SSTableEntry>, plans: &Vec<BlockPlan>, Ghost(blocks): Ghost<Seq<Seq<Row>>>) -> (index:
    Vec<u8>)
    requires
        plans_fit(plans@, entries.rows(), blocks),
        rows_bytes(entries.rows()).len() <= u32::MAX,
    ensures
        index@ == index_bytes(spans_of(blocks)),
{
    let ghost spans = spans_of(blocks);
    let mut index: Vec<u8> = Vec::new();
    let mut j: usize = 0;
    proof {
        assert(spans.take(0) =~= Seq::<Span>::empty());
    }
    while j < plans.len()
        invariant
            j <= plans@.len(),
            plans_fit(plans@, entries.rows(), blocks),
            rows_bytes(entries.rows()).len() <= u32::MAX,
            spans == spans_of(blocks),
            index@ == index_bytes(spans.take(j as int)),
        decreases plans@.len() - j,
    {
        let plan = &plans[j];
        proof {
            assert(plan_fits(plans@[j as int], entries.rows(), blocks, j as int));
            lemma_key_len(entries.rows(), plan.first as int);
        }
        let key = entries.entry(plan.first).0.as_str();
        let ghost before = index@;
        push_u32(&mut index, byte_len(key) as u32);
        push_bytes(&mut index, key_as_bytes(key));
        push_u32(&mut index, plan.offset);
        push_u32(&mut index, plan.size);
        proof {
            assert(index@ =~= before + span_bytes(spans[j as int]));
            assert(spans.take(j + 1).drop_last() =~= spans.take(j as int));
        }
        j = j + 1;
    }
    proof {
        assert(spans.take(j as int) =~= spans);
    }
    index
}

fn key_as_bytes(key: &str) -> (bytes: &[u8])
    ensures
        bytes@ == encode_utf8(key@),
{
    key.as_bytes()
}

proof fn lemma_key_len(rows: Seq<Row>, i: int)
    requires
        0 <= i < rows.len(),
    ensures
        encode_utf8(rows[i].0).len() <= rows_bytes(rows).len(),
{
    lemma_rows_bytes_grow(rows, i + 1);
    assert(rows.take(i + 1).last() == rows[i]);
    lemma_record_layout(rows[i]);
}

/// The bloom filter for the keys of the entries.
fn key_filter(entries: &KeyMap<SSTableEntry>) -> (filter: Vec<u8>)
    ensures
        filter@ == crate::bloom::filter_bytes(row_keys(entries.rows())),
{
    let mut keys: Vec<&str> = Vec::new();
    let mut i: usize = 0;
    while i < entries.len()
        invariant
            i <= entries.rows().len(),
            views(keys@) =~= row_keys(entries.rows()).take(i as int),
        decreases entries.rows().len() - i,
    {
        let key = entries.entry(i).0.as_str();
        let ghost before = keys@;
        keys.push(key);
        proof {
            assert(views(keys@) =~= views(before).push(key@));
            assert(row_keys(entries.rows()).take(i + 1) =~= row_keys(entries.rows()).take(i as int).push(key@));
        }
        i = i + 1;
    }
    proof {
        assert(views(keys@) =~= row_keys(entries.rows()));
    }
    BloomFilter::from_entries(keys.as_slice()).encode()
}

fn corrupt<T>(problem: &str) -> (result: Result<T>)
    ensures
        result matches Err(PebbleError::SSTableCorruption(text)) && text@ == problem@,
{
    Err(PebbleError::SSTableCorruption(problem.to_owned()))
}

/// The file that holds `entries`, in blocks of the default size.
pub fn write_sstable(entries: &KeyMap<SSTableEntry>) -> (result: Result<Vec<u8>>)
    ensures
        if table_len(entries.rows(), DEFAULT_BLOCK_SIZE) <= u32::MAX {
            result matches Ok(data) && data@ == table_bytes(entries.rows(), DEFAULT_BLOCK_SIZE)
        } else {
            result matches Err(PebbleError::SSTableCorruption(text)) && text@ == "table too large"@
        },
{
    SSTable::write_sstable_with_block_size(entries, DEFAULT_BLOCK_SIZE)
}

/// What the index says of a block.
pub struct IndexEntry {
    first_key: String,
    offset: usize,
    size: usize,
}

impl IndexEntry {
    pub closed spec fn span(&self) -> Span {
        Span { first_key: self.first_key@, offset: self.offset as int, size: self.size as int }
    }
}

pub open spec fn index_spans(index: Seq<IndexEntry>) -> Seq<Span> {
    Seq::new(index.len(), |i: int| index[i].span())
}

/// One record of a block.
struct ParsedRecord {
    key: String,
    entry: SSTableEntry,
    end: usize,
}

/// Reads the record at `at` in a block that ends at `end`.
fn read_record(data: &[u8], at: usize, end: usize) -> (result: Result<ParsedRecord>)
    requires
        at < end <= data@.len(),
    ensures
        match parse_record(data@.subrange(at as int, end as int)) {
            Ok(row) => result matches Ok(record) && (record.key@, record.entry.stored()) == row && record.end == at
                + parsed_len(data@.subrange(at as int, end as int)),
            Err(problem) => result matches Err(PebbleError::SSTableCorruption(text)) && text@ == problem,
        },
{
    let ghost rest = data@.subrange(at as int, end as int);
    proof {
        reveal(parse_record);
    }
    if end - at < 9 {
        return corrupt("unexpected end of records");
    }
    let op: u8 = data[at];
    let key_len: u32 = read_u32(data, at + 1);
    let value_len: u32 = read_u32(data, at + 5);
    proof {
        lemma_u32_at_same(rest, 1, data@, at + 1);
        lemma_u32_at_same(rest, 5, data@, at + 5);
    }
    if ((end - at) as u64) < 9 + key_len as u64 + value_len as u64 {
        return corrupt("record data exceeds file");
    }
    let key_end: usize = at + 9 + key_len as usize;
    let value_end: usize = key_end + value_len as usize;
    proof {
        assert(data@.subrange(at + 9, key_end as int) =~= rest.subrange(9, 9 + key_len));
        assert(data@.subrange(key_end as int, value_end as int) =~= rest.subrange(
            9 + key_len,
            9 + key_len + value_len,
        ));
    }
    let key = match string_from_utf8(copy_range(data, at + 9, key_end)) {
        Some(key) => key,
        None => {
            return corrupt("invalid UTF-8 in key");
        },
    };
    if op == OP_SET {
        match string_from_utf8(copy_range(data, key_end, value_end)) {
            Some(value) => Ok(ParsedRecord { key, entry: SSTableEntry::Value(value), end: value_end }),
            None => corrupt("invalid UTF-8 in value"),
        }
    } else if op == OP_DELETE {
        Ok(ParsedRecord { key, entry: SSTableEntry::Tombstone, end: value_end })
    } else {
        Err(PebbleError::SSTableCorruption("unknown op: ".to_owned().concat(decimal_string(op as u64).as_str())))
    }
}

/// Reads the records that fill `data[from..to]`.
fn read_records(data: &[u8], from: usize, to: usize) -> (result: Result<Vec<(String, SSTableEntry)>>)
    requires
        from <= to <= data@.len(),
    ensures
        match parse_records(data@.subrange(from as int, to as int)) {
            Ok(rows) => result matches Ok(entries) && rows_of(entries@) == rows,
            Err(problem) => result matches Err(PebbleError::SSTableCorruption(text)) && text@ == problem,
        },
{
    let ghost region = data@.subrange(from as int, to as int);
    let mut entries: Vec<(String, SSTableEntry)> = Vec::new();
    let mut at: usize = from;
    proof {
        assert(rows_of(entries@) =~= Seq::<Row>::empty());
        if let Ok(rows) = parse_records(region) {
            assert(Seq::<Row>::empty() + rows =~= rows);
        }
    }
    while at < to
        invariant
            from <= at <= to <= data@.len(),
            region == data@.subrange(from as int, to as int),
            parse_records(region) == after_rows(
                rows_of(entries@),
                parse_records(data@.subrange(at as int, to as int)),
            ),
        decreases to - at,
    {
        let ghost rest = data@.subrange(at as int, to as int);
        let record = read_record(data, at, to)?;
        proof {
            lemma_parsed_len(rest);
            let row = (record.key@, record.entry.stored());
            assert(rest.skip(parsed_len(rest)) =~= data@.subrange(record.end as int, to as int));
            assert(rows_of(entries@.push((record.key, record.entry))) =~= rows_of(entries@).push(row));
            if let Ok(more) = parse_records(data@.subrange(record.end as int, to as int)) {
                assert(rows_of(entries@) + (seq![row] + more) =~= rows_of(entries@).push(row) + more);
            }
        }
        entries.push((record.key, record.entry));
        at = record.end;
    }
    proof {
        assert(data@.subrange(at as int, to as int) =~= Seq::<u8>::empty());
        assert(rows_of(entries@) + Seq::<Row>::empty() =~= rows_of(entries@));
    }
    Ok(entries)
}

/// Reads the index entry at `at` in a region that ends at `end`, and where the next one starts.
fn read_span(data: &[u8], at: usize, end: usize, offset: u64) -> (found: Option<(IndexEntry, usize)>)
    requires
        at <= end <= data@.len(),
    ensures
        match parse_span(data@.subrange(at as int, end as int), offset as int) {
            Some(span) => found matches Some((entry, next)) && entry.span() == span && next == at + 12 + u32_at(
                data@.subrange(at as int, end as int),
                0,
            ) && next <= end && entry.size <= u32::MAX && entry.offset <= u32::MAX,
            None => found is None,
        },
{
    let ghost rest = data@.subrange(at as int, end as int);
    proof {
        reveal(parse_span);
    }
    if end - at < 12 {
        return None;
    }
    let key_len: u32 = read_u32(data, at);
    proof {
        lemma_u32_at_same(rest, 0, data@, at as int);
    }
    if ((end - at) as u64) < 12 + key_len as u64 {
        return None;
    }
    let key_end: usize = at + 4 + key_len as usize;
    let block_offset: u32 = read_u32(data, key_end);
    let size: u32 = read_u32(data, key_end + 4);
    proof {
        lemma_u32_at_same(rest, 4 + key_len, data@, key_end as int);
        lemma_u32_at_same(rest, 8 + key_len, data@, key_end + 4);
        assert(data@.subrange(at + 4, key_end as int) =~= rest.subrange(4, 4 + key_len));
    }
    let first_key = match string_from_utf8(copy_range(data, at + 4, key_end)) {
        Some(key) => key,
        None => {
            return None;
        },
    };
    if block_offset as u64 != offset {
        return None;
    }
    Some((IndexEntry { first_key, offset: block_offset as usize, size: size as usize }, key_end + 8))
}

/// Reads the index entries that fill `data[from..to]`.
fn read_index(data: &[u8], from: usize, to: usize, count: u32) -> (found: Option<Vec<IndexEntry>>)
    requires
        from <= to <= data@.len(),
    ensures
        match parse_index(data@.subrange(from as int, to as int), count as nat, 20) {
            Some(spans) => found matches Some(index) && index_spans(index@) == spans,
            None => found is None,
        },
        found matches Some(index) ==> forall|i: int| 0 <= i < index@.len() ==> (#[trigger] index@[i]).span().offset
            + index@[i].span().size <= u64::MAX,
{
    let ghost region = data@.subrange(from as int, to as int);
    let mut index: Vec<IndexEntry> = Vec::new();
    let mut at: usize = from;
    let mut left: u32 = count;
    let mut offset: u64 = 20;
    proof {
        assert(index_spans(index@) =~= Seq::<Span>::empty());
        if let Some(spans) = parse_index(region, count as nat, 20) {
            assert(Seq::<Span>::empty() + spans =~= spans);
        }
    }
    while left > 0
        invariant
            from <= at <= to <= data@.len(),
            region == data@.subrange(from as int, to as int),
            offset <= 2 * u32::MAX,
            forall|i: int| 0 <= i < index@.len() ==> (#[trigger] index@[i]).span().offset + index@[i].span().size
                <= u64::MAX,
            parse_index(region, count as nat, 20) == after_spans(
                index_spans(index@),
                parse_index(data@.subrange(at as int, to as int), left as nat, offset as int),
            ),
        decreases left,
    {
        let ghost rest = data@.subrange(at as int, to as int);
        let (entry, next) = match read_span(data, at, to, offset) {
            Some(found) => found,
            None => {
                return None;
            },
        };
        proof {
            let span = entry.span();
            reveal(parse_span);
            assert(rest.skip(12 + u32_at(rest, 0)) =~= data@.subrange(next as int, to as int));
            assert(index_spans(index@.push(entry)) =~= index_spans(index@).push(span));
            if let Some(more) = parse_index(
                data@.subrange(next as int, to as int),
                (left - 1) as nat,
                offset + span.size,
            ) {
                assert(index_spans(index@) + (seq![span] + more) =~= index_spans(index@).push(span) + more);
            }
        }
        offset = offset + entry.size as u64;
        index.push(entry);
        at = next;
        left = left - 1;
    }
    proof {
        assert(data@.subrange(at as int, to as int).len() == to - at);
        assert(index_spans(index@) + Seq::<Span>::empty() =~= index_spans(index@));
    }
    if at == to {
        Some(index)
    } else {
        None
    }
}

/// What a file holds, parsed.
struct ParsedFile {
    index: Vec<IndexEntry>,
    entries: Vec<(String, SSTableEntry)>,
    bloom: BloomFilter,
}

/// Whether a filter is the one that `bytes` encode.
pub open spec fn is_filter(bloom: BloomFilter, bytes: Seq<u8>) -> bool {
    &&& bloom.wf()
    &&& bloom.num_bits() == u32_at(bytes, 0)
    &&& bloom.num_hashes() == u32_at(bytes, 4)
    &&& bloom.words() == decoded_words(bytes)
}

/// Checks the frame of a file.
fn check_frame(data: &[u8]) -> (result: Result<()>)
    ensures
        match frame_problem(data@) {
            Some(problem) => result matches Err(PebbleError::SSTableCorruption(text)) && text@ == problem,
            None => result is Ok,
        },
{
    if data.len() < HEADER_SIZE + FOOTER_SIZE {
        return corrupt("file too short");
    }
    let len: usize = data.len();
    if read_u32(data, 0) != MAGIC {
        return corrupt("invalid magic number");
    }
    let version: u32 = read_u32(data, 4);
    if version != VERSION {
        return Err(
            PebbleError::SSTableCorruption(
                "unsupported version: ".to_owned().concat(decimal_string(version as u64).as_str()),
            ),
        );
    }
    let checked = vstd::slice::slice_subrange(data, 0, len - 4);
    proof {
        assert(checked@ =~= data@.take(len - 4));
    }
    if read_u32(data, len - 4) != crc32(checked) {
        return corrupt("checksum mismatch");
    }
    let index_offset: u64 = read_u32(data, len - 20) as u64;
    let index_size: u64 = read_u32(data, len - 16) as u64;
    let bloom_offset: u64 = read_u32(data, len - 12) as u64;
    let bloom_size: u64 = read_u32(data, len - 8) as u64;
    if index_offset < 20 || bloom_offset != index_offset + index_size || bloom_offset + bloom_size != (len - 20) as u64 {
        return corrupt("invalid footer");
    }
    Ok(())
}

/// Reads the bloom filter that stands, behind its length, in `data[from..to]`.
fn read_bloom(data: &[u8], from: usize, to: usize) -> (found: Option<BloomFilter>)
    requires
        from <= to <= data@.len(),
    ensures
        found is Some <==> valid_bloom(data@.subrange(from as int, to as int)),
        found matches Some(bloom) ==> is_filter(bloom, data@.subrange(from as int, to as int).skip(4)),
{
    let ghost region = data@.subrange(from as int, to as int);
    if to - from < 12 {
        return None;
    }
    let filter_len: u32 = read_u32(data, from);
    proof {
        lemma_u32_at_same(region, 0, data@, from as int);
    }
    if filter_len as u64 != (to - from - 4) as u64 {
        return None;
    }
    let filter = vstd::slice::slice_subrange(data, from + 4, to);
    proof {
        assert(filter@ =~= region.skip(4));
    }
    if read_u32(filter, 4) > 0 && read_u32(filter, 0) == 0 {
        return None;
    }
    BloomFilter::decode(filter)
}

/// Reads all blocks that the index tells of.
fn read_blocks(data: &[u8], index: &Vec<IndexEntry>) -> (result: Result<Vec<(String, SSTableEntry)>>)
    requires
        forall|i: int| 0 <= i < index@.len() ==> (#[trigger] index@[i]).span().offset + index@[i].span().size
            <= data@.len(),
    ensures
        match parse_blocks(data@, index_spans(index@)) {
            Ok(blocks) => result matches Ok(entries) && rows_of(entries@) == concat_rows(blocks),
            Err(problem) => result matches Err(PebbleError::SSTableCorruption(text)) && text@ == problem,
        },
{
    let ghost spans = index_spans(index@);
    let mut entries: Vec<(String, SSTableEntry)> = Vec::new();
    let mut b: usize = 0;
    proof {
        assert(spans.take(0) =~= Seq::<Span>::empty());
        assert(rows_of(entries@) =~= Seq::<Row>::empty());
    }
    while b < index.len()
        invariant
            b <= index@.len(),
            spans == index_spans(index@),
            forall|i: int| 0 <= i < index@.len() ==> (#[trigger] index@[i]).span().offset + index@[i].span().size
                <= data@.len(),
            parse_blocks(data@, spans.take(b as int)) matches Ok(blocks) && concat_rows(blocks) == rows_of(entries@),
        decreases index@.len() - b,
    {
        let ghost blocks = parse_blocks(data@, spans.take(b as int))->Ok_0;
        let entry = &index[b];
        proof {
            assert(index@[b as int].span() == spans[b as int]);
            assert(spans.take(b + 1).drop_last() =~= spans.take(b as int));
            assert(data.len() <= usize::MAX);
        }
        let mut block = match read_records(data, entry.offset, entry.offset + entry.size) {
            Ok(block) => block,
            Err(error) => {
                proof {
                    lemma_blocks_problem(data@, spans, b + 1);
                }
                return Err(error);
            },
        };
        let ghost rows = rows_of(block@);
        if block.len() == 0 || !str_eq(block[0].0.as_str(), entry.first_key.as_str()) {
            proof {
                lemma_blocks_problem(data@, spans, b + 1);
            }
            return corrupt("index key mismatch");
        }
        proof {
            assert(blocks.push(rows).drop_last() =~= blocks);
            assert(rows_of(entries@ + block@) =~= rows_of(entries@) + rows);
        }
        entries.append(&mut block);
        b = b + 1;
    }
    proof {
        assert(spans.take(b as int) =~= spans);
    }
    Ok(entries)
}

/// Whether the keys ascend strictly.
fn keys_ascend(entries: &Vec<(String, SSTableEntry)>) -> (ascend: bool)
    ensures
        ascend == sorted(rows_of(entries@)),
{
    let ghost rows = rows_of(entries@);
    let mut i: usize = 1;
    while i < entries.len()
        invariant
            rows == rows_of(entries@),
            1 <= i,
            i <= entries@.len() || (i == 1 && entries@.len() == 0),
            sorted(rows.take(i as int)) || entries@.len() == 0,
        decreases entries@.len() - i,
    {
        broadcast use group_key_order;

        if !str_lt(entries[i - 1].0.as_str(), entries[i].0.as_str()) {
            proof {
                assert(!key_lt(rows[i - 1].0, rows[i as int].0));
            }
            return false;
        }
        proof {
            let upto = rows.take(i + 1);
            let before = rows.take(i as int);
            assert forall|a: int, c: int| 0 <= a < c < upto.len() implies key_lt(
                #[trigger] upto[a].0,
                #[trigger] upto[c].0,
            ) by {
                assert(key_lt(rows[i - 1].0, rows[i as int].0));
                if c < i {
                    assert(key_lt(before[a].0, before[c].0));
                } else if a < i - 1 {
                    assert(key_lt(before[a].0, before[i - 1].0));
                }
            }
        }
        i = i + 1;
    }
    proof {
        if entries@.len() > 0 {
            assert(rows.take(i as int) =~= rows);
        }
    }
    true
}

/// Whether the filter admits every key.
fn covers(bloom: &BloomFilter, entries: &Vec<(String, SSTableEntry)>, Ghost(filter): Ghost<Seq<u8>>) -> (covered: bool)
    requires
        is_filter(*bloom, filter),
    ensures
        covered == filter_covers(filter, rows_of(entries@)),
{
    let ghost rows = rows_of(entries@);
    let mut i: usize = 0;
    while i < entries.len()
        invariant
            rows == rows_of(entries@),
            is_filter(*bloom, filter),
            i <= entries@.len(),
            forall|j: int| 0 <= j < i ==> filter_bytes_has(filter, (#[trigger] rows[j]).0),
        decreases entries@.len() - i,
    {
        if !bloom.might_contain(entries[i].0.as_str()) {
            assert(!filter_bytes_has(filter, rows[i as int].0));
            return false;
        }
        i = i + 1;
    }
    true
}

/// Reads and checks the blocks of a file whose index and bloom filter are in order.
fn read_contents(data: &[u8], index: Vec<IndexEntry>, bloom: BloomFilter, Ghost(filter): Ghost<Seq<u8>>) -> (result:
    Result<ParsedFile>)
    requires
        data@.len() >= 12,
        is_filter(bloom, filter),
        forall|i: int| 0 <= i < index@.len() ==> (#[trigger] index@[i]).span().offset + index@[i].span().size
            <= data@.len(),
    ensures
        match parse_contents(data@, index_spans(index@), filter) {
            Ok(parts) => {
                &&& result matches Ok(file)
                &&& index_spans(file.index@) == parts.spans
                &&& rows_of(file.entries@) == concat_rows(parts.blocks)
                &&& is_filter(file.bloom, parts.filter)
            },
            Err(problem) => result matches Err(PebbleError::SSTableCorruption(text)) && text@ == problem,
        },
{
    let entries = read_blocks(data, &index)?;
    if !keys_ascend(&entries) {
        return corrupt("keys out of order");
    }
    if entries.len() as u64 != read_u32(data, 8) as u64 {
        return corrupt("record count mismatch");
    }
    if !covers(&bloom, &entries, Ghost(filter)) {
        return corrupt("bloom filter misses a key");
    }
    Ok(ParsedFile { index, entries, bloom })
}

/// Where the last block of an index ends.
fn index_end(index: &Vec<IndexEntry>) -> (end: u64)
    requires
        forall|i: int| 0 <= i < index@.len() ==> (#[trigger] index@[i]).span().offset + index@[i].span().size
            <= u64::MAX,
    ensures
        end == spans_end(index_spans(index@)),
{
    let count: usize = index.len();
    if count == 0 {
        20
    } else {
        proof {
            assert(index_spans(index@).last() == index@[count - 1].span());
        }
        index[count - 1].offset as u64 + index[count - 1].size as u64
    }
}

/// Parses a table file.
fn parse_file(data: &[u8]) -> (result: Result<ParsedFile>)
    ensures
        match parse_table(data@) {
            Ok(parts) => {
                &&& result matches Ok(file)
                &&& index_spans(file.index@) == parts.spans
                &&& rows_of(file.entries@) == concat_rows(parts.blocks)
                &&& is_filter(file.bloom, parts.filter)
            },
            Err(problem) => result matches Err(PebbleError::SSTableCorruption(text)) && text@ == problem,
        },
{
    check_frame(data)?;
    let len: usize = data.len();
    let index_offset: usize = read_u32(data, len - 20) as usize;
    let bloom_offset: usize = read_u32(data, len - 12) as usize;
    let index = match read_index(data, index_offset, bloom_offset, read_u32(data, 12)) {
        Some(index) => index,
        None => {
            return corrupt("invalid index");
        },
    };
    let ghost spans = index_spans(index@);
    proof {
        lemma_parsed_spans(index_region(data@), u32_at(data@, 12) as nat, 20);
    }
    if index_end(&index) != index_offset as u64 {
        return corrupt("invalid index");
    }
    let bloom = match read_bloom(data, bloom_offset, len - 20) {
        Some(bloom) => bloom,
        None => {
            return corrupt("invalid bloom filter");
        },
    };
    proof {
        assert forall|i: int| 0 <= i < index@.len() implies (#[trigger] index@[i]).span().offset
            + index@[i].span().size <= data@.len() by {
            lemma_contiguous_bounds(spans, 20, i);
            assert(spans[i] == index@[i].span());
        }
    }
    read_contents(data, index, bloom, Ghost(bloom_region(data@).skip(4)))
}

/// The entries of the table file whose bytes are `data`.
pub fn read_sstable(data: &[u8]) -> (result: Result<KeyMap<SSTableEntry>>)
    ensures
        match parse_table(data@) {
            Ok(parts) => result matches Ok(entries) && entries.wf() && entries.rows() == concat_rows(parts.blocks),
            Err(problem) => result matches Err(PebbleError::SSTableCorruption(text)) && text@ == problem,
        },
{
    let file = parse_file(data)?;
    Ok(KeyMap::from_sorted(file.entries))
}

/// A table file held in memory.
pub struct SSTable {
    pub id: u64,
    path: String,
    data: Vec<u8>,
    index: Vec<IndexEntry>,
    bloom: BloomFilter,
    record_count: usize,
    last_key: Option<String>,
}

impl SSTable {
    pub closed spec fn bytes(&self) -> Seq<u8> {
        self.data@
    }

    pub closed spec fn table_id(&self) -> u64 {
        self.id
    }

    pub closed spec fn path_text(&self) -> Seq<char> {
        self.path@
    }

    pub open spec fn parts(&self) -> TableParts {
        parse_table(self.bytes())->Ok_0
    }

    pub open spec fn blocks(&self) -> Seq<Seq<Row>> {
        self.parts().blocks
    }

    /// The contents, sorted by key.
    pub open spec fn rows(&self) -> Seq<Row> {
        concat_rows(self.blocks())
    }

    /// The bytes are a table file, and what was read from it is at hand.
    pub closed spec fn wf(&self) -> bool {
        &&& parse_table(self.data@) is Ok
        &&& index_spans(self.index@) == self.parts().spans
        &&& is_filter(self.bloom, self.parts().filter)
        &&& self.record_count == self.rows().len()
        &&& match self.last_key {
            Some(key) => self.rows().len() > 0 && key@ == self.rows().last().0,
            None => self.rows().len() == 0,
        }
    }

    /// Whether the bloom filter admits a key.
    pub open spec fn filter_admits(&self, key: Seq<char>) -> bool {
        filter_bytes_has(self.parts().filter, key)
    }

    /// What holds of a table's contents.
    pub proof fn lemma_wf(&self)
        requires
            self.wf(),
        ensures
            parse_table(self.bytes()) is Ok,
            sorted(self.rows()),
            forall|i: int| 0 <= i < self.blocks().len() ==> (#[trigger] self.blocks()[i]).len() > 0,
            forall|key: Seq<char>| #[trigger] has_key(self.rows(), key) ==> self.filter_admits(key),
    {
        self.lemma_blocks();
        assert forall|key: Seq<char>| #[trigger] has_key(self.rows(), key) implies self.filter_admits(key) by {
            let i = crate::rows::index_of_key(self.rows(), key);
            assert(filter_bytes_has(self.parts().filter, self.rows()[i].0));
        }
    }

    proof fn lemma_blocks(&self)
        requires
            self.wf(),
        ensures
            sorted(self.rows()),
            self.index@.len() == self.blocks().len(),
            forall|i: int| 0 <= i < self.blocks().len() ==> (#[trigger] self.blocks()[i]).len() > 0,
            forall|i: int| 0 <= i < self.blocks().len() ==> self.blocks()[i][0].0 == (#[trigger] self.index@[i]).span().first_key,
    {
        let spans = self.parts().spans;
        lemma_parsed_block_count(self.data@, spans);
        assert forall|i: int| 0 <= i < self.blocks().len() implies (#[trigger] self.blocks()[i]).len() > 0
            && self.blocks()[i][0].0 == self.index@[i].span().first_key by {
            lemma_parsed_block(self.data@, spans, i);
            assert(spans[i] == self.index@[i].span());
        }
    }

    proof fn lemma_block_region(&self, i: int)
        requires
            self.wf(),
            0 <= i < self.index@.len(),
        ensures
            ({
                let span = self.index@[i].span();
                &&& span.offset + span.size <= self.data@.len()
                &&& parse_records(self.data@.subrange(span.offset, span.offset + span.size)) == Ok::<
                    Seq<Row>,
                    Seq<char>,
                >(self.blocks()[i])
            }),
    {
        let spans = self.parts().spans;
        assert(spans[i] == self.index@[i].span());
        lemma_parsed_block(self.data@, spans, i);
        lemma_parsed_spans(index_region(self.data@), u32_at(self.data@, 12) as nat, 20);
        lemma_contiguous_bounds(spans, 20, i);
    }

    /// The table in the file `path` whose bytes are `data`.
    pub fn load(id: u64, path: String, data: Vec<u8>) -> (result: Result<Self>)
        ensures
            match parse_table(data@) {
                Ok(parts) => result matches Ok(table) && table.wf() && table.table_id() == id && table.path_text() == path@
                    && table.bytes() == data@,
                Err(problem) => result matches Err(PebbleError::SSTableCorruption(text)) && text@ == problem,
            },
    {
        let file = parse_file(data.as_slice())?;
        let record_count: usize = file.entries.len();
        let last_key = if record_count == 0 {
            None
        } else {
            Some(file.entries[record_count - 1].0.clone())
        };
        Ok(SSTable { id, path, data, index: file.index, bloom: file.bloom, record_count, last_key })
    }

    /// What the table stores under `key`.
    pub fn get(&self, key: &str) -> (found: Option<SSTableEntry>)
        requires
            self.wf(),
        ensures
            match found {
                Some(entry) => rows_get(self.rows(), key@) == Some(entry.stored()),
                None => rows_get(self.rows(), key@) is None,
            },
    {
        proof {
            self.lemma_blocks();
        }
        let at = match self.find_block(key) {
            Some(at) => at,
            None => {
                proof {
                    self.lemma_absent(key@);
                }
                return None;
            },
        };
        let block = self.block(at);
        proof {
            self.lemma_only_block(at as int, key@);
        }
        match find_in(&block, key) {
            Some(i) => Some(block[i].1.copy()),
            None => None,
        }
    }

    /// A key below every block is not in the table.
    proof fn lemma_absent(&self, key: Seq<char>)
        requires
            self.wf(),
            forall|b: int| 0 <= b < self.blocks().len() ==> key_lt(key, (#[trigger] self.blocks()[b])[0].0),
        ensures
            !has_key(self.rows(), key),
    {
        broadcast use group_key_order;

        self.lemma_blocks();
        if has_key(self.rows(), key) {
            let p = crate::rows::index_of_key(self.rows(), key);
            let b = lemma_row_in_block(self.blocks(), p);
            lemma_block_rows(self.blocks(), b);
            let start = block_start(self.blocks(), b);
            let block = self.blocks()[b];
            assert(self.rows().subrange(start, start + block.len())[p - start] == self.rows()[p]);
            assert(self.rows().subrange(start, start + block.len())[0] == self.rows()[start]);
            if start < p {
                assert(key_lt(self.rows()[start].0, self.rows()[p].0));
            }
        }
    }

    /// A key can only stand in the last block that does not start above it.
    proof fn lemma_only_block(&self, at: int, key: Seq<char>)
        requires
            self.wf(),
            0 <= at < self.blocks().len(),
            key_le(self.blocks()[at][0].0, key),
            forall|b: int| at < b < self.blocks().len() ==> key_lt(key, (#[trigger] self.blocks()[b])[0].0),
        ensures
            sorted(self.blocks()[at]),
            rows_get(self.blocks()[at], key) == rows_get(self.rows(), key),
            has_key(self.blocks()[at], key) <==> has_key(self.rows(), key),
    {
        broadcast use group_key_order;

        self.lemma_blocks();
        let rows = self.rows();
        let blocks = self.blocks();
        lemma_block_rows(blocks, at);
        let start = block_start(blocks, at);
        let block = blocks[at];
        assert(block == rows.subrange(start, start + block.len()));
        crate::rows::lemma_sorted_subrange(rows, start, start + block.len());
        if has_key(block, key) {
            let i = crate::rows::index_of_key(block, key);
            assert(block[i] == rows[start + i]);
            crate::rows::lemma_rows_get_at(block, i);
            crate::rows::lemma_rows_get_at(rows, start + i);
        }
        if has_key(rows, key) {
            let p = crate::rows::index_of_key(rows, key);
            let b = lemma_row_in_block(blocks, p);
            lemma_block_rows(blocks, b);
            let other = block_start(blocks, b);
            assert(blocks[b][p - other] == rows.subrange(other, other + blocks[b].len())[p - other]);
            if b > at {
                if other < p {
                    assert(key_lt(rows[other].0, rows[p].0));
                }
                assert(blocks[b][0] == rows.subrange(other, other + blocks[b].len())[0]);
                assert(false);
            } else if b < at {
                lemma_block_keys_ascend(blocks, b, p - other, at, 0);
                assert(false);
            }
            assert(block[p - start] == rows[p]);
        }
    }

    /// All entries.
    pub fn entries(&self) -> (entries: KeyMap<SSTableEntry>)
        requires
            self.wf(),
        ensures
            entries.wf(),
            entries.rows() == self.rows(),
    {
        let mut all: Vec<(String, SSTableEntry)> = Vec::new();
        let mut b: usize = 0;
        proof {
            self.lemma_blocks();
            assert(self.blocks().take(0) =~= Seq::<Seq<Row>>::empty());
            assert(rows_of(all@) =~= Seq::<Row>::empty());
        }
        while b < self.index.len()
            invariant
                self.wf(),
                self.index@.len() == self.blocks().len(),
                b <= self.index@.len(),
                rows_of(all@) == concat_rows(self.blocks().take(b as int)),
            decreases self.index@.len() - b,
        {
            let mut block = self.block(b);
            proof {
                assert(self.blocks().take(b + 1).drop_last() =~= self.blocks().take(b as int));
                assert(rows_of(all@ + block@) =~= rows_of(all@) + rows_of(block@));
            }
            all.append(&mut block);
            b = b + 1;
        }
        proof {
            assert(self.blocks().take(b as int) =~= self.blocks());
        }
        KeyMap::from_sorted(all)
    }

    pub fn id(&self) -> (id: u64)
        ensures
            id == self.table_id(),
    {
        self.id
    }

    pub fn path(&self) -> (path: &str)
        ensures
            path@ == self.path_text(),
    {
        self.path.as_str()
    }

    pub fn record_count(&self) -> (count: usize)
        requires
            self.wf(),
        ensures
            count == self.rows().len(),
    {
        self.record_count
    }

    pub fn block_count(&self) -> (count: usize)
        requires
            self.wf(),
        ensures
            count == self.blocks().len(),
    {
        proof {
            self.lemma_blocks();
        }
        self.index.len()
    }

    /// The entries of a block; `None` when there is no such block.
    pub fn read_block(&self, block: usize) -> (entries: Option<Vec<(String, SSTableEntry)>>)
        requires
            self.wf(),
        ensures
            match entries {
                Some(entries) => block < self.blocks().len() && rows_of(entries@) == self.blocks()[block as int],
                None => block >= self.blocks().len(),
            },
    {
        proof {
            self.lemma_blocks();
        }
        if block < self.index.len() {
            Some(self.block(block))
        } else {
            None
        }
    }

    fn block(&self, block: usize) -> (entries: Vec<(String, SSTableEntry)>)
        requires
            self.wf(),
            block < self.index@.len(),
        ensures
            rows_of(entries@) == self.blocks()[block as int],
    {
        proof {
            self.lemma_block_region(block as int);
            assert(self.data.len() <= usize::MAX);
        }
        let span = &self.index[block];
        match read_records(self.data.as_slice(), span.offset, span.offset + span.size) {
            Ok(entries) => entries,
            Err(_) => Vec::new(),
        }
    }

    /// The last block whose first key is at most `key`: the only one that can hold it.
    pub fn find_block(&self, key: &str) -> (found: Option<usize>)
        requires
            self.wf(),
        ensures
            match found {
                Some(at) => {
                    &&& at < self.blocks().len()
                    &&& key_le(self.blocks()[at as int][0].0, key@)
                    &&& forall|b: int| at < b < self.blocks().len() ==> key_lt(key@, (#[trigger] self.blocks()[b])[0].0)
                },
                None => forall|b: int| 0 <= b < self.blocks().len() ==> key_lt(key@, (#[trigger] self.blocks()[b])[0].0),
            },
    {
        proof {
            self.lemma_blocks();
        }
        let mut low: usize = 0;
        let mut high: usize = self.index.len();
        while low < high
            invariant
                self.wf(),
                self.index@.len() == self.blocks().len(),
                low <= high <= self.index@.len(),
                forall|b: int| 0 <= b < low ==> key_le((#[trigger] self.blocks()[b])[0].0, key@),
                forall|b: int| high <= b < self.blocks().len() ==> key_lt(key@, (#[trigger] self.blocks()[b])[0].0),
            decreases high - low,
        {
            broadcast use group_key_order;

            let mid: usize = low + (high - low) / 2;
            proof {
                self.lemma_blocks();
                assert(self.blocks()[mid as int][0].0 == self.index@[mid as int].span().first_key);
            }
            if str_le(self.index[mid].first_key.as_str(), key) {
                proof {
                    assert forall|b: int| 0 <= b < mid + 1 implies key_le((#[trigger] self.blocks()[b])[0].0, key@) by {
                        if b < mid {
                            lemma_block_keys_ascend(self.blocks(), b, 0, mid as int, 0);
                        }
                    }
                }
                low = mid + 1;
            } else {
                proof {
                    assert forall|b: int| mid <= b < self.blocks().len() implies key_lt(
                        key@,
                        (#[trigger] self.blocks()[b])[0].0,
                    ) by {
                        if mid < b {
                            lemma_block_keys_ascend(self.blocks(), mid as int, 0, b, 0);
                        }
                    }
                }
                high = mid;
            }
        }
        if low == 0 {
            None
        } else {
            Some(low - 1)
        }
    }

    /// The smallest and the largest key; `None` for an empty table.
    pub fn key_range(&self) -> (range: Option<(&str, &str)>)
        requires
            self.wf(),
        ensures
            match range {
                Some((smallest, largest)) => self.rows().len() > 0 && smallest@ == self.rows()[0].0 && largest@
                    == self.rows().last().0,
                None => self.rows().len() == 0,
            },
    {
        proof {
            self.lemma_blocks();
            if self.blocks().len() > 0 {
                lemma_block_rows(self.blocks(), 0);
                assert(self.blocks().take(0) =~= Seq::<Seq<Row>>::empty());
                assert(self.blocks()[0] == self.rows().subrange(0, self.blocks()[0].len() as int));
                assert(self.blocks()[0][0] == self.rows()[0]);
                assert(self.index@[0].span().first_key == self.blocks()[0][0].0);
            }
        }
        match &self.last_key {
            Some(largest) => Some((self.index[0].first_key.as_str(), largest.as_str())),
            None => None,
        }
    }

    pub fn file_size(&self) -> (size: usize)
        ensures
            size == self.bytes().len(),
    {
        self.data.len()
    }

    /// Whether the table may hold `key`; `false` means that it does not.
    pub fn bloom_might_contain(&self, key: &str) -> (might: bool)
        requires
            self.wf(),
        ensures
            might == self.filter_admits(key@),
            !might ==> !has_key(self.rows(), key@),
    {
        proof {
            self.lemma_wf();
        }
        self.bloom.might_contain(key)
    }

    /// The file that holds `entries`, in blocks of at most `block_size` bytes where a block has
    /// more than one record.
    pub fn write_sstable_with_block_size(entries: &KeyMap<SSTableEntry>, block_size: u32) -> (result: Result<Vec<u8>>)
        ensures
            if table_len(entries.rows(), block_size) <= u32::MAX {
                result matches Ok(data) && data@ == table_bytes(entries.rows(), block_size)
            } else {
                result matches Err(PebbleError::SSTableCorruption(text)) && text@ == "table too large"@
            },
    {
        let ghost rows = entries.rows();
        let ghost blocks = blocks_of(rows, block_size as int);
        let (body, plans) = match encode_blocks(entries, block_size) {
            Some(encoded) => encoded,
            None => {
                return corrupt("table too large");
            },
        };
        let index = encode_index(entries, &plans, Ghost(blocks));
        let filter = key_filter(entries);
        if index.len() as u64 > 0xFFFF_FFFF || filter.len() as u64 > 0xFFFF_FFFF {
            return corrupt("table too large");
        }
        if 44 + body.len() as u64 + index.len() as u64 + filter.len() as u64 > 0xFFFF_FFFF {
            return corrupt("table too large");
        }
        proof {
            crate::table::lemma_rows_bytes_len(rows);
            law_blocks_partition_rows(rows, block_size as int);
        }
        let index_offset: u32 = 20 + body.len() as u32;
        let bloom_offset: u32 = index_offset + index.len() as u32;
        let mut data: Vec<u8> = Vec::new();
        push_u32(&mut data, MAGIC);
        push_u32(&mut data, VERSION);
        push_u32(&mut data, entries.len() as u32);
        push_u32(&mut data, plans.len() as u32);
        push_u32(&mut data, block_size);
        push_bytes(&mut data, body.as_slice());
        push_bytes(&mut data, index.as_slice());
        push_u32(&mut data, filter.len() as u32);
        push_bytes(&mut data, filter.as_slice());
        push_u32(&mut data, index_offset);
        push_u32(&mut data, index.len() as u32);
        push_u32(&mut data, bloom_offset);
        push_u32(&mut data, 4 + filter.len() as u32);
        let checksum: u32 = crc32(data.as_slice());
        let ghost checked = data@;
        push_u32(&mut data, checksum);
        proof {
            broadcast use crate::bytes::lemma_u32_le_len;

            assert(data@ =~= table_bytes(rows, block_size)) by {
                let bloom = crate::bytes::u32_le(filter@.len() as u32) + filter@;
                let footer = crate::table::footer_bytes(
                    index_offset,
                    index@.len() as u32,
                    bloom_offset,
                    bloom.len() as u32,
                );
                let head = crate::table::header_bytes(rows.len() as u32, blocks.len() as u32, block_size);
                assert(checked =~= head + body@ + index@ + bloom + footer);
            }
        }
        Ok(data)
    }
}

}
