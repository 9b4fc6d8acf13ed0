//! The layout of a table file: header, blocks of records, sparse index, bloom filter, footer.
use crate::bloom::{
    decoded_words, filter_bits, filter_bytes, filter_has, filter_hashes, filter_words, law_bloom_codec_roundtrip,
    law_filter_has_its_keys, lemma_filter_size, words_for,
};
use crate::bytes::{law_u32_roundtrip, lemma_u32_at_same, lemma_u32_byte_change, lemma_u32_le_len, u32_at, u32_le};
use crate::checksum::{crc32_of, law_single_byte_change_is_detected};
use crate::keys::key_lt;
use crate::records::{key_bytes, lemma_record_layout, record_bytes, record_len, value_bytes, OP_DELETE, OP_SET};
use crate::rows::{sorted, Row};
use crate::text::decimal;
use vstd::prelude::*;
use vstd::utf8::{decode_utf8, encode_utf8, encode_utf8_decode_utf8, encode_utf8_valid_utf8, valid_utf8};

verus! {

/// "PEBB".
pub const MAGIC: u32 = 0x50454242;

pub const VERSION: u32 = 2;

pub const HEADER_SIZE: usize = 20;

pub const FOOTER_SIZE: usize = 20;

/// The bytes that a block may take unless told otherwise.
pub const DEFAULT_BLOCK_SIZE: u32 = 4096;

/// Records one behind the other.
pub open spec fn rows_bytes(rows: Seq<Row>) -> Seq<u8>
    decreases rows.len(),
{
    if rows.len() == 0 {
        Seq::empty()
    } else {
        rows_bytes(rows.drop_last()) + record_bytes(rows.last())
    }
}

/// The rows cut into blocks. A row joins the block before it as long as that block then takes
/// at most `block_size` bytes.
pub open spec fn blocks_of(rows: Seq<Row>, block_size: int) -> Seq<Seq<Row>>
    decreases rows.len(),
{
    if rows.len() == 0 {
        Seq::empty()
    } else {
        let before = blocks_of(rows.drop_last(), block_size);
        let row = rows.last();
        if before.len() > 0 && rows_bytes(before.last()).len() + record_len(row) <= block_size {
            before.update(before.len() - 1, before.last().push(row))
        } else {
            before.push(seq![row])
        }
    }
}

/// The rows of several blocks, in order.
pub open spec fn concat_rows(blocks: Seq<Seq<Row>>) -> Seq<Row>
    decreases blocks.len(),
{
    if blocks.len() == 0 {
        Seq::empty()
    } else {
        concat_rows(blocks.drop_last()) + blocks.last()
    }
}

/// What the index says of a block: its first key and where its bytes stand in the file.
pub struct Span {
    pub first_key: Seq<char>,
    pub offset: int,
    pub size: int,
}

/// Where block `i` starts.
pub open spec fn block_offset(blocks: Seq<Seq<Row>>, i: int) -> int {
    20int + rows_bytes(concat_rows(blocks.take(i))).len()
}

pub open spec fn spans_of(blocks: Seq<Seq<Row>>) -> Seq<Span> {
    Seq::new(
        blocks.len(),
        |i: int|
            Span {
                first_key: blocks[i][0].0,
                offset: block_offset(blocks, i),
                size: rows_bytes(blocks[i]).len() as int,
            },
    )
}

/// Key length, first key, block offset, block size.
pub open spec fn span_bytes(span: Span) -> Seq<u8> {
    u32_le(encode_utf8(span.first_key).len() as u32) + encode_utf8(span.first_key) + u32_le(span.offset as u32)
        + u32_le(span.size as u32)
}

pub open spec fn index_bytes(spans: Seq<Span>) -> Seq<u8>
    decreases spans.len(),
{
    if spans.len() == 0 {
        Seq::empty()
    } else {
        index_bytes(spans.drop_last()) + span_bytes(spans.last())
    }
}

pub open spec fn row_keys(rows: Seq<Row>) -> Seq<Seq<char>> {
    Seq::new(rows.len(), |i: int| rows[i].0)
}

pub open spec fn header_bytes(record_count: u32, block_count: u32, block_size: u32) -> Seq<u8> {
    u32_le(MAGIC) + u32_le(VERSION) + u32_le(record_count) + u32_le(block_count) + u32_le(block_size)
}

/// Where the index and the bloom filter stand, and how long they are.
pub open spec fn footer_bytes(index_offset: u32, index_size: u32, bloom_offset: u32, bloom_size: u32) -> Seq<u8> {
    u32_le(index_offset) + u32_le(index_size) + u32_le(bloom_offset) + u32_le(bloom_size)
}

/// A file made of its parts, closed by the checksum of everything before it.
pub open spec fn file_bytes(
    record_count: u32,
    block_count: u32,
    block_size: u32,
    body: Seq<u8>,
    index: Seq<u8>,
    filter: Seq<u8>,
) -> Seq<u8> {
    let bloom = u32_le(filter.len() as u32) + filter;
    let index_offset = 20 + body.len();
    let bloom_offset = index_offset + index.len();
    let checked = header_bytes(record_count, block_count, block_size) + body + index + bloom + footer_bytes(
        index_offset as u32,
        index.len() as u32,
        bloom_offset as u32,
        bloom.len() as u32,
    );
    checked + u32_le(crc32_of(checked))
}

/// The file that holds `rows`.
pub open spec fn table_bytes(rows: Seq<Row>, block_size: u32) -> Seq<u8> {
    let blocks = blocks_of(rows, block_size as int);
    file_bytes(
        rows.len() as u32,
        blocks.len() as u32,
        block_size,
        rows_bytes(rows),
        index_bytes(spans_of(blocks)),
        filter_bytes(row_keys(rows)),
    )
}

/// The length of that file.
pub open spec fn table_len(rows: Seq<Row>, block_size: u32) -> int {
    44int + rows_bytes(rows).len() + index_bytes(spans_of(blocks_of(rows, block_size as int))).len() + filter_bytes(
        row_keys(rows),
    ).len()
}

/// The record at the start of `data`, or what is wrong with it.
#[verifier::opaque]
pub open spec fn parse_record(data: Seq<u8>) -> std::result::Result<Row, Seq<char>> {
    if data.len() < 9 {
        Err("unexpected end of records"@)
    } else {
        let op = data[0];
        let key_end = 9 + u32_at(data, 1);
        let value_end = key_end + u32_at(data, 5);
        if data.len() < value_end {
            Err("record data exceeds file"@)
        } else {
            let key = data.subrange(9, key_end);
            let value = data.subrange(key_end, value_end);
            if !valid_utf8(key) {
                Err("invalid UTF-8 in key"@)
            } else if op == OP_SET {
                if valid_utf8(value) {
                    Ok((decode_utf8(key), Some(decode_utf8(value))))
                } else {
                    Err("invalid UTF-8 in value"@)
                }
            } else if op == OP_DELETE {
                Ok((decode_utf8(key), None))
            } else {
                Err("unknown op: "@ + decimal(op as nat))
            }
        }
    }
}

/// The bytes that the record at the start of `data` takes.
pub open spec fn parsed_len(data: Seq<u8>) -> int {
    9 + u32_at(data, 1) + u32_at(data, 5)
}

/// Rows found first, with what comes of the rest.
pub open spec fn after_rows(
    rows: Seq<Row>,
    rest: std::result::Result<Seq<Row>, Seq<char>>,
) -> std::result::Result<Seq<Row>, Seq<char>> {
    match rest {
        Ok(more) => Ok(rows + more),
        Err(problem) => Err(problem),
    }
}

/// The records that fill `data`, or the first thing that is wrong with them.
pub open spec fn parse_records(data: Seq<u8>) -> std::result::Result<Seq<Row>, Seq<char>>
    decreases data.len(),
{
    if data.len() == 0 {
        Ok(Seq::empty())
    } else {
        match parse_record(data) {
            Err(problem) => Err(problem),
            Ok(row) => {
                proof {
                    lemma_parsed_len(data);
                }
                after_rows(seq![row], parse_records(data.skip(parsed_len(data))))
            },
        }
    }
}

pub proof fn lemma_parsed_len(data: Seq<u8>)
    ensures
        parse_record(data) is Ok ==> 9 <= parsed_len(data) <= data.len(),
{
    reveal(parse_record);
}

/// The `count` index entries that fill `data`, whose blocks follow one another from `offset` on.
pub open spec fn parse_index(data: Seq<u8>, count: nat, offset: int) -> Option<Seq<Span>>
    decreases count,
{
    if count == 0 {
        if data.len() == 0 {
            Some(Seq::empty())
        } else {
            None
        }
    } else {
        match parse_span(data, offset) {
            None => None,
            Some(span) => after_spans(
                seq![span],
                parse_index(data.skip(12 + u32_at(data, 0)), (count - 1) as nat, offset + span.size),
            ),
        }
    }
}

pub open spec fn after_spans(spans: Seq<Span>, rest: Option<Seq<Span>>) -> Option<Seq<Span>> {
    match rest {
        Some(more) => Some(spans + more),
        None => None,
    }
}

/// The index entry at the start of `data`.
#[verifier::opaque]
pub open spec fn parse_span(data: Seq<u8>, offset: int) -> Option<Span> {
    let key_len = u32_at(data, 0);
    let key = data.subrange(4, 4 + key_len);
    if data.len() >= 12 && data.len() >= 12 + key_len && valid_utf8(key) && u32_at(data, 4 + key_len) == offset {
        Some(Span { first_key: decode_utf8(key), offset, size: u32_at(data, 8 + key_len) as int })
    } else {
        None
    }
}

/// Where the last block ends.
pub open spec fn spans_end(spans: Seq<Span>) -> int {
    if spans.len() == 0 {
        20
    } else {
        spans.last().offset + spans.last().size
    }
}

/// The blocks that the index tells of.
pub open spec fn parse_blocks(data: Seq<u8>, spans: Seq<Span>) -> std::result::Result<Seq<Seq<Row>>, Seq<char>>
    decreases spans.len(),
{
    if spans.len() == 0 {
        Ok(Seq::empty())
    } else {
        let span = spans.last();
        match parse_blocks(data, spans.drop_last()) {
            Err(problem) => Err(problem),
            Ok(before) => match parse_records(data.subrange(span.offset, span.offset + span.size)) {
                Err(problem) => Err(problem),
                Ok(rows) => if rows.len() == 0 || rows[0].0 != span.first_key {
                    Err("index key mismatch"@)
                } else {
                    Ok(before.push(rows))
                },
            },
        }
    }
}

/// Whether a length and a usable bloom filter of that length fill `data`.
pub open spec fn valid_bloom(data: Seq<u8>) -> bool {
    let filter = data.skip(4);
    &&& data.len() >= 12
    &&& u32_at(data, 0) == data.len() - 4
    &&& filter.len() >= 8 + 8 * words_for(u32_at(filter, 0) as int)
    &&& u32_at(filter, 4) > 0 ==> u32_at(filter, 0) > 0
}

/// What a table file holds.
pub struct TableParts {
    pub spans: Seq<Span>,
    pub blocks: Seq<Seq<Row>>,
    /// The bytes of the bloom filter.
    pub filter: Seq<u8>,
}

pub open spec fn filter_bytes_has(filter: Seq<u8>, key: Seq<char>) -> bool {
    filter_has(u32_at(filter, 0) as int, u32_at(filter, 4) as int, decoded_words(filter), key)
}

pub open spec fn filter_covers(filter: Seq<u8>, rows: Seq<Row>) -> bool {
    forall|i: int| 0 <= i < rows.len() ==> filter_bytes_has(filter, (#[trigger] rows[i]).0)
}

/// What is wrong with the frame of a file: its length, header, checksum and footer.
pub open spec fn frame_problem(data: Seq<u8>) -> Option<Seq<char>> {
    let len = data.len() as int;
    if len < 40 {
        Some("file too short"@)
    } else if u32_at(data, 0) != MAGIC {
        Some("invalid magic number"@)
    } else if u32_at(data, 4) != VERSION {
        Some("unsupported version: "@ + decimal(u32_at(data, 4) as nat))
    } else if u32_at(data, len - 4) != crc32_of(data.take(len - 4)) {
        Some("checksum mismatch"@)
    } else if u32_at(data, len - 20) < 20 || u32_at(data, len - 12) != u32_at(data, len - 20) + u32_at(data, len - 16)
        || u32_at(data, len - 12) + u32_at(data, len - 8) != len - 20 {
        Some("invalid footer"@)
    } else {
        None
    }
}

/// The index region of a file whose frame is in order.
pub open spec fn index_region(data: Seq<u8>) -> Seq<u8> {
    data.subrange(u32_at(data, data.len() - 20) as int, u32_at(data, data.len() - 12) as int)
}

/// The bloom filter region of a file whose frame is in order.
pub open spec fn bloom_region(data: Seq<u8>) -> Seq<u8> {
    data.subrange(u32_at(data, data.len() - 12) as int, data.len() - 20)
}

/// The parts of a table file, or the first thing that is wrong with it.
pub open spec fn parse_table(data: Seq<u8>) -> std::result::Result<TableParts, Seq<char>> {
    match frame_problem(data) {
        Some(problem) => Err(problem),
        None => match parse_index(index_region(data), u32_at(data, 12) as nat, 20) {
            None => Err("invalid index"@),
            Some(spans) => if spans_end(spans) != u32_at(data, data.len() - 20) {
                Err("invalid index"@)
            } else if !valid_bloom(bloom_region(data)) {
                Err("invalid bloom filter"@)
            } else {
                parse_contents(data, spans, bloom_region(data).skip(4))
            },
        },
    }
}

pub open spec fn parse_contents(data: Seq<u8>, spans: Seq<Span>, filter: Seq<u8>) -> std::result::Result<
    TableParts,
    Seq<char>,
> {
    match parse_blocks(data, spans) {
        Err(problem) => Err(problem),
        Ok(blocks) => if !sorted(concat_rows(blocks)) {
            Err("keys out of order"@)
        } else if concat_rows(blocks).len() != u32_at(data, 8) {
            Err("record count mismatch"@)
        } else if !filter_covers(filter, concat_rows(blocks)) {
            Err("bloom filter misses a key"@)
        } else {
            Ok(TableParts { spans, blocks, filter })
        },
    }
}

pub proof fn lemma_rows_bytes_concat(a: Seq<Row>, b: Seq<Row>)
    ensures
        rows_bytes(a + b) == rows_bytes(a) + rows_bytes(b),
    decreases b.len(),
{
    if b.len() == 0 {
        assert(a + b =~= a);
        assert(rows_bytes(a) + rows_bytes(b) =~= rows_bytes(a));
    } else {
        assert((a + b).drop_last() =~= a + b.drop_last());
        lemma_rows_bytes_concat(a, b.drop_last());
        assert(rows_bytes(a + b) =~= rows_bytes(a) + rows_bytes(b));
    }
}

pub proof fn lemma_concat_blocks(a: Seq<Seq<Row>>, b: Seq<Seq<Row>>)
    ensures
        concat_rows(a + b) == concat_rows(a) + concat_rows(b),
    decreases b.len(),
{
    if b.len() == 0 {
        assert(a + b =~= a);
        assert(concat_rows(a) + concat_rows(b) =~= concat_rows(a));
    } else {
        assert((a + b).drop_last() =~= a + b.drop_last());
        lemma_concat_blocks(a, b.drop_last());
        assert(concat_rows(a + b) =~= concat_rows(a) + concat_rows(b));
    }
}

/// The block bytes stand in the body where the offsets say.
pub proof fn lemma_block_bytes(blocks: Seq<Seq<Row>>, i: int)
    requires
        0 <= i < blocks.len(),
    ensures
        ({
            let body = rows_bytes(concat_rows(blocks));
            let start = block_offset(blocks, i) - 20;
            let size = rows_bytes(blocks[i]).len();
            &&& 0 <= start
            &&& start + size <= body.len()
            &&& body.subrange(start, start + size) == rows_bytes(blocks[i])
            &&& block_offset(blocks, i + 1) == block_offset(blocks, i) + size
        }),
{
    let before = blocks.take(i);
    let upto = blocks.take(i + 1);
    let rest = blocks.skip(i + 1);
    assert(upto.drop_last() =~= before);
    assert(upto + rest =~= blocks);
    lemma_concat_blocks(upto, rest);
    lemma_rows_bytes_concat(concat_rows(upto), concat_rows(rest));
    lemma_rows_bytes_concat(concat_rows(before), blocks[i]);
    let start = block_offset(blocks, i) - 20;
    let size = rows_bytes(blocks[i]).len();
    assert(rows_bytes(concat_rows(blocks)).subrange(start, start + size) =~= rows_bytes(blocks[i]));
}

/// Cutting rows into blocks keeps them all, in order, and leaves no block empty.
pub proof fn law_blocks_partition_rows(rows: Seq<Row>, block_size: int)
    ensures
        concat_rows(blocks_of(rows, block_size)) == rows,
        forall|i: int| 0 <= i < blocks_of(rows, block_size).len() ==> (#[trigger] blocks_of(rows, block_size)[i]).len()
            > 0,
        blocks_of(rows, block_size).len() <= rows.len(),
    decreases rows.len(),
{
    if rows.len() > 0 {
        let before = blocks_of(rows.drop_last(), block_size);
        let blocks = blocks_of(rows, block_size);
        law_blocks_partition_rows(rows.drop_last(), block_size);
        if blocks.len() == before.len() {
            assert(blocks.drop_last() =~= before.drop_last());
            assert(concat_rows(blocks) =~= concat_rows(before).push(rows.last()));
        } else {
            assert(blocks.drop_last() =~= before);
            assert(concat_rows(blocks) =~= concat_rows(before).push(rows.last()));
        }
        assert(concat_rows(blocks) =~= rows);
        assert forall|i: int| 0 <= i < blocks.len() implies (#[trigger] blocks[i]).len() > 0 by {
            if i < before.len() {
                assert(before[i].len() > 0);
            }
        }
    } else {
        assert(concat_rows(blocks_of(rows, block_size)) =~= rows);
    }
}

/// A block takes at most `block_size` bytes, unless it is a single record.
pub proof fn law_blocks_keep_to_the_size(rows: Seq<Row>, block_size: int, i: int)
    requires
        0 <= i < blocks_of(rows, block_size).len(),
    ensures
        ({
            let block = blocks_of(rows, block_size)[i];
            block.len() == 1 || rows_bytes(block).len() <= block_size
        }),
    decreases rows.len(),
{
    if rows.len() > 0 {
        let before = blocks_of(rows.drop_last(), block_size);
        let blocks = blocks_of(rows, block_size);
        if i < before.len() && (blocks.len() > before.len() || i < before.len() - 1) {
            law_blocks_keep_to_the_size(rows.drop_last(), block_size, i);
        } else if blocks.len() == before.len() {
            assert(blocks[i].drop_last() =~= before[i]);
            lemma_record_layout(rows.last());
        }
    }
}

/// A record is read back as its row, whatever follows it.
pub proof fn law_record_roundtrip(row: Row, more: Seq<u8>)
    requires
        record_len(row) <= u32::MAX,
    ensures
        parse_record(record_bytes(row) + more) == Ok::<Row, Seq<char>>(row),
        parsed_len(record_bytes(row) + more) == record_len(row),
{
    reveal(parse_record);
    lemma_record_layout(row);
    let data = record_bytes(row) + more;
    let key_end = 9 + key_bytes(row).len() as int;
    assert(data.subrange(1, 5) =~= record_bytes(row).subrange(1, 5));
    assert(data.subrange(5, 9) =~= record_bytes(row).subrange(5, 9));
    law_u32_roundtrip(key_bytes(row).len() as u32, data, 1);
    law_u32_roundtrip(value_bytes(row).len() as u32, data, 5);
    assert(data.subrange(9, key_end) =~= key_bytes(row));
    assert(data.subrange(key_end, record_len(row)) =~= value_bytes(row));
    encode_utf8_valid_utf8(row.0);
    encode_utf8_decode_utf8(row.0);
    if let Some(value) = row.1 {
        encode_utf8_valid_utf8(value);
        encode_utf8_decode_utf8(value);
    }
}

/// The records of a block are read back as its rows, and reading goes on behind them.
pub proof fn law_records_roundtrip(rows: Seq<Row>, more: Seq<u8>)
    requires
        forall|i: int| 0 <= i < rows.len() ==> record_len(#[trigger] rows[i]) <= u32::MAX,
    ensures
        parse_records(rows_bytes(rows) + more) == after_rows(rows, parse_records(more)),
    decreases rows.len(),
{
    if rows.len() == 0 {
        assert(rows_bytes(rows) + more =~= more);
        if let Ok(rest) = parse_records(more) {
            assert(rows + rest =~= rest);
        }
    } else {
        let before = rows.drop_last();
        let row = rows.last();
        let tail = record_bytes(row) + more;
        assert forall|i: int| 0 <= i < before.len() implies record_len(#[trigger] before[i]) <= u32::MAX by {
            assert(before[i] == rows[i]);
        }
        law_records_roundtrip(before, tail);
        assert(rows_bytes(rows) + more =~= rows_bytes(before) + tail);
        assert(record_len(rows[rows.len() - 1]) <= u32::MAX);
        law_record_roundtrip(row, more);
        lemma_record_layout(row);
        assert(tail.skip(record_len(row)) =~= more);
        if let Ok(rest) = parse_records(more) {
            assert(before + (seq![row] + rest) =~= rows + rest);
        }
    }
}

/// Whether an index entry can hold the span.
spec fn span_fits(span: Span) -> bool {
    &&& encode_utf8(span.first_key).len() <= u32::MAX
    &&& 0 <= span.offset <= u32::MAX
    &&& 0 <= span.size <= u32::MAX
}

proof fn lemma_span_roundtrip(span: Span, more: Seq<u8>)
    requires
        span_fits(span),
    ensures
        parse_span(span_bytes(span) + more, span.offset) == Some(span),
        (span_bytes(span) + more).skip(12 + u32_at(span_bytes(span) + more, 0)) == more,
        span_bytes(span).len() == 12 + encode_utf8(span.first_key).len(),
{
    broadcast use lemma_u32_le_len;

    reveal(parse_span);
    let key = encode_utf8(span.first_key);
    let n = key.len() as int;
    let data = span_bytes(span) + more;
    assert(data.subrange(0, 4) =~= u32_le(n as u32));
    assert(data.subrange(4, 4 + n) =~= key);
    assert(data.subrange(4 + n, 8 + n) =~= u32_le(span.offset as u32));
    assert(data.subrange(8 + n, 12 + n) =~= u32_le(span.size as u32));
    law_u32_roundtrip(n as u32, data, 0);
    law_u32_roundtrip(span.offset as u32, data, 4 + n);
    law_u32_roundtrip(span.size as u32, data, 8 + n);
    encode_utf8_valid_utf8(span.first_key);
    encode_utf8_decode_utf8(span.first_key);
    assert(data.skip(12 + n) =~= more);
}

/// Spans whose blocks follow one another from `offset` on.
pub open spec fn contiguous(spans: Seq<Span>, offset: int) -> bool {
    forall|i: int| 0 <= i < spans.len() ==> (#[trigger] spans[i]).offset == (if i == 0 {
        offset
    } else {
        spans[i - 1].offset + spans[i - 1].size
    })
}

proof fn lemma_index_roundtrip(spans: Seq<Span>, offset: int, more: Seq<u8>, count: nat)
    requires
        contiguous(spans, offset),
        forall|i: int| 0 <= i < spans.len() ==> span_fits(#[trigger] spans[i]),
    ensures
        parse_index(index_bytes(spans) + more, spans.len() + count, offset) == after_spans(
            spans,
            parse_index(
                more,
                count,
                if spans.len() == 0 {
                    offset
                } else {
                    spans.last().offset + spans.last().size
                },
            ),
        ),
    decreases spans.len(),
{
    if spans.len() == 0 {
        assert(index_bytes(spans) + more =~= more);
        if let Some(rest) = parse_index(more, count, offset) {
            assert(spans + rest =~= rest);
        }
    } else {
        let before = spans.drop_last();
        let span = spans.last();
        let tail = span_bytes(span) + more;
        assert(span == spans[spans.len() - 1]);
        assert(contiguous(before, offset)) by {
            assert forall|i: int| 0 <= i < before.len() implies (#[trigger] before[i]).offset == (if i == 0 {
                offset
            } else {
                before[i - 1].offset + before[i - 1].size
            }) by {
                assert(before[i] == spans[i]);
            }
        }
        assert forall|i: int| 0 <= i < before.len() implies span_fits(#[trigger] before[i]) by {
            assert(before[i] == spans[i]);
        }
        let end = if before.len() == 0 {
            offset
        } else {
            before.last().offset + before.last().size
        };
        assert(end == span.offset);
        let rest = parse_index(more, count, span.offset + span.size);
        assert(parse_index(tail, count + 1, span.offset) == after_spans(seq![span], rest)) by {
            lemma_span_roundtrip(span, more);
        }
        lemma_index_roundtrip(before, offset, tail, count + 1);
        assert(index_bytes(spans) + more =~= index_bytes(before) + tail);
        assert((before.len() + (count + 1)) as nat == (spans.len() + count) as nat);
        if let Some(found) = rest {
            assert(before + (seq![span] + found) =~= spans + found);
        }
    }
}

/// Everything in a file that fits takes a 32-bit length.
proof fn lemma_record_fits(rows: Seq<Row>, i: int)
    requires
        0 <= i < rows.len(),
    ensures
        record_len(rows[i]) <= rows_bytes(rows).len(),
    decreases rows.len(),
{
    lemma_record_layout(rows.last());
    if i < rows.len() - 1 {
        lemma_record_fits(rows.drop_last(), i);
    }
}

pub proof fn lemma_rows_bytes_len(rows: Seq<Row>)
    ensures
        rows_bytes(rows).len() >= 9 * rows.len(),
    decreases rows.len(),
{
    if rows.len() > 0 {
        lemma_rows_bytes_len(rows.drop_last());
        lemma_record_layout(rows.last());
    }
}

proof fn lemma_spans_of(rows: Seq<Row>, block_size: u32)
    requires
        20 + rows_bytes(rows).len() <= u32::MAX,
    ensures
        ({
            let spans = spans_of(blocks_of(rows, block_size as int));
            &&& contiguous(spans, 20)
            &&& spans_end(spans) == 20 + rows_bytes(rows).len()
            &&& forall|i: int| 0 <= i < spans.len() ==> span_fits(#[trigger] spans[i])
        }),
{
    let blocks = blocks_of(rows, block_size as int);
    let spans = spans_of(blocks);
    law_blocks_partition_rows(rows, block_size as int);
    assert(blocks.take(0) =~= Seq::<Seq<Row>>::empty());
    assert(block_offset(blocks, 0) == 20);
    assert forall|i: int| 0 <= i < spans.len() implies (#[trigger] spans[i]).offset == (if i == 0 {
        20
    } else {
        spans[i - 1].offset + spans[i - 1].size
    }) by {
        if i > 0 {
            lemma_block_bytes(blocks, i - 1);
        }
    }
    assert(blocks.take(blocks.len() as int) =~= blocks);
    if blocks.len() > 0 {
        lemma_block_bytes(blocks, blocks.len() - 1);
    } else {
        assert(rows =~= Seq::<Row>::empty());
    }
    assert forall|i: int| 0 <= i < spans.len() implies span_fits(#[trigger] spans[i]) by {
        lemma_block_bytes(blocks, i);
        assert(blocks[i].len() > 0);
        lemma_record_fits(blocks[i], 0);
    }
}

proof fn lemma_blocks_roundtrip(data: Seq<u8>, blocks: Seq<Seq<Row>>, n: int)
    requires
        0 <= n <= blocks.len(),
        forall|i: int| 0 <= i < blocks.len() ==> (#[trigger] blocks[i]).len() > 0,
        20 + rows_bytes(concat_rows(blocks)).len() <= data.len() <= u32::MAX,
        data.subrange(20, 20int + rows_bytes(concat_rows(blocks)).len()) == rows_bytes(concat_rows(blocks)),
    ensures
        parse_blocks(data, spans_of(blocks).take(n)) == Ok::<Seq<Seq<Row>>, Seq<char>>(blocks.take(n)),
    decreases n,
{
    let body = rows_bytes(concat_rows(blocks));
    let spans = spans_of(blocks);
    if n == 0 {
        assert(spans.take(0) =~= Seq::<Span>::empty());
        assert(blocks.take(0) =~= Seq::<Seq<Row>>::empty());
    } else {
        let block = blocks[n - 1];
        let span = spans[n - 1];
        lemma_blocks_roundtrip(data, blocks, n - 1);
        lemma_block_bytes(blocks, n - 1);
        assert(spans.take(n).drop_last() =~= spans.take(n - 1));
        assert(data.subrange(span.offset, span.offset + span.size) =~= body.subrange(
            span.offset - 20,
            span.offset - 20 + span.size,
        ));
        assert forall|i: int| 0 <= i < block.len() implies record_len(#[trigger] block[i]) <= u32::MAX by {
            lemma_record_fits(block, i);
        }
        law_records_roundtrip(block, Seq::empty());
        assert(rows_bytes(block) + Seq::<u8>::empty() =~= rows_bytes(block));
        assert(block + Seq::<Row>::empty() =~= block);
        assert(blocks.take(n - 1).push(block) =~= blocks.take(n));
    }
}

/// The regions of a file made of its parts.
proof fn lemma_file_layout(
    record_count: u32,
    block_count: u32,
    block_size: u32,
    body: Seq<u8>,
    index: Seq<u8>,
    filter: Seq<u8>,
)
    requires
        44 + body.len() + index.len() + filter.len() <= u32::MAX,
    ensures
        ({
            let data = file_bytes(record_count, block_count, block_size, body, index, filter);
            let len = data.len() as int;
            &&& len == 44 + body.len() + index.len() + filter.len()
            &&& frame_problem(data) is None
            &&& u32_at(data, 8) == record_count
            &&& u32_at(data, 12) == block_count
            &&& u32_at(data, 16) == block_size
            &&& u32_at(data, len - 20) == 20 + body.len()
            &&& data.subrange(20, 20int + body.len()) == body
            &&& index_region(data) == index
            &&& bloom_region(data).len() == 4 + filter.len()
            &&& u32_at(bloom_region(data), 0) == filter.len()
            &&& bloom_region(data).skip(4) == filter
        }),
{
    broadcast use lemma_u32_le_len;

    let data = file_bytes(record_count, block_count, block_size, body, index, filter);
    let len = data.len() as int;
    let bloom = u32_le(filter.len() as u32) + filter;
    let index_offset = 20 + body.len() as int;
    let bloom_offset = index_offset + index.len() as int;
    let checked = header_bytes(record_count, block_count, block_size) + body + index + bloom + footer_bytes(
        index_offset as u32,
        index.len() as u32,
        bloom_offset as u32,
        bloom.len() as u32,
    );
    assert(len == checked.len() + 4);
    assert(data.subrange(0, 4) =~= u32_le(MAGIC));
    assert(data.subrange(4, 8) =~= u32_le(VERSION));
    assert(data.subrange(8, 12) =~= u32_le(record_count));
    assert(data.subrange(12, 16) =~= u32_le(block_count));
    assert(data.subrange(16, 20) =~= u32_le(block_size));
    law_u32_roundtrip(block_size, data, 16);
    assert(data.subrange(len - 20, len - 16) =~= u32_le(index_offset as u32));
    assert(data.subrange(len - 16, len - 12) =~= u32_le(index.len() as u32));
    assert(data.subrange(len - 12, len - 8) =~= u32_le(bloom_offset as u32));
    assert(data.subrange(len - 8, len - 4) =~= u32_le(bloom.len() as u32));
    assert(data.subrange(len - 4, len) =~= u32_le(crc32_of(checked)));
    law_u32_roundtrip(MAGIC, data, 0);
    law_u32_roundtrip(VERSION, data, 4);
    law_u32_roundtrip(record_count, data, 8);
    law_u32_roundtrip(block_count, data, 12);
    law_u32_roundtrip(index_offset as u32, data, len - 20);
    law_u32_roundtrip(index.len() as u32, data, len - 16);
    law_u32_roundtrip(bloom_offset as u32, data, len - 12);
    law_u32_roundtrip(bloom.len() as u32, data, len - 8);
    law_u32_roundtrip(crc32_of(checked), data, len - 4);
    assert(data.take(len - 4) =~= checked);
    assert(data.subrange(20, 20int + body.len()) =~= body);
    assert(index_region(data) =~= index);
    assert(bloom_region(data) =~= bloom);
    assert(bloom.subrange(0, 4) =~= u32_le(filter.len() as u32));
    law_u32_roundtrip(filter.len() as u32, bloom, 0);
    assert(bloom.skip(4) =~= filter);
}

/// Where the parts of a table file stand.
pub proof fn lemma_table_layout(rows: Seq<Row>, block_size: u32)
    requires
        table_len(rows, block_size) <= u32::MAX,
    ensures
        ({
            let data = table_bytes(rows, block_size);
            let len = data.len() as int;
            &&& len == table_len(rows, block_size)
            &&& frame_problem(data) is None
            &&& u32_at(data, 8) == rows.len()
            &&& u32_at(data, 12) == blocks_of(rows, block_size as int).len()
            &&& u32_at(data, 16) == block_size
            &&& u32_at(data, len - 20) == 20 + rows_bytes(rows).len()
            &&& data.subrange(20, 20int + rows_bytes(rows).len()) == rows_bytes(rows)
        }),
{
    let blocks = blocks_of(rows, block_size as int);
    law_blocks_partition_rows(rows, block_size as int);
    lemma_rows_bytes_len(rows);
    lemma_file_layout(
        rows.len() as u32,
        blocks.len() as u32,
        block_size,
        rows_bytes(rows),
        index_bytes(spans_of(blocks)),
        filter_bytes(row_keys(rows)),
    );
}

/// A table file holds exactly the rows that were written to it.
pub proof fn law_table_roundtrip(rows: Seq<Row>, block_size: u32)
    requires
        sorted(rows),
        table_len(rows, block_size) <= u32::MAX,
    ensures
        table_bytes(rows, block_size).len() == table_len(rows, block_size),
        parse_table(table_bytes(rows, block_size)) == Ok::<TableParts, Seq<char>>(
            TableParts {
                spans: spans_of(blocks_of(rows, block_size as int)),
                blocks: blocks_of(rows, block_size as int),
                filter: filter_bytes(row_keys(rows)),
            },
        ),
        concat_rows(blocks_of(rows, block_size as int)) == rows,
{
    let blocks = blocks_of(rows, block_size as int);
    let spans = spans_of(blocks);
    let keys = row_keys(rows);
    let body = rows_bytes(rows);
    let index = index_bytes(spans);
    let filter = filter_bytes(keys);
    let data = table_bytes(rows, block_size);
    law_blocks_partition_rows(rows, block_size as int);
    lemma_rows_bytes_len(rows);
    lemma_file_layout(rows.len() as u32, blocks.len() as u32, block_size, body, index, filter);
    lemma_spans_of(rows, block_size);
    lemma_index_roundtrip(spans, 20, Seq::empty(), 0);
    assert(index + Seq::<u8>::empty() =~= index);
    assert(spans + Seq::<Span>::empty() =~= spans);
    lemma_filter_size(keys);
    law_bloom_codec_roundtrip(filter_bits(keys) as u32, filter_hashes(keys) as u32, filter_words(keys));
    assert forall|i: int| 0 <= i < rows.len() implies filter_bytes_has(filter, (#[trigger] rows[i]).0) by {
        law_filter_has_its_keys(keys, i);
    }
    lemma_blocks_roundtrip(data, blocks, blocks.len() as int);
    assert(spans.take(blocks.len() as int) =~= spans);
    assert(blocks.take(blocks.len() as int) =~= blocks);
}

/// The spans that the index gives follow one another.
pub proof fn lemma_parsed_spans(data: Seq<u8>, count: nat, offset: int)
    ensures
        parse_index(data, count, offset) matches Some(spans) ==> {
            &&& spans.len() == count
            &&& contiguous(spans, offset)
            &&& forall|i: int| 0 <= i < spans.len() ==> (#[trigger] spans[i]).size >= 0
        },
    decreases count,
{
    reveal(parse_span);
    if count > 0 && parse_index(data, count, offset) is Some {
        let span = parse_span(data, offset)->0;
        let rest = data.skip(12 + u32_at(data, 0));
        lemma_parsed_spans(rest, (count - 1) as nat, offset + span.size);
        let more = parse_index(rest, (count - 1) as nat, offset + span.size)->0;
        let spans = seq![span] + more;
        assert forall|i: int| 0 <= i < spans.len() implies (#[trigger] spans[i]).offset == (if i == 0 {
            offset
        } else {
            spans[i - 1].offset + spans[i - 1].size
        }) && spans[i].size >= 0 by {
            if i > 0 {
                assert(spans[i] == more[i - 1]);
            }
        }
    }
}

/// Every block stands between the start of the first and the end of the last.
pub proof fn lemma_contiguous_bounds(spans: Seq<Span>, offset: int, i: int)
    requires
        contiguous(spans, offset),
        forall|j: int| 0 <= j < spans.len() ==> (#[trigger] spans[j]).size >= 0,
        0 <= i < spans.len(),
    ensures
        offset <= spans[i].offset,
        spans[i].offset + spans[i].size <= spans.last().offset + spans.last().size,
    decreases spans.len(),
{
    if i < spans.len() - 1 {
        let before = spans.drop_last();
        assert forall|j: int| 0 <= j < before.len() implies (#[trigger] before[j]).offset == (if j == 0 {
            offset
        } else {
            before[j - 1].offset + before[j - 1].size
        }) && before[j].size >= 0 by {
            assert(before[j] == spans[j]);
        }
        lemma_contiguous_bounds(before, offset, i);
        assert(spans[spans.len() - 1].offset == spans[spans.len() - 2].offset + spans[spans.len() - 2].size);
    } else if i > 0 {
        let before = spans.drop_last();
        assert forall|j: int| 0 <= j < before.len() implies (#[trigger] before[j]).offset == (if j == 0 {
            offset
        } else {
            before[j - 1].offset + before[j - 1].size
        }) && before[j].size >= 0 by {
            assert(before[j] == spans[j]);
        }
        lemma_contiguous_bounds(before, offset, i - 1);
        assert(spans[i].offset == spans[i - 1].offset + spans[i - 1].size);
    } else {
        assert(spans[0].offset == offset);
    }
}

/// What is wrong with the first blocks is wrong with all.
pub proof fn lemma_blocks_problem(data: Seq<u8>, spans: Seq<Span>, n: int)
    requires
        0 <= n <= spans.len(),
        parse_blocks(data, spans.take(n)) is Err,
    ensures
        parse_blocks(data, spans) == parse_blocks(data, spans.take(n)),
    decreases spans.len() - n,
{
    if n < spans.len() {
        assert(spans.take(n + 1).drop_last() =~= spans.take(n));
        lemma_blocks_problem(data, spans, n + 1);
    } else {
        assert(spans.take(n) =~= spans);
    }
}

/// Each block is what its region holds.
pub proof fn lemma_parsed_block(data: Seq<u8>, spans: Seq<Span>, i: int)
    requires
        parse_blocks(data, spans) is Ok,
        0 <= i < spans.len(),
    ensures
        ({
            let blocks = parse_blocks(data, spans)->Ok_0;
            &&& blocks.len() == spans.len()
            &&& parse_records(data.subrange(spans[i].offset, spans[i].offset + spans[i].size)) == Ok::<
                Seq<Row>,
                Seq<char>,
            >(blocks[i])
            &&& blocks[i].len() > 0
            &&& blocks[i][0].0 == spans[i].first_key
        }),
    decreases spans.len(),
{
    lemma_parsed_block_count(data, spans.drop_last());
    if i < spans.len() - 1 {
        lemma_parsed_block(data, spans.drop_last(), i);
        assert(spans.drop_last()[i] == spans[i]);
    }
}

pub proof fn lemma_parsed_block_count(data: Seq<u8>, spans: Seq<Span>)
    requires
        parse_blocks(data, spans) is Ok,
    ensures
        parse_blocks(data, spans)->Ok_0.len() == spans.len(),
    decreases spans.len(),
{
    if spans.len() > 0 {
        lemma_parsed_block_count(data, spans.drop_last());
    }
}

/// The index, among all rows, of the first row of block `b`.
pub open spec fn block_start(blocks: Seq<Seq<Row>>, b: int) -> int {
    concat_rows(blocks.take(b)).len() as int
}

/// The rows of a block stand together among all rows.
pub proof fn lemma_block_rows(blocks: Seq<Seq<Row>>, b: int)
    requires
        0 <= b < blocks.len(),
    ensures
        ({
            let rows = concat_rows(blocks);
            let start = block_start(blocks, b);
            &&& 0 <= start
            &&& block_start(blocks, b + 1) == start + blocks[b].len()
            &&& start + blocks[b].len() <= rows.len()
            &&& rows.subrange(start, start + blocks[b].len()) == blocks[b]
        }),
{
    let upto = blocks.take(b + 1);
    let rest = blocks.skip(b + 1);
    assert(upto.drop_last() =~= blocks.take(b));
    assert(upto + rest =~= blocks);
    lemma_concat_blocks(upto, rest);
    let start = block_start(blocks, b);
    assert(concat_rows(blocks).subrange(start, start + blocks[b].len()) =~= blocks[b]);
}

/// Every row stands in a block.
pub proof fn lemma_row_in_block(blocks: Seq<Seq<Row>>, p: int) -> (b: int)
    requires
        0 <= p < concat_rows(blocks).len(),
    ensures
        0 <= b < blocks.len(),
        block_start(blocks, b) <= p < block_start(blocks, b) + blocks[b].len(),
    decreases blocks.len(),
{
    let before = blocks.drop_last();
    assert(blocks.take(blocks.len() - 1) =~= before);
    if p < concat_rows(before).len() {
        let b = lemma_row_in_block(before, p);
        assert(blocks.take(b) =~= before.take(b));
        b
    } else {
        blocks.len() - 1
    }
}

/// Keys ascend from block to block.
pub proof fn lemma_block_keys_ascend(blocks: Seq<Seq<Row>>, a: int, i: int, b: int, j: int)
    requires
        sorted(concat_rows(blocks)),
        0 <= a < b < blocks.len(),
        0 <= i < blocks[a].len(),
        0 <= j < blocks[b].len(),
    ensures
        key_lt(blocks[a][i].0, blocks[b][j].0),
{
    let rows = concat_rows(blocks);
    lemma_block_rows(blocks, a);
    lemma_block_rows(blocks, b);
    lemma_block_starts_ascend(blocks, a + 1, b);
    let p = block_start(blocks, a) + i;
    let q = block_start(blocks, b) + j;
    assert(rows.subrange(block_start(blocks, a), block_start(blocks, a) + blocks[a].len())[i] == rows[p]);
    assert(rows.subrange(block_start(blocks, b), block_start(blocks, b) + blocks[b].len())[j] == rows[q]);
    assert(key_lt(rows[p].0, rows[q].0));
}

proof fn lemma_block_starts_ascend(blocks: Seq<Seq<Row>>, a: int, b: int)
    requires
        0 <= a <= b <= blocks.len(),
    ensures
        block_start(blocks, a) <= block_start(blocks, b),
    decreases b - a,
{
    if a < b {
        lemma_block_rows(blocks, b - 1);
        lemma_block_starts_ascend(blocks, a, b - 1);
    }
}

/// A table file in which one byte has changed is refused, whichever byte it is; behind the magic
/// number and the version it is the checksum that tells.
pub proof fn law_damaged_table_is_refused(data: Seq<u8>, at: int, byte: u8)
    requires
        parse_table(data) is Ok,
        0 <= at < data.len(),
        byte != data[at],
    ensures
        parse_table(data.update(at, byte)) is Err,
        at >= 8 ==> parse_table(data.update(at, byte)) == Err::<TableParts, Seq<char>>("checksum mismatch"@),
{
    let damaged = data.update(at, byte);
    let len = data.len() as int;
    let body = data.take(len - 4);
    if at < len - 4 {
        assert(damaged.take(len - 4) =~= body.update(at, byte));
        law_single_byte_change_is_detected(body, at, byte);
        lemma_u32_at_same(damaged, len - 4, data, len - 4);
    } else {
        assert(damaged.take(len - 4) =~= body);
        lemma_u32_byte_change(data, len - 4, at, byte);
    }
    if at >= 8 {
        lemma_u32_at_same(damaged, 0, data, 0);
        lemma_u32_at_same(damaged, 4, data, 4);
    }
}

/// A file that is accepted has the magic number, the version, the checksum and as many records as it
/// says, in ascending order of their keys, none of which the filter rejects.
pub proof fn law_accepted_table_is_sound(data: Seq<u8>)
    requires
        parse_table(data) is Ok,
    ensures
        ({
            let parts = parse_table(data)->Ok_0;
            let rows = concat_rows(parts.blocks);
            let len = data.len() as int;
            &&& len >= 40
            &&& u32_at(data, 0) == 0x50454242
            &&& u32_at(data, 4) == 2
            &&& u32_at(data, 8) == rows.len()
            &&& u32_at(data, len - 4) == crc32_of(data.subrange(0, len - 4))
            &&& 20 <= u32_at(data, len - 20)
            &&& u32_at(data, len - 20) + u32_at(data, len - 16) == u32_at(data, len - 12)
            &&& u32_at(data, len - 12) + u32_at(data, len - 8) == len - 20
            &&& forall|i: int, j: int| 0 <= i < j < rows.len() ==> key_lt((#[trigger] rows[i]).0, (#[trigger] rows[j]).0)
            &&& forall|i: int| 0 <= i < rows.len() ==> filter_bytes_has(parts.filter, (#[trigger] rows[i]).0)
        }),
{
    assert(data.subrange(0, data.len() - 4) =~= data.take(data.len() - 4));
}

/// A file that is too short for a header and a footer is refused.
pub proof fn law_short_table_is_refused(data: Seq<u8>)
    requires
        data.len() < 40,
    ensures
        parse_table(data) == Err::<TableParts, Seq<char>>("file too short"@),
{
}

/// A block is closed only where the next record would take it over the size.
pub proof fn law_blocks_are_filled(rows: Seq<Row>, block_size: int)
    ensures
        forall|i: int|
            0 <= i < blocks_of(rows, block_size).len() - 1 ==> rows_bytes(#[trigger] blocks_of(rows, block_size)[i]).len()
                + record_len(blocks_of(rows, block_size)[i + 1][0]) > block_size,
    decreases rows.len(),
{
    if rows.len() > 0 {
        let before = blocks_of(rows.drop_last(), block_size);
        let blocks = blocks_of(rows, block_size);
        law_blocks_are_filled(rows.drop_last(), block_size);
        law_blocks_partition_rows(rows.drop_last(), block_size);
        if blocks.len() == before.len() {
            assert(before[before.len() - 1].len() > 0);
        }
        assert forall|i: int| 0 <= i < blocks.len() - 1 implies rows_bytes(#[trigger] blocks[i]).len() + record_len(
            blocks[i + 1][0],
        ) > block_size by {
            assert(blocks[i] == before[i]);
            if i + 1 < before.len() {
                assert(blocks[i + 1][0] == before[i + 1][0]);
            }
        }
    }
}

/// The index has one entry for every block: the first key of the block, where it begins in the file and
/// how long it is.
pub proof fn law_index_points_at_the_blocks(rows: Seq<Row>, block_size: u32, i: int)
    requires
        table_len(rows, block_size) <= u32::MAX,
        0 <= i < blocks_of(rows, block_size as int).len(),
    ensures
        ({
            let blocks = blocks_of(rows, block_size as int);
            let spans = spans_of(blocks);
            let data = table_bytes(rows, block_size);
            &&& spans.len() == blocks.len()
            &&& spans[i].first_key == blocks[i][0].0
            &&& 20 <= spans[i].offset
            &&& spans[i].offset + spans[i].size <= data.len()
            &&& data.subrange(spans[i].offset, spans[i].offset + spans[i].size) == rows_bytes(blocks[i])
        }),
{
    let blocks = blocks_of(rows, block_size as int);
    let spans = spans_of(blocks);
    let data = table_bytes(rows, block_size);
    let body = rows_bytes(rows);
    law_blocks_partition_rows(rows, block_size as int);
    lemma_table_layout(rows, block_size);
    lemma_block_bytes(blocks, i);
    let start = block_offset(blocks, i) - 20;
    let size = rows_bytes(blocks[i]).len() as int;
    assert(data.subrange(spans[i].offset, spans[i].offset + spans[i].size) =~= data.subrange(
        20,
        20int + body.len(),
    ).subrange(start, start + size));
}

/// What is told of a file whose frame is wrong.
pub proof fn law_wrong_frames_are_told_apart(data: Seq<u8>)
    requires
        data.len() >= 40,
    ensures
        u32_at(data, 0) != 0x50454242 ==> parse_table(data) == Err::<TableParts, Seq<char>>("invalid magic number"@),
        u32_at(data, 0) == 0x50454242 && u32_at(data, 4) != 2 ==> parse_table(data) == Err::<TableParts, Seq<char>>(
            "unsupported version: "@ + decimal(u32_at(data, 4) as nat),
        ),
        u32_at(data, 0) == 0x50454242 && u32_at(data, 4) == 2 && u32_at(data, data.len() - 4) != crc32_of(
            data.subrange(0, data.len() - 4),
        ) ==> parse_table(data) == Err::<TableParts, Seq<char>>("checksum mismatch"@),
{
    assert(data.subrange(0, data.len() - 4) =~= data.take(data.len() - 4));
}

/// An entry of the index is the length of the first key of a block, the key, and where the block begins
/// and how long it is.
pub proof fn law_index_entry_form(span: Span)
    requires
        encode_utf8(span.first_key).len() <= u32::MAX,
        0 <= span.offset <= u32::MAX,
        0 <= span.size <= u32::MAX,
    ensures
        ({
            let data = span_bytes(span);
            let n = encode_utf8(span.first_key).len() as int;
            &&& data.len() == n + 12
            &&& u32_at(data, 0) == n
            &&& data.subrange(4, n + 4) == encode_utf8(span.first_key)
            &&& u32_at(data, n + 4) == span.offset
            &&& u32_at(data, n + 8) == span.size
        }),
{
    broadcast use lemma_u32_le_len;

    let data = span_bytes(span);
    let key = encode_utf8(span.first_key);
    let n = key.len() as int;
    assert(data.subrange(0, 4) =~= u32_le(n as u32));
    assert(data.subrange(4, n + 4) =~= key);
    assert(data.subrange(n + 4, n + 8) =~= u32_le(span.offset as u32));
    assert(data.subrange(n + 8, n + 12) =~= u32_le(span.size as u32));
    law_u32_roundtrip(n as u32, data, 0);
    law_u32_roundtrip(span.offset as u32, data, n + 4);
    law_u32_roundtrip(span.size as u32, data, n + 8);
}

}
