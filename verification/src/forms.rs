//! What files, names and numbers look like.
use crate::bytes::{law_u32_roundtrip, lemma_u32_le_len, u32_at, u32_le};
use crate::checksum::crc32_of;
use crate::db::DbModel;
use crate::engine::{contents, read_sources};
use crate::iter::{law_range_is_what_the_bounds_admit, range_rows, within_end, within_start, Bound};
use crate::keys::{group_key_order, key_lt};
use crate::names::{parse_table_name, table_name};
use crate::records::{key_bytes, lemma_record_layout, record_bytes, record_len, value_bytes};
use crate::recovery::replayed;
use crate::rows::{has_key, lemma_lower_bound, lemma_upsert, live_rows, lower_bound, merge_rows, rows_get, sorted, Row};
use crate::safety::law_scan_is_the_contents;
use crate::steady::coherent;
use crate::table::{blocks_of, lemma_table_layout, parse_record, parsed_len, rows_bytes, table_bytes, table_len};
use crate::text::decimal;
use crate::wal::{decode_payload, lemma_log_entry_layout, log_entry, scan_log, LogEnd};
use vstd::arithmetic::power::pow;
use vstd::prelude::*;
use vstd::utf8::{decode_utf8_encode_utf8, encode_utf8};

verus! {

/// Numbers in files have their least significant byte first.
pub proof fn law_numbers_are_little_endian(x: u32, data: Seq<u8>, at: int)
    requires
        0 <= at,
        at + 4 <= data.len(),
    ensures
        u32_at(data, at) == data[at] + 256 * data[at + 1] + 65536 * data[at + 2] + 16777216 * data[at + 3],
        u32_le(x).len() == 4,
        u32_le(x)[0] + 256 * u32_le(x)[1] + 65536 * u32_le(x)[2] + 16777216 * u32_le(x)[3] == x,
{
    reveal(u32_at);
    lemma_u32_le_len(x);
    assert(u32_le(x).subrange(0, 4) =~= u32_le(x));
    law_u32_roundtrip(x, u32_le(x), 0);
}

/// A record is one byte for the operation (1 for a value, 2 for a tombstone), the lengths of the key
/// and of the value, and their UTF-8 bytes.
pub proof fn law_record_form(row: Row)
    requires
        record_len(row) <= u32::MAX,
    ensures
        ({
            let data = record_bytes(row);
            let key = encode_utf8(row.0);
            let value = match row.1 {
                Some(value) => encode_utf8(value),
                None => Seq::empty(),
            };
            &&& data.len() == 9 + key.len() + value.len()
            &&& data[0] == (if row.1 is Some {
                1
            } else {
                2int
            })
            &&& u32_at(data, 1) == key.len()
            &&& u32_at(data, 5) == value.len()
            &&& data.skip(9) == key + value
        }),
{
    lemma_record_layout(row);
    let data = record_bytes(row);
    law_u32_roundtrip(key_bytes(row).len() as u32, data, 1);
    law_u32_roundtrip(value_bytes(row).len() as u32, data, 5);
    let k = 9 + key_bytes(row).len() as int;
    assert(data.skip(9) =~= data.subrange(9, k) + data.subrange(k, record_len(row)));
}

/// An entry of the log is the length of the record, the record, and the checksum of both.
pub proof fn law_log_entry_form(row: Row)
    requires
        record_len(row) <= u32::MAX,
    ensures
        ({
            let data = log_entry(row);
            let n = record_bytes(row).len() as int;
            &&& data.len() == n + 8
            &&& u32_at(data, 0) == n
            &&& data.subrange(4, n + 4) == record_bytes(row)
            &&& u32_at(data, n + 4) == crc32_of(data.subrange(0, n + 4))
        }),
{
    lemma_record_layout(row);
    lemma_log_entry_layout(row);
    assert(log_entry(row).subrange(0, record_len(row) + 4) =~= log_entry(row).take(4 + record_len(row)));
}

/// A table file begins with the magic number, the version, the count of the records, the count of the
/// blocks and their size. The records follow, one behind the other. The last twenty bytes tell where
/// the index and the filter stand, and the checksum of all that comes before it.
pub proof fn law_table_form(rows: Seq<Row>, block_size: u32)
    requires
        table_len(rows, block_size) <= u32::MAX,
    ensures
        ({
            let data = table_bytes(rows, block_size);
            let len = data.len() as int;
            &&& u32_at(data, 0) == 0x50454242
            &&& u32_at(data, 4) == 2
            &&& u32_at(data, 8) == rows.len()
            &&& u32_at(data, 12) == blocks_of(rows, block_size as int).len()
            &&& u32_at(data, 16) == block_size
            &&& 20 + rows_bytes(rows).len() <= len - 20
            &&& data.subrange(20, 20int + rows_bytes(rows).len()) == rows_bytes(rows)
            &&& u32_at(data, len - 20) == 20 + rows_bytes(rows).len()
            &&& u32_at(data, len - 20) + u32_at(data, len - 16) == u32_at(data, len - 12)
            &&& u32_at(data, len - 12) + u32_at(data, len - 8) == len - 20
            &&& u32_at(data, len - 4) == crc32_of(data.subrange(0, len - 4))
        }),
{
    lemma_table_layout(rows, block_size);
    let data = table_bytes(rows, block_size);
    assert(data.subrange(0, data.len() - 4) =~= data.take(data.len() - 4));
}

/// The records of a table stand in the file one behind the other.
pub proof fn law_records_stand_in_a_row(rows: Seq<Row>, row: Row)
    ensures
        rows_bytes(Seq::<Row>::empty()) == Seq::<u8>::empty(),
        rows_bytes(rows.push(row)) == rows_bytes(rows) + record_bytes(row),
{
    assert(rows.push(row).drop_last() =~= rows);
}

/// Whether the lengths of a record fit in the bytes that there are.
pub open spec fn lengths_fit(data: Seq<u8>) -> bool {
    data.len() >= 9 && 9 + u32_at(data, 1) + u32_at(data, 5) <= data.len()
}

proof fn lemma_same_record(data: Seq<u8>, row: Row)
    requires
        lengths_fit(data),
        ({
            let k = 9 + u32_at(data, 1) as int;
            let v = k + u32_at(data, 5) as int;
            &&& encode_utf8(row.0) == data.subrange(9, k)
            &&& value_bytes(row) == data.subrange(k, v)
            &&& data[0] == (if row.1 is Some {
                1
            } else {
                2int
            })
        }),
    ensures
        data.take(9 + u32_at(data, 1) + u32_at(data, 5)) == record_bytes(row),
{
    broadcast use lemma_u32_le_len;

    let k = u32_at(data, 1);
    let v = u32_at(data, 5);
    let r = record_bytes(row);
    lemma_record_layout(row);
    lemma_le_is_at(data, 1);
    lemma_le_is_at(data, 5);
    assert(r =~= data.take(9 + k + v)) by {
        assert forall|i: int| 0 <= i < r.len() implies r[i] == data[i] by {
            if 1 <= i < 5 {
                assert(r.subrange(1, 5)[i - 1] == data.subrange(1, 5)[i - 1]);
            } else if 5 <= i < 9 {
                assert(r.subrange(5, 9)[i - 5] == data.subrange(5, 9)[i - 5]);
            } else if 9 <= i < 9 + k {
                assert(r.subrange(9, 9 + k)[i - 9] == data.subrange(9, 9 + k)[i - 9]);
            } else if 9 + k <= i {
                assert(r.subrange(9 + k, 9 + k + v)[i - 9 - k] == data.subrange(9 + k, 9 + k + v)[i - 9 - k]);
            }
        }
    }
}

/// The bytes of the number that stands somewhere are the bytes that stand there.
proof fn lemma_le_is_at(data: Seq<u8>, at: int)
    requires
        0 <= at,
        at + 4 <= data.len(),
    ensures
        u32_le(u32_at(data, at)) == data.subrange(at, at + 4),
{
    reveal(u32_at);
    reveal(u32_le);
    let n = data[at] + 256 * data[at + 1] + 65536 * data[at + 2] + 16777216 * data[at + 3];
    assert(0 <= n <= u32::MAX);
    assert(n % 256 == data[at]);
    assert(n / 256 % 256 == data[at + 1]);
    assert(n / 65536 % 256 == data[at + 2]);
    assert(n / 16777216 == data[at + 3]);
    assert(u32_le(u32_at(data, at)) =~= data.subrange(at, at + 4));
}

/// What the log accepts as a record is the record that would be written for the row that is read from
/// it; anything else is refused.
pub proof fn law_log_accepts_only_records(data: Seq<u8>)
    ensures
        decode_payload(data) matches Ok(row) ==> lengths_fit(data) && data.take(9 + u32_at(data, 1) + u32_at(data, 5))
            == record_bytes(row),
        data.len() < 9 ==> decode_payload(data) is Err,
        data.len() >= 9 && !lengths_fit(data) ==> decode_payload(data) is Err,
        data.len() >= 9 && data[0] != 1 && data[0] != 2 ==> decode_payload(data) is Err,
{
    reveal(decode_payload);
    if decode_payload(data) is Ok {
        let row = decode_payload(data)->Ok_0;
        let k = 9 + u32_at(data, 1) as int;
        let v = k + u32_at(data, 5) as int;
        decode_utf8_encode_utf8(data.subrange(9, k));
        if row.1 is Some {
            decode_utf8_encode_utf8(data.subrange(k, v));
        } else {
            assert(data.subrange(k, v) =~= Seq::<u8>::empty());
        }
        lemma_same_record(data, row);
    }
}

/// What a table accepts as a record with a value is the record that would be written for it; a
/// tombstone has the operation of one, and anything else is refused.
pub proof fn law_table_accepts_only_records(data: Seq<u8>)
    ensures
        parse_record(data) matches Ok(row) ==> lengths_fit(data) && {
            &&& row.1 is Some ==> data.take(parsed_len(data)) == record_bytes(row)
            &&& row.1 is None ==> data[0] == 2 && encode_utf8(row.0) == data.subrange(9, 9 + u32_at(data, 1))
            &&& parsed_len(data) == 9 + u32_at(data, 1) + u32_at(data, 5)
        },
        data.len() < 9 ==> parse_record(data) is Err,
        data.len() >= 9 && !lengths_fit(data) ==> parse_record(data) is Err,
        data.len() >= 9 && data[0] != 1 && data[0] != 2 ==> parse_record(data) is Err,
{
    reveal(parse_record);
    if parse_record(data) is Ok {
        let row = parse_record(data)->Ok_0;
        let k = 9 + u32_at(data, 1) as int;
        let v = k + u32_at(data, 5) as int;
        decode_utf8_encode_utf8(data.subrange(9, k));
        if row.1 is Some {
            decode_utf8_encode_utf8(data.subrange(k, v));
            lemma_same_record(data, row);
        }
    }
}

/// How the log goes on from somewhere: a record whose bytes are not all there ends it, as torn; a length
/// that no record has ends it, too; a complete record is refused where its checksum or its payload is
/// wrong, and else the log goes on behind it.
pub proof fn law_first_record_of_a_log_decides(data: Seq<u8>)
    requires
        data.len() > 0,
    ensures
        ({
            let scan = scan_log(data);
            let n = u32_at(data, 0) as int;
            &&& data.len() < 4 ==> scan.end == LogEnd::Torn && scan.rows.len() == 0 && scan.valid_len == 0
            &&& data.len() >= 4 && n < 9 ==> scan.end == LogEnd::Garbage && scan.rows.len() == 0 && scan.valid_len == 0
            &&& data.len() >= 4 && n >= 9 && data.len() < n + 8 ==> scan.end == LogEnd::Torn && scan.rows.len() == 0
                && scan.valid_len == 0
            &&& data.len() >= 4 && n >= 9 && data.len() >= n + 8 ==> {
                let right = u32_at(data, n + 4) == crc32_of(data.take(n + 4));
                let payload = decode_payload(data.subrange(4, n + 4));
                let rest = scan_log(data.skip(n + 8));
                &&& !right || payload is Err ==> scan.end is Corrupt && scan.rows.len() == 0
                &&& right && payload is Ok ==> {
                    &&& scan.rows == seq![payload->Ok_0] + rest.rows
                    &&& scan.valid_len == n + 8 + rest.valid_len
                    &&& scan.end == rest.end
                }
            }
        }),
{
}

/// Of several records of a key the last one in the log counts.
pub proof fn law_replay_keeps_the_last_record(rows: Seq<Row>, i: int)
    requires
        0 <= i < rows.len(),
        forall|j: int| i < j < rows.len() ==> (#[trigger] rows[j]).0 != rows[i].0,
    ensures
        sorted(replayed(rows)),
        rows_get(replayed(rows), rows[i].0) == Some(rows[i].1),
    decreases rows.len(),
{
    let before = rows.drop_last();
    lemma_replayed(before);
    lemma_upsert(replayed(before), rows.last());
    if i < before.len() {
        assert(rows[rows.len() - 1].0 != rows[i].0);
        assert forall|j: int| i < j < before.len() implies (#[trigger] before[j]).0 != before[i].0 by {
            assert(rows[j].0 != rows[i].0);
        }
        law_replay_keeps_the_last_record(before, i);
    }
}

/// A key that is nowhere in the log is not in the memtable.
pub proof fn law_replay_adds_nothing(rows: Seq<Row>, key: Seq<char>)
    requires
        forall|j: int| 0 <= j < rows.len() ==> (#[trigger] rows[j]).0 != key,
    ensures
        !has_key(replayed(rows), key),
    decreases rows.len(),
{
    if rows.len() > 0 {
        let before = rows.drop_last();
        lemma_replayed(before);
        lemma_upsert(replayed(before), rows.last());
        assert(rows[rows.len() - 1].0 != key);
        assert forall|j: int| 0 <= j < before.len() implies (#[trigger] before[j]).0 != key by {
            assert(rows[j].0 != key);
        }
        law_replay_adds_nothing(before, key);
    }
}

proof fn lemma_replayed(rows: Seq<Row>)
    ensures
        sorted(replayed(rows)),
    decreases rows.len(),
{
    if rows.len() > 0 {
        lemma_replayed(rows.drop_last());
        lemma_upsert(replayed(rows.drop_last()), rows.last());
    }
}

/// The digits of a number in decimal: the digit `i` places from the end is the number divided by ten so
/// often, modulo ten; and there is no leading zero.
pub proof fn law_decimal_digits(n: nat, i: nat)
    ensures
        decimal(n).len() > 0,
        i < decimal(n).len() ==> decimal(n)[decimal(n).len() - 1 - i] as int == 48 + n as int / pow(10, i) % 10,
        n > 0 ==> decimal(n)[0] != '0',
        n == 0 ==> decimal(n) == seq!['0'],
    decreases n,
{
    vstd::arithmetic::power::lemma_pow0(10);
    if n >= 10 {
        law_decimal_digits(n / 10, if i > 0 {
            (i - 1) as nat
        } else {
            0
        });
        let rest = decimal(n / 10);
        assert(decimal(n) == rest.push(crate::text::digit_char(n % 10)));
        if 0 < i < decimal(n).len() {
            let j = (i - 1) as nat;
            vstd::arithmetic::power::lemma_pow_positive(10, j);
            vstd::arithmetic::div_mod::lemma_div_denominator(n as int, 10, pow(10, j));
            reveal(pow);
            assert(pow(10, i) == 10 * pow(10, j));
            assert(decimal(n)[decimal(n).len() - 1 - i] == rest[rest.len() - 1 - j]);
        }
        if i == 0 {
            assert(n as int / 1 == n);
        }
    } else {
        assert(n as int / 1 == n);
        if n == 0 {
            assert(decimal(0) =~= seq!['0']);
        }
    }
}

/// A table file is named after its level and its id, which has six digits at least.
pub proof fn law_table_name_form(level: u32, id: u64)
    ensures
        exists|zeros: nat| table_name(level, id) == #[trigger] spelled(level, zeros, id) && (zeros > 0 ==> zeros + decimal(
            id as nat,
        ).len() == 6),
        decimal(id as nat).len() < 6 ==> table_name(level, id) == spelled(level, (6 - decimal(id as nat).len()) as nat, id),
{
    let digits = decimal(id as nat);
    let zeros = if digits.len() < 6 {
        (6 - digits.len()) as nat
    } else {
        0
    };
    assert(spelled(level, zeros, id) =~= table_name(level, id));
}

/// The name of a table file with so many zeros in front of its id.
pub open spec fn spelled(level: u32, zeros: nat, id: u64) -> Seq<char> {
    "sstable_L"@ + decimal(level as nat) + "_"@ + Seq::new(zeros, |i: int| '0') + decimal(id as nat) + ".sst"@
}

/// A file is taken for a table only where its name begins with `sstable_` and ends with `.sst`.
pub proof fn law_only_table_names_are_tables(name: Seq<char>)
    requires
        parse_table_name(name) is Some,
    ensures
        "sstable_"@.is_prefix_of(name),
        ".sst"@.is_suffix_of(name),
{
    reveal_strlit("sstable_");
    reveal_strlit(".sst");
    let tail = name.skip(8);
    assert(name.subrange(0, 8) =~= name.take(8));
    assert(name.subrange(name.len() - 4, name.len() as int) =~= tail.skip(tail.len() - 4));
}

/// Which keys a bound admits at the start and at the end of a range.
pub proof fn law_bounds(limit: String, key: Seq<char>)
    ensures
        within_start(Bound::Unbounded, key) && within_end(Bound::Unbounded, key),
        within_start(Bound::Included(limit), key) <==> !key_lt(key, limit@),
        within_start(Bound::Excluded(limit), key) <==> key_lt(limit@, key),
        within_end(Bound::Included(limit), key) <==> !key_lt(limit@, key),
        within_end(Bound::Excluded(limit), key) <==> key_lt(key, limit@),
{
    broadcast use group_key_order;

    crate::keys::law_key_lt_total(key, limit@);
    crate::keys::law_key_lt_total(limit@, key);
}

/// Whether a key lies between two bounds.
pub open spec fn lies_between(start: Bound, end: Bound, key: Seq<char>) -> bool {
    &&& match start {
        Bound::Unbounded => true,
        Bound::Included(first) => !key_lt(key, first@),
        Bound::Excluded(before) => key_lt(before@, key),
    }
    &&& match end {
        Bound::Unbounded => true,
        Bound::Included(last) => !key_lt(last@, key),
        Bound::Excluded(stop) => key_lt(key, stop@),
    }
}

/// A range over a database has the keys between its bounds that have a value, each with its value, in
/// ascending order; and it has all of them.
pub proof fn law_range_over_a_database(model: DbModel, start: Bound, end: Bound)
    requires
        coherent(model),
    ensures
        ({
            let rows = range_rows(
                live_rows(merge_rows(read_sources(model.memtable, model.tree.levels))),
                start,
                end,
            );
            &&& forall|i: int, j: int| 0 <= i < j < rows.len() ==> key_lt((#[trigger] rows[i]).0, (#[trigger] rows[j]).0)
            &&& forall|i: int|
                0 <= i < rows.len() ==> lies_between(start, end, (#[trigger] rows[i]).0) && rows[i].1 is Some && rows[i].1
                    == contents(model.memtable, model.tree.levels, rows[i].0)
            &&& forall|key: Seq<char>| #[trigger]
                contents(model.memtable, model.tree.levels, key) is Some && lies_between(start, end, key) ==> exists|i: int|
                    0 <= i < rows.len() && (#[trigger] rows[i]).0 == key
        }),
{
    broadcast use group_key_order;

    let all = live_rows(merge_rows(read_sources(model.memtable, model.tree.levels)));
    let rows = range_rows(all, start, end);
    law_scan_is_the_contents(model.memtable, model.tree.levels);
    law_range_is_what_the_bounds_admit(all, start, end);
    assert forall|key: Seq<char>| (within_start(start, key) && within_end(end, key)) == #[trigger] lies_between(
        start,
        end,
        key,
    ) by {
        match start {
            Bound::Unbounded => {},
            Bound::Included(first) => law_bounds(first, key),
            Bound::Excluded(before) => law_bounds(before, key),
        }
        match end {
            Bound::Unbounded => {},
            Bound::Included(last) => law_bounds(last, key),
            Bound::Excluded(stop) => law_bounds(stop, key),
        }
    }
    assert forall|i: int| 0 <= i < rows.len() implies lies_between(start, end, (#[trigger] rows[i]).0) && rows[i].1 is Some
        && rows[i].1 == contents(model.memtable, model.tree.levels, rows[i].0) by {
        assert(rows.contains(rows[i]));
        let k = choose|k: int| 0 <= k < all.len() && all[k] == rows[i];
        assert(all[k].1 == contents(model.memtable, model.tree.levels, all[k].0));
    }
    assert forall|key: Seq<char>| #[trigger]
        contents(model.memtable, model.tree.levels, key) is Some && lies_between(start, end, key) implies exists|i: int|
        0 <= i < rows.len() && (#[trigger] rows[i]).0 == key by {
        let k = choose|k: int| 0 <= k < all.len() && (#[trigger] all[k]).0 == key;
        assert(all.contains(all[k]));
        assert(rows.contains(all[k]));
        let i = choose|i: int| 0 <= i < rows.len() && rows[i] == all[k];
        assert(rows[i].0 == key);
    }
}

/// Seeking goes to the first key that is not below the one that is sought.
pub proof fn law_seeking_finds_the_first_key_not_below(rows: Seq<Row>, key: Seq<char>)
    requires
        sorted(rows),
    ensures
        0 <= lower_bound(rows, key) <= rows.len(),
        forall|i: int| 0 <= i < lower_bound(rows, key) ==> key_lt((#[trigger] rows[i]).0, key),
        forall|i: int| lower_bound(rows, key) <= i < rows.len() ==> !key_lt((#[trigger] rows[i]).0, key),
{
    lemma_lower_bound(rows, key);
}

}
