//! The byte form of one record, as the log and the table files hold it.
use crate::bytes::{lemma_u32_le_len, push_bytes, push_u32, u32_le};
use crate::rows::Row;
use crate::text::byte_len;
use vstd::prelude::*;
use vstd::utf8::encode_utf8;

verus! {

pub const OP_SET: u8 = 1;

pub const OP_DELETE: u8 = 2;

/// The bytes before the key: the operation and the two lengths.
pub const RECORD_HEADER_SIZE: usize = 9;

pub open spec fn op_of(row: Row) -> u8 {
    if row.1 is Some {
        OP_SET
    } else {
        OP_DELETE
    }
}

pub open spec fn key_bytes(row: Row) -> Seq<u8> {
    encode_utf8(row.0)
}

/// The bytes of the value; a tombstone has none.
pub open spec fn value_bytes(row: Row) -> Seq<u8> {
    match row.1 {
        Some(value) => encode_utf8(value),
        None => Seq::empty(),
    }
}

pub open spec fn record_len(row: Row) -> int {
    9int + key_bytes(row).len() + value_bytes(row).len()
}

/// Operation, key length, value length, key, value.
pub open spec fn record_bytes(row: Row) -> Seq<u8> {
    seq![op_of(row)] + u32_le(key_bytes(row).len() as u32) + u32_le(value_bytes(row).len() as u32) + key_bytes(row)
        + value_bytes(row)
}

/// The row for a key and what is stored under it.
pub open spec fn row_of(key: Seq<char>, value: Option<&str>) -> Row {
    (
        key,
        match value {
            Some(value) => Some(value@),
            None => None,
        },
    )
}

/// Where the parts of a record stand.
pub proof fn lemma_record_layout(row: Row)
    ensures
        record_bytes(row).len() == record_len(row),
        record_bytes(row)[0] == op_of(row),
        record_bytes(row).subrange(1, 5) == u32_le(key_bytes(row).len() as u32),
        record_bytes(row).subrange(5, 9) == u32_le(value_bytes(row).len() as u32),
        record_bytes(row).subrange(9, 9int + key_bytes(row).len()) == key_bytes(row),
        record_bytes(row).subrange(9int + key_bytes(row).len(), record_len(row)) == value_bytes(row),
{
    broadcast use lemma_u32_le_len;

    let r = record_bytes(row);
    let k = key_bytes(row);
    let v = value_bytes(row);
    assert(r.subrange(1, 5) =~= u32_le(k.len() as u32));
    assert(r.subrange(5, 9) =~= u32_le(v.len() as u32));
    assert(r.subrange(9, 9int + k.len()) =~= k);
    assert(r.subrange(9int + k.len(), record_len(row)) =~= v);
}

/// Appends the record for `key`.
pub fn push_record(buf: &mut Vec<u8>, key: &str, value: Option<&str>)
    requires
        record_len(row_of(key@, value)) <= u32::MAX,
    ensures
        final(buf)@ == old(buf)@ + record_bytes(row_of(key@, value)),
{
    let ghost row = row_of(key@, value);
    let key_bytes = key.as_bytes();
    let (op, value_bytes): (u8, &[u8]) = match value {
        Some(value) => (OP_SET, value.as_bytes()),
        None => (OP_DELETE, "".as_bytes()),
    };
    proof {
        reveal_strlit("");
        assert(""@ =~= Seq::<char>::empty());
        assert(value is None ==> value_bytes@ =~= Seq::<u8>::empty());
    }
    buf.push(op);
    push_u32(buf, key_bytes.len() as u32);
    push_u32(buf, value_bytes.len() as u32);
    push_bytes(buf, key_bytes);
    push_bytes(buf, value_bytes);
    proof {
        assert(buf@ =~= old(buf)@ + record_bytes(row));
    }
}

/// The length of the record for `key`, where it is at most `u32::MAX`.
pub fn checked_record_size(key: &str, value: Option<&str>) -> (size: Option<u32>)
    ensures
        size is Some <==> record_len(row_of(key@, value)) <= u32::MAX,
        size matches Some(n) ==> n == record_len(row_of(key@, value)),
{
    let key_len: u64 = byte_len(key) as u64;
    let value_len: u64 = match value {
        Some(value) => byte_len(value) as u64,
        None => 0,
    };
    if key_len > 0xFFFF_FFFF || value_len > 0xFFFF_FFFF {
        return None;
    }
    let size: u64 = 9 + key_len + value_len;
    if size <= 0xFFFF_FFFF {
        Some(size as u32)
    } else {
        None
    }
}

/// The length of the record for `key`, as far as `usize` can tell.
pub fn record_size(key: &str, value: Option<&str>) -> (size: usize)
    ensures
        size == (if record_len(row_of(key@, value)) < usize::MAX {
            record_len(row_of(key@, value))
        } else {
            usize::MAX as int
        }),
{
    let value_len: usize = match value {
        Some(value) => byte_len(value),
        None => 0,
    };
    byte_len(key).saturating_add(value_len).saturating_add(RECORD_HEADER_SIZE)
}

}
