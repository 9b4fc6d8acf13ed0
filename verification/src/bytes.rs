//! Little-endian integers in byte buffers.
use vstd::prelude::*;

verus! {

/// The four bytes of `x`, least significant first.
#[verifier::opaque]
pub open spec fn u32_le(x: u32) -> Seq<u8> {
    seq![
        (x as int % 256) as u8,
        (x as int / 256 % 256) as u8,
        (x as int / 65536 % 256) as u8,
        (x as int / 16777216) as u8,
    ]
}

/// The number whose four bytes, least significant first, stand at `at`.
#[verifier::opaque]
pub open spec fn u32_at(data: Seq<u8>, at: int) -> u32 {
    (data[at] + 256 * data[at + 1] + 65536 * data[at + 2] + 16777216 * data[at + 3]) as u32
}

/// The eight bytes of `x`, least significant first.
#[verifier::opaque]
pub open spec fn u64_le(x: u64) -> Seq<u8> {
    u32_le((x as int % 4294967296) as u32) + u32_le((x as int / 4294967296) as u32)
}

/// The number whose eight bytes, least significant first, stand at `at`.
#[verifier::opaque]
pub open spec fn u64_at(data: Seq<u8>, at: int) -> u64 {
    (u32_at(data, at) + 4294967296 * u32_at(data, at + 4)) as u64
}

pub broadcast proof fn lemma_u32_le_len(x: u32)
    ensures
        #[trigger] u32_le(x).len() == 4,
{
    reveal(u32_le);
}

proof fn lemma_u32_le(x: u32)
    ensures
        u32_at(u32_le(x), 0) == x,
{
    reveal(u32_le);
    reveal(u32_at);
    let n = x as int;
    assert(n == n % 256 + 256 * (n / 256 % 256) + 65536 * (n / 65536 % 256) + 16777216 * (n / 16777216));
}

/// The number is made of its four bytes and nothing else.
pub proof fn lemma_u32_at_same(a: Seq<u8>, i: int, b: Seq<u8>, j: int)
    requires
        a[i] == b[j],
        a[i + 1] == b[j + 1],
        a[i + 2] == b[j + 2],
        a[i + 3] == b[j + 3],
    ensures
        u32_at(a, i) == u32_at(b, j),
{
    reveal(u32_at);
}

/// Reading a number where its bytes stand gives the number.
pub proof fn law_u32_roundtrip(x: u32, data: Seq<u8>, at: int)
    requires
        0 <= at,
        at + 4 <= data.len(),
        data.subrange(at, at + 4) == u32_le(x),
    ensures
        u32_at(data, at) == x,
{
    lemma_u32_le(x);
    let s = data.subrange(at, at + 4);
    lemma_u32_at_same(data, at, s, 0);
}

pub proof fn lemma_u64_le_len(x: u64)
    ensures
        u64_le(x).len() == 8,
{
    broadcast use lemma_u32_le_len;

    reveal(u64_le);
}

/// Reading a number where its eight bytes stand gives the number.
pub proof fn law_u64_roundtrip(x: u64, data: Seq<u8>, at: int)
    requires
        0 <= at,
        at + 8 <= data.len(),
        data.subrange(at, at + 8) == u64_le(x),
    ensures
        u64_at(data, at) == x,
{
    broadcast use lemma_u32_le_len;

    reveal(u64_le);
    reveal(u64_at);
    let low = (x as int % 4294967296) as u32;
    let high = (x as int / 4294967296) as u32;
    assert(data.subrange(at, at + 4) =~= u64_le(x).subrange(0, 4));
    assert(u64_le(x).subrange(0, 4) =~= u32_le(low));
    assert(data.subrange(at + 4, at + 8) =~= u64_le(x).subrange(4, 8));
    assert(u64_le(x).subrange(4, 8) =~= u32_le(high));
    law_u32_roundtrip(low, data, at);
    law_u32_roundtrip(high, data, at + 4);
}

/// Changing one of the four bytes changes the number.
pub proof fn lemma_u32_byte_change(data: Seq<u8>, at: int, i: int, byte: u8)
    requires
        0 <= at,
        at + 4 <= data.len(),
        at <= i < at + 4,
        byte != data[i],
    ensures
        u32_at(data.update(i, byte), at) != u32_at(data, at),
{
    reveal(u32_at);
}

/// Appends the four bytes of `x`.
pub fn push_u32(buf: &mut Vec<u8>, x: u32)
    ensures
        final(buf)@ == old(buf)@ + u32_le(x),
{
    proof {
        reveal(u32_le);
    }
    buf.push((x % 256) as u8);
    buf.push((x / 256 % 256) as u8);
    buf.push((x / 65536 % 256) as u8);
    buf.push((x / 16777216) as u8);
    proof {
        assert(buf@ =~= old(buf)@ + u32_le(x));
    }
}

/// Appends the eight bytes of `x`.
pub fn push_u64(buf: &mut Vec<u8>, x: u64)
    ensures
        final(buf)@ == old(buf)@ + u64_le(x),
{
    proof {
        reveal(u64_le);
    }
    push_u32(buf, (x % 4294967296) as u32);
    push_u32(buf, (x / 4294967296) as u32);
    proof {
        assert(buf@ =~= old(buf)@ + u64_le(x));
    }
}

/// The number whose four bytes stand at `at`.
pub fn read_u32(data: &[u8], at: usize) -> (x: u32)
    requires
        at + 4 <= data@.len(),
    ensures
        x == u32_at(data@, at as int),
{
    proof {
        reveal(u32_at);
    }
    data[at] as u32 + 256 * (data[at + 1] as u32) + 65536 * (data[at + 2] as u32) + 16777216 * (data[at + 3] as u32)
}

/// The number whose eight bytes stand at `at`.
pub fn read_u64(data: &[u8], at: usize) -> (x: u64)
    requires
        at + 8 <= data@.len(),
    ensures
        x == u64_at(data@, at as int),
{
    proof {
        reveal(u64_at);
        assert(data.len() <= usize::MAX);
    }
    let low: u32 = read_u32(data, at);
    let high: u32 = read_u32(data, at + 4);
    low as u64 + 4294967296 * (high as u64)
}

/// Appends `more`.
pub fn push_bytes(buf: &mut Vec<u8>, more: &[u8])
    ensures
        final(buf)@ == old(buf)@ + more@,
{
    buf.extend_from_slice(more);
    proof {
        assert(buf@ =~= old(buf)@ + more@);
    }
}

/// A copy of `data[from..to]`.
pub fn copy_range(data: &[u8], from: usize, to: usize) -> (part: Vec<u8>)
    requires
        from <= to <= data@.len(),
    ensures
        part@ == data@.subrange(from as int, to as int),
{
    let mut part: Vec<u8> = Vec::new();
    push_bytes(&mut part, vstd::slice::slice_subrange(data, from, to));
    proof {
        assert(part@ =~= data@.subrange(from as int, to as int));
    }
    part
}

/// A number of eight bytes is two of four, the lower one first.
pub proof fn law_long_numbers_are_little_endian(x: u64, data: Seq<u8>, at: int)
    requires
        0 <= at,
        at + 8 <= data.len(),
    ensures
        u64_at(data, at) == u32_at(data, at) + 4294967296 * u32_at(data, at + 4),
        u64_le(x).len() == 8,
        u64_at(u64_le(x), 0) == x,
{
    reveal(u64_at);
    lemma_u64_le_len(x);
    assert(u64_le(x).subrange(0, 8) =~= u64_le(x));
    law_u64_roundtrip(x, u64_le(x), 0);
}

}
