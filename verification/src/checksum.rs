//! CRC-32 (reflected, polynomial 0xEDB88320).
use vstd::prelude::*;

verus! {

pub const CRC32_POLY: u32 = 0xEDB88320;

/// One step of the shift register.
pub open spec fn crc_shift(crc: u32) -> u32 {
    if crc & 1 != 0 {
        (crc >> 1) ^ CRC32_POLY
    } else {
        crc >> 1
    }
}

/// `n` steps of the shift register.
pub open spec fn crc_shifts(crc: u32, n: nat) -> u32
    decreases n,
{
    if n == 0 {
        crc
    } else {
        crc_shift(crc_shifts(crc, (n - 1) as nat))
    }
}

/// The register after `data` has gone through it.
pub open spec fn crc_register(data: Seq<u8>) -> u32
    decreases data.len(),
{
    if data.len() == 0 {
        0xFFFFFFFFu32
    } else {
        crc_shifts(crc_register(data.drop_last()) ^ (data.last() as u32), 8)
    }
}

/// The CRC-32 checksum of `data`.
pub open spec fn crc32_of(data: Seq<u8>) -> u32 {
    crc_register(data) ^ 0xFFFFFFFFu32
}

/// The CRC-32 checksum of `data`.
pub fn crc32(data: &[u8]) -> (crc: u32)
    ensures
        crc == crc32_of(data@),
{
    let mut crc: u32 = 0xFFFFFFFF;
    let mut i: usize = 0;
    while i < data.len()
        invariant
            i <= data@.len(),
            crc == crc_register(data@.take(i as int)),
        decreases data@.len() - i,
    {
        proof {
            assert(data@.take(i + 1).drop_last() =~= data@.take(i as int));
        }
        let ghost start: u32 = crc ^ (data@[i as int] as u32);
        crc = crc ^ (data[i] as u32);
        let mut bit: u32 = 0;
        while bit < 8
            invariant
                bit <= 8,
                crc == crc_shifts(start, bit as nat),
            decreases 8 - bit,
        {
            if crc & 1 != 0 {
                crc = (crc >> 1) ^ CRC32_POLY;
            } else {
                crc = crc >> 1;
            }
            bit = bit + 1;
        }
        i = i + 1;
    }
    proof {
        assert(data@.take(data@.len() as int) =~= data@);
    }
    crc ^ 0xFFFFFFFF
}

/// A shift is undone when the bit that it brought in is known: two registers that shift to the
/// same value are the same.
proof fn lemma_shift_injective(a: u32, b: u32)
    requires
        crc_shift(a) == crc_shift(b),
    ensures
        a == b,
{
    assert((if a & 1 != 0 { (a >> 1) ^ 0xEDB88320u32 } else { a >> 1 })
        == (if b & 1 != 0 { (b >> 1) ^ 0xEDB88320u32 } else { b >> 1 }) ==> a == b) by (bit_vector);
}

proof fn lemma_shifts_injective(a: u32, b: u32, n: nat)
    requires
        crc_shifts(a, n) == crc_shifts(b, n),
    ensures
        a == b,
    decreases n,
{
    if n > 0 {
        lemma_shift_injective(crc_shifts(a, (n - 1) as nat), crc_shifts(b, (n - 1) as nat));
        lemma_shifts_injective(a, b, (n - 1) as nat);
    }
}

proof fn lemma_registers_stay_apart(a: Seq<u8>, b: Seq<u8>, more: Seq<u8>)
    requires
        crc_register(a) != crc_register(b),
    ensures
        crc_register(a + more) != crc_register(b + more),
    decreases more.len(),
{
    if more.len() == 0 {
        assert(a + more =~= a);
        assert(b + more =~= b);
    } else {
        let rest = more.drop_last();
        lemma_registers_stay_apart(a, b, rest);
        assert((a + more).drop_last() =~= a + rest);
        assert((b + more).drop_last() =~= b + rest);
        let x = crc_register(a + rest);
        let y = crc_register(b + rest);
        let byte = more.last() as u32;
        if crc_shifts(x ^ byte, 8) == crc_shifts(y ^ byte, 8) {
            lemma_shifts_injective(x ^ byte, y ^ byte, 8);
            assert(x ^ byte == y ^ byte ==> x == y) by (bit_vector);
        }
    }
}

/// Changing one byte of the data changes the checksum.
pub proof fn law_single_byte_change_is_detected(data: Seq<u8>, at: int, byte: u8)
    requires
        0 <= at < data.len(),
        byte != data[at],
    ensures
        crc32_of(data.update(at, byte)) != crc32_of(data),
{
    let before = data.take(at);
    let after = data.skip(at + 1);
    let a = before.push(data[at]);
    let b = before.push(byte);
    assert(a.drop_last() =~= before);
    assert(b.drop_last() =~= before);
    let reg = crc_register(before);
    let x = data[at] as u32;
    let y = byte as u32;
    if crc_register(a) == crc_register(b) {
        lemma_shifts_injective(reg ^ x, reg ^ y, 8);
        assert(reg ^ x == reg ^ y ==> x == y) by (bit_vector);
    }
    lemma_registers_stay_apart(a, b, after);
    assert(a + after =~= data);
    assert(b + after =~= data.update(at, byte));
    let p = crc_register(a + after);
    let q = crc_register(b + after);
    assert(p ^ 0xFFFFFFFFu32 == q ^ 0xFFFFFFFFu32 ==> p == q) by (bit_vector);
}

/// The remainder after one more bit: the register is halved, and where the bit that falls out is set the
/// polynomial is taken off.
pub open spec fn one_bit_on(remainder: u32) -> u32 {
    if remainder % 2 == 1 {
        (remainder / 2) ^ 0xEDB88320u32
    } else {
        remainder / 2
    }
}

proof fn lemma_one_bit(x: u32)
    ensures
        crc_shift(x) == one_bit_on(x),
{
    assert(x & 1 == x % 2 && x >> 1 == x / 2) by (bit_vector);
}

/// The checksum of no bytes is zero; and that of one byte more follows from the checksum before it, by
/// dividing on through the eight bits of the byte, however long the data is.
pub proof fn law_checksum_goes_on_byte_by_byte(data: Seq<u8>, byte: u8)
    ensures
        crc32_of(Seq::<u8>::empty()) == 0,
        ({
            let start = (crc32_of(data) ^ 0xFFFFFFFFu32) ^ (byte as u32);
            let half = one_bit_on(one_bit_on(one_bit_on(one_bit_on(start))));
            crc32_of(data.push(byte)) == one_bit_on(one_bit_on(one_bit_on(one_bit_on(half)))) ^ 0xFFFFFFFFu32
        }),
{
    assert(0xFFFFFFFFu32 ^ 0xFFFFFFFFu32 == 0) by (bit_vector);
    let r = crc_register(data);
    assert((r ^ 0xFFFFFFFFu32) ^ 0xFFFFFFFFu32 == r) by (bit_vector);
    assert(data.push(byte).drop_last() =~= data);
    let s0 = r ^ (byte as u32);
    reveal_with_fuel(crc_shifts, 9);
    let s1 = crc_shift(s0);
    let s2 = crc_shift(s1);
    let s3 = crc_shift(s2);
    let s4 = crc_shift(s3);
    let s5 = crc_shift(s4);
    let s6 = crc_shift(s5);
    let s7 = crc_shift(s6);
    lemma_one_bit(s0);
    lemma_one_bit(s1);
    lemma_one_bit(s2);
    lemma_one_bit(s3);
    lemma_one_bit(s4);
    lemma_one_bit(s5);
    lemma_one_bit(s6);
    lemma_one_bit(s7);
    assert(crc_shifts(s0, 8) == crc_shift(s7));
}

}
