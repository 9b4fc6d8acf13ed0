//! The order of keys: strings compare byte by byte in their UTF-8 form.
use crate::text::starts_with;
use vstd::prelude::*;
use vstd::utf8::{
    char_u32_cast, decode_first_scalar, encode_scalar, encode_utf8, encode_utf8_decode_utf8, encode_utf8_first_scalar,
    is_scalar,
};

verus! {

/// Lexicographic order on bytes: at the first place where the two differ, `a` ends or has the
/// smaller byte.
pub open spec fn bytes_lt(a: Seq<u8>, b: Seq<u8>) -> bool {
    exists|i: int| #[trigger] bytes_lt_at(a, b, i)
}

pub open spec fn bytes_lt_at(a: Seq<u8>, b: Seq<u8>, i: int) -> bool {
    &&& 0 <= i <= a.len()
    &&& i < b.len()
    &&& forall|j: int| 0 <= j < i ==> #[trigger] a[j] == b[j]
    &&& i == a.len() || a[i] < b[i]
}

/// The order of keys.
#[verifier::opaque]
pub open spec fn key_lt(a: Seq<char>, b: Seq<char>) -> bool {
    bytes_lt(encode_utf8(a), encode_utf8(b))
}

pub open spec fn key_le(a: Seq<char>, b: Seq<char>) -> bool {
    a == b || key_lt(a, b)
}

pub proof fn lemma_encode_injective(a: Seq<char>, b: Seq<char>)
    requires
        encode_utf8(a) == encode_utf8(b),
    ensures
        a == b,
{
    encode_utf8_decode_utf8(a);
    encode_utf8_decode_utf8(b);
}

/// No key is below itself.
pub broadcast proof fn law_key_lt_irreflexive(a: Seq<char>)
    ensures
        !#[trigger] key_lt(a, a),
{
    reveal(key_lt);
}

/// The order of keys is transitive.
pub broadcast proof fn law_key_lt_transitive(a: Seq<char>, b: Seq<char>, c: Seq<char>)
    requires
        #[trigger] key_lt(a, b),
        #[trigger] key_lt(b, c),
    ensures
        key_lt(a, c),
{
    reveal(key_lt);
    let x = encode_utf8(a);
    let y = encode_utf8(b);
    let z = encode_utf8(c);
    let i = choose|i: int| #[trigger] bytes_lt_at(x, y, i);
    let j = choose|j: int| #[trigger] bytes_lt_at(y, z, j);
    let m = if i < j { i } else { j };
    assert(bytes_lt_at(x, z, m));
}

/// Of two different keys one is below the other.
pub broadcast proof fn law_key_lt_total(a: Seq<char>, b: Seq<char>)
    ensures
        #[trigger] key_lt(a, b) || a == b || key_lt(b, a),
{
    reveal(key_lt);
    let x = encode_utf8(a);
    let y = encode_utf8(b);
    lemma_first_difference(x, y, 0);
    if x == y {
        lemma_encode_injective(a, b);
    }
}

proof fn lemma_first_difference(x: Seq<u8>, y: Seq<u8>, i: int)
    requires
        0 <= i <= x.len(),
        i <= y.len(),
        forall|j: int| 0 <= j < i ==> x[j] == y[j],
    ensures
        bytes_lt(x, y) || x == y || bytes_lt(y, x),
    decreases x.len() - i,
{
    if i == x.len() || i == y.len() || x[i] != y[i] {
        if i < y.len() && (i == x.len() || x[i] < y[i]) {
            assert(bytes_lt_at(x, y, i));
        } else if i < x.len() && (i == y.len() || y[i] < x[i]) {
            assert(bytes_lt_at(y, x, i));
        } else {
            assert(x =~= y);
        }
    } else {
        lemma_first_difference(x, y, i + 1);
    }
}

pub broadcast group group_key_order {
    law_key_lt_irreflexive,
    law_key_lt_transitive,
    law_key_lt_total,
}

/// The bytes of a string begin with the bytes of what it begins with.
proof fn lemma_prefix_bytes(key: Seq<char>, prefix: Seq<char>)
    requires
        starts_with(key, prefix),
    ensures
        encode_utf8(prefix).len() <= encode_utf8(key).len(),
        encode_utf8(key).take(encode_utf8(prefix).len() as int) == encode_utf8(prefix),
    decreases prefix.len(),
{
    if prefix.len() == 0 {
        assert(encode_utf8(key).take(0) =~= Seq::<u8>::empty());
    } else {
        let n = prefix.len() as int;
        assert(key[0] == key.take(n)[0]);
        let k = key.drop_first();
        let p = prefix.drop_first();
        assert(k.take(n - 1) =~= key.take(n).drop_first());
        lemma_prefix_bytes(k, p);
        let head = encode_scalar(key[0] as u32);
        assert(encode_utf8(key) == head + encode_utf8(k));
        assert(encode_utf8(prefix) == head + encode_utf8(p));
        assert(encode_utf8(key).take(encode_utf8(prefix).len() as int) =~= head + encode_utf8(k).take(
            encode_utf8(p).len() as int,
        ));
    }
}

/// A string begins with what its bytes begin with.
proof fn lemma_bytes_prefix(key: Seq<char>, prefix: Seq<char>)
    requires
        encode_utf8(prefix).len() <= encode_utf8(key).len(),
        encode_utf8(key).take(encode_utf8(prefix).len() as int) == encode_utf8(prefix),
    ensures
        starts_with(key, prefix),
    decreases prefix.len(),
{
    if prefix.len() == 0 {
        assert(key.take(0) =~= prefix);
    } else {
        let a = encode_utf8(key);
        let b = encode_utf8(prefix);
        encode_utf8_first_scalar(prefix);
        assert(key.len() > 0);
        encode_utf8_first_scalar(key);
        assert forall|i: int| 0 <= i < b.len() implies #[trigger] a[i] == b[i] by {
            assert(a.take(b.len() as int)[i] == b[i]);
        }
        assert(decode_first_scalar(a) == decode_first_scalar(b));
        assert(key[0] as u32 == prefix[0] as u32);
        char_u32_cast(key[0], prefix[0] as u32);
        char_u32_cast(prefix[0], prefix[0] as u32);
        assert(key[0] == prefix[0]);
        let head = encode_scalar(key[0] as u32);
        let k = key.drop_first();
        let p = prefix.drop_first();
        assert(a == head + encode_utf8(k));
        assert(b == head + encode_utf8(p));
        assert forall|i: int| 0 <= i < encode_utf8(p).len() implies encode_utf8(k)[i] == encode_utf8(p)[i] by {
            assert(a[head.len() + i] == b[head.len() + i]);
        }
        assert(encode_utf8(k).take(encode_utf8(p).len() as int) =~= encode_utf8(p));
        lemma_bytes_prefix(k, p);
        assert(key.take(prefix.len() as int) =~= prefix) by {
            assert forall|i: int| 0 <= i < prefix.len() implies key[i] == prefix[i] by {
                if i > 0 {
                    assert(k.take(p.len() as int)[i - 1] == p[i - 1]);
                }
            }
        }
    }
}

/// The keys that begin with a prefix stand together: they come from the prefix on, and no other
/// key stands between two of them.
pub proof fn law_prefix_keys_stand_together(prefix: Seq<char>, a: Seq<char>, b: Seq<char>)
    requires
        starts_with(b, prefix),
    ensures
        key_le(prefix, b),
        key_le(prefix, a) && key_lt(a, b) ==> starts_with(a, prefix),
{
    reveal(key_lt);
    let p = encode_utf8(prefix);
    let x = encode_utf8(a);
    let y = encode_utf8(b);
    lemma_prefix_bytes(b, prefix);
    assert forall|i: int| 0 <= i < p.len() implies #[trigger] p[i] == y[i] by {
        assert(y.take(p.len() as int)[i] == p[i]);
    }
    if y.len() == p.len() {
        assert(y =~= p);
        lemma_encode_injective(b, prefix);
    } else {
        assert(bytes_lt_at(p, y, p.len() as int));
    }
    if key_le(prefix, a) && key_lt(a, b) {
        if a != prefix {
            let i = choose|i: int| #[trigger] bytes_lt_at(p, x, i);
            if i < p.len() {
                assert forall|j: int| 0 <= j < i implies #[trigger] y[j] == x[j] by {
                    assert(p[j] == x[j]);
                }
                assert(y[i] == p[i]);
                assert(bytes_lt_at(y, x, i));
                law_key_lt_transitive(a, b, a);
                law_key_lt_irreflexive(a);
            }
            assert(x.take(p.len() as int) =~= p);
        } else {
            assert(x.take(p.len() as int) =~= p);
        }
        lemma_bytes_prefix(a, prefix);
    }
}

/// The bytes of two strings in a row.
proof fn lemma_encode_concat(a: Seq<char>, b: Seq<char>)
    ensures
        encode_utf8(a + b) == encode_utf8(a) + encode_utf8(b),
    decreases a.len(),
{
    if a.len() == 0 {
        assert(a + b =~= b);
        assert(encode_utf8(a) + encode_utf8(b) =~= encode_utf8(b));
    } else {
        assert((a + b).drop_first() =~= a.drop_first() + b);
        lemma_encode_concat(a.drop_first(), b);
        assert(encode_utf8(a + b) =~= encode_utf8(a) + encode_utf8(b));
    }
}

/// Of two characters, the one with the smaller number has the smaller bytes.
proof fn lemma_scalar_order(c: u32, d: u32) -> (i: int)
    requires
        c < d,
        is_scalar(c),
        is_scalar(d),
    ensures
        0 <= i < encode_scalar(c).len(),
        i < encode_scalar(d).len(),
        encode_scalar(c)[i] < encode_scalar(d)[i],
        forall|j: int| 0 <= j < i ==> encode_scalar(c)[j] == encode_scalar(d)[j],
{
    assert(c < d <= 0x10FFFF ==> {
        &&& (c <= 0x7F && d <= 0x7F ==> ((c & 0x7F) as u8) < ((d & 0x7F) as u8))
        &&& (c <= 0x7F && d > 0x7F ==> ((c & 0x7F) as u8) < 0xC0u8)
        &&& (0xC0u8 | (((c >> 6) & 0x1F) as u8)) < 0xE0u8
        &&& 0xC0u8 <= (0xC0u8 | (((d >> 6) & 0x1F) as u8))
        &&& 0xE0u8 <= (0xE0u8 | (((d >> 12) & 0x0F) as u8))
        &&& (0xE0u8 | (((c >> 12) & 0x0F) as u8)) < 0xF0u8
        &&& 0xF0u8 <= (0xF0u8 | (((d >> 18) & 0x7) as u8))
    }) by (bit_vector);
    assert(0x80 <= c < d <= 0x7FF ==> {
        let a1 = 0xC0u8 | ((c >> 6) & 0x1F) as u8;
        let b1 = 0xC0u8 | ((d >> 6) & 0x1F) as u8;
        let a2 = 0x80u8 | (c & 0x3F) as u8;
        let b2 = 0x80u8 | (d & 0x3F) as u8;
        a1 < b1 || (a1 == b1 && a2 < b2)
    }) by (bit_vector);
    assert(0x800 <= c < d <= 0xFFFF ==> {
        let a1 = 0xE0u8 | ((c >> 12) & 0x0F) as u8;
        let b1 = 0xE0u8 | ((d >> 12) & 0x0F) as u8;
        let a2 = 0x80u8 | ((c >> 6) & 0x3F) as u8;
        let b2 = 0x80u8 | ((d >> 6) & 0x3F) as u8;
        let a3 = 0x80u8 | (c & 0x3F) as u8;
        let b3 = 0x80u8 | (d & 0x3F) as u8;
        a1 < b1 || (a1 == b1 && (a2 < b2 || (a2 == b2 && a3 < b3)))
    }) by (bit_vector);
    assert(0x10000 <= c < d <= 0x10FFFF ==> {
        let a1 = 0xF0u8 | ((c >> 18) & 0x7) as u8;
        let b1 = 0xF0u8 | ((d >> 18) & 0x7) as u8;
        let a2 = 0x80u8 | ((c >> 12) & 0x3F) as u8;
        let b2 = 0x80u8 | ((d >> 12) & 0x3F) as u8;
        let a3 = 0x80u8 | ((c >> 6) & 0x3F) as u8;
        let b3 = 0x80u8 | ((d >> 6) & 0x3F) as u8;
        let a4 = 0x80u8 | (c & 0x3F) as u8;
        let b4 = 0x80u8 | (d & 0x3F) as u8;
        a1 < b1 || (a1 == b1 && (a2 < b2 || (a2 == b2 && (a3 < b3 || (a3 == b3 && a4 < b4)))))
    }) by (bit_vector);
    let x = encode_scalar(c);
    let y = encode_scalar(d);
    if x[0] < y[0] {
        0
    } else if x[1] < y[1] {
        1
    } else if x[2] < y[2] {
        2
    } else {
        3
    }
}

/// Keys compare character by character: where two keys agree up to a place, and there the first has
/// the character with the smaller number, the first is below the second, whatever follows.
pub proof fn law_first_difference_decides(
    prefix: Seq<char>,
    c: char,
    d: char,
    rest: Seq<char>,
    other: Seq<char>,
)
    requires
        (c as u32) < (d as u32),
    ensures
        key_lt(prefix + seq![c] + rest, prefix + seq![d] + other),
        !key_lt(prefix + seq![d] + other, prefix + seq![c] + rest),
{
    let a = prefix + seq![c] + rest;
    let b = prefix + seq![d] + other;
    let p = encode_utf8(prefix);
    let x = encode_scalar(c as u32);
    let y = encode_scalar(d as u32);
    lemma_encode_concat(prefix + seq![c], rest);
    lemma_encode_concat(prefix, seq![c]);
    lemma_encode_concat(prefix + seq![d], other);
    lemma_encode_concat(prefix, seq![d]);
    lemma_one_char(c);
    lemma_one_char(d);
    let i = lemma_scalar_order(c as u32, d as u32);
    let at = p.len() + i;
    assert(encode_utf8(a) =~= p + x + encode_utf8(rest));
    assert(encode_utf8(b) =~= p + y + encode_utf8(other));
    assert(encode_utf8(a)[at] == x[i]);
    assert(encode_utf8(b)[at] == y[i]);
    assert forall|j: int| 0 <= j < at implies #[trigger] encode_utf8(a)[j] == encode_utf8(b)[j] by {
        if j >= p.len() {
            assert(x[j - p.len()] == y[j - p.len()]);
        }
    }
    assert(bytes_lt_at(encode_utf8(a), encode_utf8(b), at));
    reveal(key_lt);
    assert(key_lt(a, b));
    if key_lt(b, a) {
        law_key_lt_transitive(a, b, a);
        law_key_lt_irreflexive(a);
    }
}

proof fn lemma_one_char(c: char)
    ensures
        encode_utf8(seq![c]) == encode_scalar(c as u32),
{
    assert(seq![c].drop_first() =~= Seq::<char>::empty());
    assert(encode_utf8(Seq::<char>::empty()) =~= Seq::<u8>::empty());
    assert(encode_scalar(c as u32) + Seq::<u8>::empty() =~= encode_scalar(c as u32));
}

/// A key is below every longer key that begins with it.
pub proof fn law_key_is_below_its_extensions(key: Seq<char>, more: Seq<char>)
    requires
        more.len() > 0,
    ensures
        key_lt(key, key + more),
        !key_lt(key + more, key),
{
    lemma_encode_concat(key, more);
    let x = encode_utf8(key);
    assert(encode_utf8(more).len() > 0) by {
        encode_utf8_first_scalar(more);
        assert(encode_scalar(more[0] as u32).len() > 0);
    }
    reveal(key_lt);
    assert(bytes_lt_at(x, encode_utf8(key + more), x.len() as int));
    if key_lt(key + more, key) {
        law_key_lt_transitive(key, key + more, key);
        law_key_lt_irreflexive(key);
    }
}

/// Whether key `a` is below key `b`.
pub fn str_lt(a: &str, b: &str) -> (below: bool)
    ensures
        below == key_lt(a@, b@),
{
    proof {
        reveal(key_lt);
    }
    let x = a.as_bytes();
    let y = b.as_bytes();
    let mut i: usize = 0;
    while i < x.len() && i < y.len() && x[i] == y[i]
        invariant
            x@ == encode_utf8(a@),
            y@ == encode_utf8(b@),
            i <= x@.len(),
            i <= y@.len(),
            forall|j: int| 0 <= j < i ==> x@[j] == y@[j],
        decreases x@.len() - i,
    {
        i = i + 1;
    }
    let below = i < y.len() && (i == x.len() || x[i] < y[i]);
    proof {
        if below {
            assert(bytes_lt_at(x@, y@, i as int));
        } else if bytes_lt(x@, y@) {
            let k = choose|k: int| #[trigger] bytes_lt_at(x@, y@, k);
            assert(k >= i ==> i < y@.len());
            assert(false);
        }
    }
    below
}

/// Whether two strings are the same.
pub fn str_eq(a: &str, b: &str) -> (same: bool)
    ensures
        same == (a@ == b@),
{
    let x = a.as_bytes();
    let y = b.as_bytes();
    if x.len() != y.len() {
        return false;
    }
    let mut i: usize = 0;
    while i < x.len()
        invariant
            x@ == encode_utf8(a@),
            y@ == encode_utf8(b@),
            i <= x@.len(),
            x@.len() == y@.len(),
            forall|j: int| 0 <= j < i ==> x@[j] == y@[j],
        decreases x@.len() - i,
    {
        if x[i] != y[i] {
            return false;
        }
        i = i + 1;
    }
    proof {
        assert(x@ =~= y@);
        lemma_encode_injective(a@, b@);
    }
    true
}

/// Whether key `a` is at most key `b`.
pub fn str_le(a: &str, b: &str) -> (at_most: bool)
    ensures
        at_most == key_le(a@, b@),
{
    proof {
        law_key_lt_total(a@, b@);
        law_key_lt_irreflexive(a@);
        if key_lt(a@, b@) && key_lt(b@, a@) {
            law_key_lt_transitive(a@, b@, a@);
        }
    }
    !str_lt(b, a)
}

}
