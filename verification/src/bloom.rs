//! Bloom filters over keys.
use crate::bytes::{
    law_u32_roundtrip, law_u64_roundtrip, lemma_u32_le_len, lemma_u64_le_len, push_u32, push_u64, read_u32, read_u64,
    u32_at, u32_le, u64_at, u64_le,
};
use crate::checksum::{crc32, crc32_of};
use vstd::prelude::*;
use vstd::utf8::encode_utf8;

verus! {

pub struct BloomFilter {
    bits: Vec<u64>,
    num_bits: usize,
    num_hashes: usize,
}

/// Whether bit `b` of a bit array is set.
pub open spec fn bit_at(words: Seq<u64>, b: int) -> bool {
    words[b / 64] & (1u64 << ((b % 64) as u64)) != 0
}

/// The number of words that hold `num_bits` bits.
pub open spec fn words_for(num_bits: int) -> int {
    (num_bits + 63) / 64
}

/// The bit that the hash function number `i` gives a key.
pub open spec fn probe(key: Seq<char>, i: int, num_bits: int) -> int {
    let bytes = encode_utf8(key);
    let first = crc32_of(bytes) as u64;
    let second = crc32_of(bytes.reverse()) as u64;
    first.wrapping_add((i as u64).wrapping_mul(second)) as int % num_bits
}

/// Whether one of the hash functions gives the key bit `b`.
pub open spec fn probes(key: Seq<char>, num_hashes: int, num_bits: int, b: int) -> bool {
    exists|i: int| 0 <= i < num_hashes && #[trigger] probe(key, i, num_bits) == b
}

/// The bits for `items` keys at a false positive rate of one percent, at least 64:
/// the key count times ln(100) / ln(2)^2, rounded up.
pub open spec fn bits_for_items(items: int) -> int {
    let exact = (items * 9585058377367439 + 999999999999999) / 1000000000000000;
    if exact < 64 {
        64
    } else if exact > usize::MAX {
        usize::MAX as int
    } else {
        exact
    }
}

/// The number of hash functions that suits `num_bits` bits and `items` keys: their ratio times
/// ln(2), rounded, between 1 and 30.
pub open spec fn hashes_for_items(num_bits: int, items: int) -> int {
    let rounded = (2 * num_bits * 693147180559945309 + items * 1000000000000000000) / (2 * items * 1000000000000000000);
    if rounded < 1 {
        1
    } else if rounded > 30 {
        30
    } else {
        rounded
    }
}

/// Every hash function finds its bit for `key` set.
pub open spec fn filter_has(num_bits: int, num_hashes: int, words: Seq<u64>, key: Seq<char>) -> bool {
    forall|i: int| 0 <= i < num_hashes ==> bit_at(words, #[trigger] probe(key, i, num_bits))
}

/// A bit array with bit `b` set.
pub open spec fn with_bit(words: Seq<u64>, b: int) -> Seq<u64> {
    words.update(b / 64, words[b / 64] | (1u64 << ((b % 64) as u64)))
}

/// A bit array with the bits set that the first `num_hashes` hash functions give `key`.
pub open spec fn with_key(words: Seq<u64>, key: Seq<char>, num_hashes: nat, num_bits: int) -> Seq<u64>
    decreases num_hashes,
{
    if num_hashes == 0 {
        words
    } else {
        with_bit(
            with_key(words, key, (num_hashes - 1) as nat, num_bits),
            probe(key, num_hashes - 1, num_bits),
        )
    }
}

/// A bit array with the bits of all `keys` set.
pub open spec fn with_keys(words: Seq<u64>, keys: Seq<Seq<char>>, num_hashes: nat, num_bits: int) -> Seq<u64>
    decreases keys.len(),
{
    if keys.len() == 0 {
        words
    } else {
        with_key(with_keys(words, keys.drop_last(), num_hashes, num_bits), keys.last(), num_hashes, num_bits)
    }
}

/// The bit count of the filter for `keys`.
pub open spec fn filter_bits(keys: Seq<Seq<char>>) -> int {
    bits_for_items(if keys.len() == 0 { 1 } else { keys.len() as int })
}

/// The number of hash functions of the filter for `keys`.
pub open spec fn filter_hashes(keys: Seq<Seq<char>>) -> int {
    hashes_for_items(filter_bits(keys), if keys.len() == 0 { 1 } else { keys.len() as int })
}

/// The words of the filter for `keys`.
pub open spec fn filter_words(keys: Seq<Seq<char>>) -> Seq<u64> {
    with_keys(
        Seq::new(words_for(filter_bits(keys)) as nat, |i: int| 0u64),
        keys,
        filter_hashes(keys) as nat,
        filter_bits(keys),
    )
}

/// The bytes of the filter for `keys`.
pub open spec fn filter_bytes(keys: Seq<Seq<char>>) -> Seq<u8> {
    encoded_filter(filter_bits(keys), filter_hashes(keys), filter_words(keys))
}

/// Bit count, hash function count (both modulo 2^32) and the words.
pub open spec fn encoded_filter(num_bits: int, num_hashes: int, words: Seq<u64>) -> Seq<u8> {
    u32_le((num_bits % 4294967296) as u32) + u32_le((num_hashes % 4294967296) as u32) + word_bytes(words)
}

/// The words that stand behind the two counts.
pub open spec fn decoded_words(data: Seq<u8>) -> Seq<u64> {
    Seq::new(words_for(u32_at(data, 0) as int) as nat, |i: int| u64_at(data, 8 + 8 * i))
}

/// The views of several strings.
pub open spec fn views(keys: Seq<&str>) -> Seq<Seq<char>> {
    Seq::new(keys.len(), |i: int| keys[i]@)
}

/// The bytes of a bit array.
pub open spec fn word_bytes(words: Seq<u64>) -> Seq<u8>
    decreases words.len(),
{
    if words.len() == 0 {
        Seq::empty()
    } else {
        word_bytes(words.drop_last()) + u64_le(words.last())
    }
}

proof fn lemma_word_bytes_len(words: Seq<u64>)
    ensures
        word_bytes(words).len() == 8 * words.len(),
    decreases words.len(),
{
    if words.len() > 0 {
        lemma_u64_le_len(words.last());
        lemma_word_bytes_len(words.drop_last());
    }
}

proof fn lemma_word_bytes_at(words: Seq<u64>, i: int)
    requires
        0 <= i < words.len(),
    ensures
        word_bytes(words).len() == 8 * words.len(),
        word_bytes(words).subrange(8 * i, 8 * i + 8) == u64_le(words[i]),
    decreases words.len(),
{
    lemma_word_bytes_len(words);
    let rest = words.drop_last();
    lemma_word_bytes_len(rest);
    lemma_u64_le_len(words.last());
    if i < rest.len() {
        lemma_word_bytes_at(rest, i);
        assert(word_bytes(words).subrange(8 * i, 8 * i + 8) =~= word_bytes(rest).subrange(8 * i, 8 * i + 8));
    } else {
        assert(word_bytes(words).subrange(8 * i, 8 * i + 8) =~= u64_le(words[i]));
    }
}

proof fn lemma_set_bit(word: u64, set: u64, seen: u64)
    requires
        set < 64,
        seen < 64,
    ensures
        ((word | (1u64 << set)) & (1u64 << seen) != 0) == (set == seen || word & (1u64 << seen) != 0),
{
    assert(set < 64 && seen < 64 ==> (((word | (1u64 << set)) & (1u64 << seen) != 0) == (set == seen || word & (1u64
        << seen) != 0))) by (bit_vector);
}

/// Setting a bit changes that bit only.
proof fn lemma_with_bit(words: Seq<u64>, b: int, c: int)
    requires
        0 <= b < 64 * words.len(),
        0 <= c < 64 * words.len(),
    ensures
        with_bit(words, b).len() == words.len(),
        bit_at(with_bit(words, b), c) <==> b == c || bit_at(words, c),
{
    if b / 64 == c / 64 {
        lemma_set_bit(words[b / 64], (b % 64) as u64, (c % 64) as u64);
    }
}

proof fn lemma_with_key(words: Seq<u64>, key: Seq<char>, num_hashes: nat, num_bits: int)
    requires
        0 < num_bits,
        words.len() == words_for(num_bits),
    ensures
        with_key(words, key, num_hashes, num_bits).len() == words.len(),
        forall|c: int| 0 <= c < 64 * words.len() ==> (#[trigger] bit_at(with_key(words, key, num_hashes, num_bits), c)
            <==> bit_at(words, c) || probes(key, num_hashes as int, num_bits, c)),
    decreases num_hashes,
{
    if num_hashes > 0 {
        let before = with_key(words, key, (num_hashes - 1) as nat, num_bits);
        let after = with_key(words, key, num_hashes, num_bits);
        let b = probe(key, num_hashes - 1, num_bits);
        lemma_with_key(words, key, (num_hashes - 1) as nat, num_bits);
        lemma_probe_in_range(key, num_hashes - 1, num_bits);
        assert forall|c: int| 0 <= c < 64 * words.len() implies (#[trigger] bit_at(after, c) <==> bit_at(words, c)
            || probes(key, num_hashes as int, num_bits, c)) by {
            lemma_with_bit(before, b, c);
            assert(bit_at(before, c) <==> bit_at(words, c) || probes(key, num_hashes - 1, num_bits, c));
            if probes(key, num_hashes - 1, num_bits, c) {
                let j = choose|j: int| 0 <= j < num_hashes - 1 && #[trigger] probe(key, j, num_bits) == c;
                assert(0 <= j < num_hashes);
            }
            if probes(key, num_hashes as int, num_bits, c) {
                let j = choose|j: int| 0 <= j < num_hashes && #[trigger] probe(key, j, num_bits) == c;
                if j < num_hashes - 1 {
                    assert(probes(key, num_hashes - 1, num_bits, c));
                }
            }
        }
    }
}

proof fn lemma_with_keys(words: Seq<u64>, keys: Seq<Seq<char>>, num_hashes: nat, num_bits: int)
    requires
        0 < num_bits,
        words.len() == words_for(num_bits),
    ensures
        with_keys(words, keys, num_hashes, num_bits).len() == words.len(),
        forall|c: int| 0 <= c < 64 * words.len() ==> (#[trigger] bit_at(with_keys(words, keys, num_hashes, num_bits), c)
            <==> bit_at(words, c) || exists|k: int|
            0 <= k < keys.len() && #[trigger] probes(keys[k], num_hashes as int, num_bits, c)),
    decreases keys.len(),
{
    if keys.len() > 0 {
        let rest = keys.drop_last();
        let before = with_keys(words, rest, num_hashes, num_bits);
        let after = with_keys(words, keys, num_hashes, num_bits);
        lemma_with_keys(words, rest, num_hashes, num_bits);
        lemma_with_key(before, keys.last(), num_hashes, num_bits);
        assert forall|c: int| 0 <= c < 64 * words.len() implies (#[trigger] bit_at(after, c) <==> bit_at(words, c)
            || exists|k: int| 0 <= k < keys.len() && #[trigger] probes(keys[k], num_hashes as int, num_bits, c)) by {
            assert(bit_at(before, c) <==> bit_at(words, c) || exists|k: int|
                0 <= k < rest.len() && #[trigger] probes(rest[k], num_hashes as int, num_bits, c));
            if exists|k: int| 0 <= k < rest.len() && #[trigger] probes(rest[k], num_hashes as int, num_bits, c) {
                let k = choose|k: int|
                    0 <= k < rest.len() && #[trigger] probes(rest[k], num_hashes as int, num_bits, c);
                assert(probes(keys[k], num_hashes as int, num_bits, c));
            }
            if probes(keys.last(), num_hashes as int, num_bits, c) {
                assert(probes(keys[keys.len() - 1], num_hashes as int, num_bits, c));
            }
            if exists|k: int| 0 <= k < keys.len() && #[trigger] probes(keys[k], num_hashes as int, num_bits, c) {
                let k = choose|k: int|
                    0 <= k < keys.len() && #[trigger] probes(keys[k], num_hashes as int, num_bits, c);
                if k < rest.len() {
                    assert(probes(rest[k], num_hashes as int, num_bits, c));
                }
            }
        }
    }
}

proof fn lemma_hashes_for_items(num_bits: int, items: int)
    ensures
        1 <= hashes_for_items(num_bits, items) <= 30,
{
}

/// The filter for some keys has each of them: it never denies a key that was put in.
pub proof fn law_filter_has_its_keys(keys: Seq<Seq<char>>, k: int)
    requires
        0 <= k < keys.len(),
    ensures
        filter_has(filter_bits(keys), filter_hashes(keys), filter_words(keys), keys[k]),
{
    let num_bits = filter_bits(keys);
    let num_hashes = filter_hashes(keys);
    let empty = Seq::new(words_for(num_bits) as nat, |i: int| 0u64);
    lemma_with_keys(empty, keys, num_hashes as nat, num_bits);
    assert forall|i: int| 0 <= i < num_hashes implies bit_at(
        filter_words(keys),
        #[trigger] probe(keys[k], i, num_bits),
    ) by {
        lemma_probe_in_range(keys[k], i, num_bits);
        assert(probes(keys[k], num_hashes, num_bits, probe(keys[k], i, num_bits)));
    }
}

/// The filter of a table file that fits in 32 bits has a bit count that does.
pub proof fn lemma_filter_size(keys: Seq<Seq<char>>)
    ensures
        1 <= filter_hashes(keys) <= 30,
        filter_words(keys).len() == words_for(filter_bits(keys)),
        filter_bytes(keys).len() == 8 + 8 * words_for(filter_bits(keys)),
        9 * keys.len() + filter_bytes(keys).len() <= u32::MAX ==> filter_bits(keys) <= u32::MAX,
{
    broadcast use lemma_u32_le_len;

    let num_bits = filter_bits(keys);
    let empty = Seq::new(words_for(num_bits) as nat, |i: int| 0u64);
    lemma_with_keys(empty, keys, filter_hashes(keys) as nat, num_bits);
    lemma_word_bytes_len(filter_words(keys));
    let n = if keys.len() == 0 { 1 } else { keys.len() as int };
    let exact = (n * 9585058377367439 + 999999999999999) / 1000000000000000;
    if num_bits > u32::MAX {
        assert(exact > u32::MAX);
        assert(n > 448000000);
    }
}

proof fn lemma_zero_word(seen: u64)
    ensures
        0u64 & (1u64 << seen) == 0,
{
    assert(0u64 & (1u64 << seen) == 0) by (bit_vector);
}

/// The two hashes of a key: the checksums of its bytes in order and in reverse.
fn key_hashes(key: &str) -> (hashes: (u64, u64))
    ensures
        hashes.0 == crc32_of(encode_utf8(key@)),
        hashes.1 == crc32_of(encode_utf8(key@).reverse()),
{
    let bytes = key.as_bytes();
    let mut reversed: Vec<u8> = Vec::new();
    let mut left: usize = bytes.len();
    while left > 0
        invariant
            left <= bytes@.len(),
            reversed@ =~= bytes@.reverse().take(bytes@.len() - left),
        decreases left,
    {
        left = left - 1;
        reversed.push(bytes[left]);
    }
    proof {
        assert(reversed@ =~= bytes@.reverse());
    }
    (crc32(bytes) as u64, crc32(reversed.as_slice()) as u64)
}

impl BloomFilter {
    pub closed spec fn words(&self) -> Seq<u64> {
        self.bits@
    }

    pub closed spec fn num_bits(&self) -> int {
        self.num_bits as int
    }

    pub closed spec fn num_hashes(&self) -> int {
        self.num_hashes as int
    }

    /// There is a word for every bit, and a bit for every hash function.
    pub open spec fn wf(&self) -> bool {
        &&& 0 <= self.num_bits() <= usize::MAX
        &&& 0 <= self.num_hashes() <= usize::MAX
        &&& self.words().len() == words_for(self.num_bits())
        &&& self.num_hashes() > 0 ==> self.num_bits() > 0
    }

    pub open spec fn bit(&self, b: int) -> bool {
        bit_at(self.words(), b)
    }

    /// Every hash function finds its bit for `key` set.
    pub open spec fn has(&self, key: Seq<char>) -> bool {
        filter_has(self.num_bits(), self.num_hashes(), self.words(), key)
    }

    pub open spec fn encoded(&self) -> Seq<u8> {
        encoded_filter(self.num_bits(), self.num_hashes(), self.words())
    }

    /// An empty filter of `num_bits` bits, read and written by `num_hashes` hash functions.
    pub fn new(num_bits: usize, num_hashes: usize) -> (filter: Self)
        requires
            num_hashes > 0 ==> num_bits > 0,
        ensures
            filter.wf(),
            filter.num_bits() == num_bits,
            filter.num_hashes() == num_hashes,
            filter.words() == Seq::new(words_for(num_bits as int) as nat, |i: int| 0u64),
            forall|b: int| 0 <= b < 64 * filter.words().len() ==> !#[trigger] filter.bit(b),
    {
        let words: usize = num_bits / 64 + (if num_bits % 64 > 0 {
            1
        } else {
            0
        });
        let mut bits: Vec<u64> = Vec::new();
        bits.resize(words, 0);
        let filter = BloomFilter { bits, num_bits, num_hashes };
        proof {
            assert(filter.words() =~= Seq::new(words_for(num_bits as int) as nat, |i: int| 0u64));
            assert forall|b: int| 0 <= b < 64 * filter.words().len() implies !#[trigger] filter.bit(b) by {
                lemma_zero_word((b % 64) as u64);
            }
        }
        filter
    }

    /// A filter for the keys, sized for a false positive rate of one percent.
    pub fn from_entries(keys: &[&str]) -> (filter: Self)
        ensures
            filter.wf(),
            filter.num_bits() == filter_bits(views(keys@)),
            filter.num_hashes() == filter_hashes(views(keys@)),
            filter.words() == filter_words(views(keys@)),
            forall|b: int| 0 <= b < 64 * filter.words().len() ==> (#[trigger] filter.bit(b) <==> exists|k: int|
                0 <= k < keys@.len() && #[trigger] probes(keys@[k]@, filter.num_hashes(), filter.num_bits(), b)),
            forall|k: int| 0 <= k < keys@.len() ==> filter.has(#[trigger] keys@[k]@),
    {
        let items: usize = if keys.len() == 0 {
            1
        } else {
            keys.len()
        };
        let num_bits: usize = Self::optimal_bits(items);
        let num_hashes: usize = Self::optimal_hashes(num_bits, items);
        let mut filter = Self::new(num_bits, num_hashes);
        let ghost empty = filter.words();
        let ghost all = views(keys@);
        let mut i: usize = 0;
        proof {
            assert(all.take(0) =~= Seq::<Seq<char>>::empty());
        }
        while i < keys.len()
            invariant
                all == views(keys@),
                filter.wf(),
                filter.words() == with_keys(empty, all.take(i as int), num_hashes as nat, num_bits as int),
                filter.num_bits() == num_bits,
                filter.num_hashes() == num_hashes,
                i <= keys@.len(),
            decreases keys@.len() - i,
        {
            filter.insert(keys[i]);
            proof {
                assert(all.take(i + 1).drop_last() =~= all.take(i as int));
            }
            i = i + 1;
        }
        proof {
            assert(all.take(i as int) =~= all);
            lemma_hashes_for_items(num_bits as int, items as int);
            lemma_with_keys(empty, all, num_hashes as nat, num_bits as int);
            assert forall|b: int| 0 <= b < 64 * filter.words().len() implies (#[trigger] filter.bit(b) <==> exists|k: int|
                0 <= k < keys@.len() && #[trigger] probes(keys@[k]@, num_hashes as int, num_bits as int, b)) by {
                lemma_zero_word((b % 64) as u64);
                assert(!bit_at(empty, b));
                assert(bit_at(filter.words(), b) <==> bit_at(empty, b) || exists|k: int|
                    0 <= k < all.len() && #[trigger] probes(all[k], num_hashes as int, num_bits as int, b));
                if filter.bit(b) {
                    let k = choose|k: int|
                        0 <= k < all.len() && #[trigger] probes(all[k], num_hashes as int, num_bits as int, b);
                    assert(probes(keys@[k]@, num_hashes as int, num_bits as int, b));
                }
                if exists|k: int|
                    0 <= k < keys@.len() && #[trigger] probes(keys@[k]@, num_hashes as int, num_bits as int, b) {
                    let k = choose|k: int|
                        0 <= k < keys@.len() && #[trigger] probes(keys@[k]@, num_hashes as int, num_bits as int, b);
                    assert(probes(all[k], num_hashes as int, num_bits as int, b));
                }
            }
            assert forall|k: int| 0 <= k < keys@.len() implies filter.has(#[trigger] keys@[k]@) by {
                law_filter_has_its_keys(all, k);
            }
        }
        filter
    }

    /// Sets the bits of `key`.
    pub fn insert(&mut self, key: &str)
        requires
            old(self).wf(),
        ensures
            inserted(*old(self), *final(self), key@),
            final(self).words() == with_key(
                old(self).words(),
                key@,
                old(self).num_hashes() as nat,
                old(self).num_bits(),
            ),
            final(self).has(key@),
    {
        let hashes = key_hashes(key);
        let ghost start = *self;
        let mut i: usize = 0;
        while i < self.num_hashes
            invariant
                start == *old(self),
                start.wf(),
                self.wf(),
                self.num_bits() == start.num_bits(),
                self.num_hashes() == start.num_hashes(),
                self.words().len() == start.words().len(),
                self.words() == with_key(start.words(), key@, i as nat, start.num_bits()),
                i <= self.num_hashes,
                hashes.0 == crc32_of(encode_utf8(key@)),
                hashes.1 == crc32_of(encode_utf8(key@).reverse()),
            decreases self.num_hashes - i,
        {
            let bit: u64 = hashes.0.wrapping_add((i as u64).wrapping_mul(hashes.1)) % (self.num_bits as u64);
            let word: usize = (bit / 64) as usize;
            let offset: u64 = bit % 64;
            let old_word: u64 = self.bits[word];
            self.bits[word] = old_word | (1u64 << offset);
            proof {
                assert(bit == probe(key@, i as int, self.num_bits()));
            }
            i = i + 1;
        }
        proof {
            if self.num_bits() > 0 {
                lemma_with_key(start.words(), key@, i as nat, self.num_bits());
            }
            assert forall|b: int| 0 <= b < 64 * self.words().len() implies (#[trigger] self.bit(b) <==> start.bit(b)
                || probes(key@, self.num_hashes(), self.num_bits(), b)) by {
                assert(bit_at(self.words(), b) <==> bit_at(start.words(), b) || probes(
                    key@,
                    self.num_hashes(),
                    self.num_bits(),
                    b,
                ));
            }
            assert forall|j: int| 0 <= j < self.num_hashes() implies bit_at(
                self.words(),
                #[trigger] probe(key@, j, self.num_bits()),
            ) by {
                lemma_probe_in_range(key@, j, self.num_bits());
                assert(probes(key@, self.num_hashes(), self.num_bits(), probe(key@, j, self.num_bits())));
            }
        }
    }

    /// Whether the filter may hold `key`; `false` means that it does not.
    pub fn might_contain(&self, key: &str) -> (might: bool)
        requires
            self.wf(),
        ensures
            might == self.has(key@),
    {
        let hashes = key_hashes(key);
        let mut i: usize = 0;
        while i < self.num_hashes
            invariant
                self.wf(),
                i <= self.num_hashes,
                hashes.0 == crc32_of(encode_utf8(key@)),
                hashes.1 == crc32_of(encode_utf8(key@).reverse()),
                forall|j: int| 0 <= j < i ==> bit_at(self.words(), #[trigger] probe(key@, j, self.num_bits())),
            decreases self.num_hashes - i,
        {
            let bit: u64 = hashes.0.wrapping_add((i as u64).wrapping_mul(hashes.1)) % (self.num_bits as u64);
            let word: usize = (bit / 64) as usize;
            let offset: u64 = bit % 64;
            assert(bit == probe(key@, i as int, self.num_bits()));
            if self.bits[word] & (1u64 << offset) == 0 {
                assert(!bit_at(self.words(), probe(key@, i as int, self.num_bits())));
                return false;
            }
            i = i + 1;
        }
        true
    }

    /// Bit count, hash function count (both modulo 2^32) and the words.
    pub fn encode(&self) -> (encoded: Vec<u8>)
        ensures
            encoded@ == self.encoded(),
    {
        let mut buf: Vec<u8> = Vec::new();
        push_u32(&mut buf, (self.num_bits as u64 % 4294967296) as u32);
        push_u32(&mut buf, (self.num_hashes as u64 % 4294967296) as u32);
        let ghost head = buf@;
        let mut i: usize = 0;
        proof {
            assert(self.bits@.take(0) =~= Seq::<u64>::empty());
        }
        while i < self.bits.len()
            invariant
                i <= self.bits@.len(),
                buf@ =~= head + word_bytes(self.bits@.take(i as int)),
            decreases self.bits@.len() - i,
        {
            push_u64(&mut buf, self.bits[i]);
            proof {
                assert(self.bits@.take(i + 1).drop_last() =~= self.bits@.take(i as int));
            }
            i = i + 1;
        }
        proof {
            assert(self.bits@.take(i as int) =~= self.bits@);
            assert(buf@ =~= self.encoded());
        }
        buf
    }

    /// The filter that `data` holds; `None` when it is too short.
    pub fn decode(data: &[u8]) -> (decoded: Option<Self>)
        ensures
            decoded is Some <==> data@.len() >= 8 && data@.len() >= 8 + 8 * words_for(u32_at(data@, 0) as int),
            decoded matches Some(filter) ==> {
                &&& filter.num_bits() == u32_at(data@, 0)
                &&& filter.num_hashes() == u32_at(data@, 4)
                &&& filter.words() == decoded_words(data@)
                &&& filter.wf() <==> (filter.num_hashes() > 0 ==> filter.num_bits() > 0)
            },
    {
        if data.len() < 8 {
            return None;
        }
        let num_bits: u32 = read_u32(data, 0);
        let num_hashes: u32 = read_u32(data, 4);
        let words: usize = ((num_bits as u64 + 63) / 64) as usize;
        if data.len() < 8 + words * 8 {
            return None;
        }
        let mut bits: Vec<u64> = Vec::new();
        let mut i: usize = 0;
        while i < words
            invariant
                i <= words,
                data@.len() >= 8 + words * 8,
                words * 8 <= 0x4000_0000,
                bits@ =~= Seq::new(i as nat, |j: int| u64_at(data@, 8 + 8 * j)),
            decreases words - i,
        {
            bits.push(read_u64(data, 8 + i * 8));
            i = i + 1;
        }
        Some(BloomFilter { bits, num_bits: num_bits as usize, num_hashes: num_hashes as usize })
    }

    /// The bits for `items` keys at a false positive rate of one percent.
    fn optimal_bits(items: usize) -> (num_bits: usize)
        ensures
            num_bits == bits_for_items(items as int),
    {
        let exact: u128 = (items as u128 * 9585058377367439 + 999999999999999) / 1000000000000000;
        if exact < 64 {
            64
        } else if exact > usize::MAX as u128 {
            usize::MAX
        } else {
            exact as usize
        }
    }

    fn optimal_hashes(num_bits: usize, items: usize) -> (num_hashes: usize)
        requires
            items > 0,
        ensures
            num_hashes == hashes_for_items(num_bits as int, items as int),
    {
        let rounded: u128 = (2 * num_bits as u128 * 693147180559945309 + items as u128 * 1000000000000000000) / (2
            * items as u128 * 1000000000000000000);
        if rounded < 1 {
            1
        } else if rounded > 30 {
            30
        } else {
            rounded as usize
        }
    }
}

/// `after` is `before` with the bits of `key` set.
pub open spec fn inserted(before: BloomFilter, after: BloomFilter, key: Seq<char>) -> bool {
    &&& after.wf()
    &&& after.num_bits() == before.num_bits()
    &&& after.num_hashes() == before.num_hashes()
    &&& after.words().len() == before.words().len()
    &&& forall|b: int| 0 <= b < 64 * after.words().len() ==> (#[trigger] after.bit(b) <==> before.bit(b) || probes(
        key,
        after.num_hashes(),
        after.num_bits(),
        b,
    ))
}

proof fn lemma_probe_in_range(key: Seq<char>, i: int, num_bits: int)
    requires
        num_bits > 0,
    ensures
        0 <= probe(key, i, num_bits) < num_bits,
        num_bits <= 64 * words_for(num_bits),
{
    let bytes = encode_utf8(key);
    let first = crc32_of(bytes) as u64;
    let second = crc32_of(bytes.reverse()) as u64;
    let hash = first.wrapping_add((i as u64).wrapping_mul(second)) as int;
    vstd::arithmetic::div_mod::lemma_mod_bound(hash, num_bits);
}

/// Inserting a key loses none of the keys that the filter already has.
pub proof fn law_insert_keeps_keys(before: BloomFilter, after: BloomFilter, inserted_key: Seq<char>, key: Seq<char>)
    requires
        before.wf(),
        inserted(before, after, inserted_key),
        before.has(key),
    ensures
        after.has(key),
{
    assert forall|i: int| 0 <= i < after.num_hashes() implies bit_at(
        after.words(),
        #[trigger] probe(key, i, after.num_bits()),
    ) by {
        let b = probe(key, i, after.num_bits());
        lemma_probe_in_range(key, i, after.num_bits());
        assert(bit_at(before.words(), b));
        assert(before.bit(b));
        assert(after.bit(b));
    }
}

/// Decoding what was encoded gives the same filter back.
pub proof fn law_bloom_codec_roundtrip(num_bits: u32, num_hashes: u32, words: Seq<u64>)
    requires
        words.len() == words_for(num_bits as int),
    ensures
        ({
            let data = encoded_filter(num_bits as int, num_hashes as int, words);
            &&& data.len() == 8 + 8 * words_for(num_bits as int)
            &&& u32_at(data, 0) == num_bits
            &&& u32_at(data, 4) == num_hashes
            &&& decoded_words(data) == words
        }),
{
    let data = encoded_filter(num_bits as int, num_hashes as int, words);
    lemma_filter_bytes(num_bits, num_hashes, words, data);
    assert forall|i: int| 0 <= i < words.len() implies #[trigger] decoded_words(data)[i] == words[i] by {
        lemma_filter_word(num_bits, num_hashes, words, data, i);
    }
    assert(decoded_words(data) =~= words);
}

proof fn lemma_filter_bytes(num_bits: u32, num_hashes: u32, words: Seq<u64>, data: Seq<u8>)
    requires
        data == u32_le(num_bits) + u32_le(num_hashes) + word_bytes(words),
    ensures
        data.len() == 8 + 8 * words.len(),
        u32_at(data, 0) == num_bits,
        u32_at(data, 4) == num_hashes,
{
    lemma_word_bytes_len(words);
    broadcast use lemma_u32_le_len;

    assert(data.subrange(0, 4) =~= u32_le(num_bits));
    assert(data.subrange(4, 8) =~= u32_le(num_hashes));
    law_u32_roundtrip(num_bits, data, 0);
    law_u32_roundtrip(num_hashes, data, 4);
}

proof fn lemma_filter_word(num_bits: u32, num_hashes: u32, words: Seq<u64>, data: Seq<u8>, i: int)
    requires
        data == u32_le(num_bits) + u32_le(num_hashes) + word_bytes(words),
        0 <= i < words.len(),
    ensures
        u64_at(data, 8 + 8 * i) == words[i],
{
    lemma_word_bytes_at(words, i);
    broadcast use lemma_u32_le_len;

    assert(data.subrange(8 + 8 * i, 16 + 8 * i) =~= word_bytes(words).subrange(8 * i, 8 * i + 8));
    law_u64_roundtrip(words[i], data, 8 + 8 * i);
}

/// Whether one of the hash functions gives one of the keys bit `b`.
pub open spec fn set_by(keys: Seq<Seq<char>>, num_hashes: int, num_bits: int, b: int) -> bool {
    exists|k: int| 0 <= k < keys.len() && #[trigger] probes(keys[k], num_hashes, num_bits, b)
}

/// A filter admits a key just where every bit that the hash functions give it is a bit that they give
/// one of the keys of the filter. A filter of no keys admits none.
pub proof fn law_filter_admits_what_its_keys_set(keys: Seq<Seq<char>>, key: Seq<char>)
    ensures
        filter_has(filter_bits(keys), filter_hashes(keys), filter_words(keys), key) <==> forall|i: int|
            0 <= i < filter_hashes(keys) ==> set_by(
                keys,
                filter_hashes(keys),
                filter_bits(keys),
                #[trigger] probe(key, i, filter_bits(keys)),
            ),
        keys.len() == 0 ==> !filter_has(filter_bits(keys), filter_hashes(keys), filter_words(keys), key),
{
    let num_bits = filter_bits(keys);
    let num_hashes = filter_hashes(keys);
    let words = filter_words(keys);
    let empty = Seq::new(words_for(num_bits) as nat, |i: int| 0u64);
    lemma_with_keys(empty, keys, num_hashes as nat, num_bits);
    assert forall|i: int| 0 <= i < num_hashes implies bit_at(words, #[trigger] probe(key, i, num_bits)) == set_by(
        keys,
        num_hashes,
        num_bits,
        probe(key, i, num_bits),
    ) by {
        let b = probe(key, i, num_bits);
        lemma_probe_in_range(key, i, num_bits);
        let shift = (b % 64) as u64;
        assert(0u64 & (1u64 << shift) == 0) by (bit_vector);
        assert(!bit_at(empty, b));
        assert(bit_at(with_keys(empty, keys, num_hashes as nat, num_bits), b) <==> bit_at(empty, b) || exists|k: int|
            0 <= k < keys.len() && #[trigger] probes(keys[k], num_hashes, num_bits, b));
    }
    if filter_has(num_bits, num_hashes, words, key) {
        assert forall|i: int| 0 <= i < num_hashes implies set_by(
            keys,
            num_hashes,
            num_bits,
            #[trigger] probe(key, i, num_bits),
        ) by {
            assert(bit_at(words, probe(key, i, num_bits)));
        }
    }
    if keys.len() == 0 {
        assert(1 <= num_hashes);
        assert(!set_by(keys, num_hashes, num_bits, probe(key, 0, num_bits)));
        assert(!bit_at(words, probe(key, 0, num_bits)));
    }
}

/// A filter has the bits for every key that a false positive rate of one percent asks for, and
/// sixty-four at least, as long as the machine can count them. From seven keys on it has seven hash
/// functions.
pub proof fn law_filter_has_enough_bits(items: int)
    requires
        1 <= items <= 1000000000,
        usize::MAX >= 10000000000,
    ensures
        bits_for_items(items) >= 64,
        2 * bits_for_items(items) >= 19 * items,
        items >= 7 ==> bits_for_items(items) <= 10 * items,
        1 <= hashes_for_items(bits_for_items(items), items) <= 30,
        items >= 7 ==> hashes_for_items(bits_for_items(items), items) == 7,
        items >= 7 ==> (bits_for_items(items) - 1) * 1000000000000000 < items * 9585058377367439 <= bits_for_items(items)
            * 1000000000000000,
{
    let exact = (items * 9585058377367439 + 999999999999999) / 1000000000000000;
    assert(9 * items < exact <= 10 * items + 1);
    assert(2 * exact >= 19 * items);
    if items >= 7 {
        let bits = bits_for_items(items);
        let top = 2 * bits * 693147180559945309 + items * 1000000000000000000;
        let unit = 2 * items * 1000000000000000000;
        let h = top / unit;
        assert(exact >= 67);
        assert(bits == exact);
        assert(7 * unit <= top < 8 * unit);
        vstd::arithmetic::div_mod::lemma_fundamental_div_mod(top, unit);
        vstd::arithmetic::div_mod::lemma_mod_bound(top, unit);
        assert(h == 7) by (nonlinear_arith)
            requires
                unit > 0,
                7 * unit <= top < 8 * unit,
                top == unit * h + top % unit,
                0 <= top % unit < unit,
        ;
    }
}

/// The hash functions are made of two checksums of the key, of its bytes and of its bytes in reverse: the
/// one numbered `i` is the first and `i` times the second.
pub proof fn law_hash_functions(key: Seq<char>, i: int, num_bits: int)
    requires
        0 <= i <= 30,
        num_bits > 0,
    ensures
        probe(key, i, num_bits) == (crc32_of(encode_utf8(key)) + i * crc32_of(encode_utf8(key).reverse())) % num_bits,
{
    let second = crc32_of(encode_utf8(key).reverse()) as int;
    assert(0 <= i * second <= 30 * 4294967295) by (nonlinear_arith)
        requires
            0 <= i <= 30,
            0 <= second <= 4294967295,
    ;
}

}
