//! Strings and numbers as text.
use vstd::prelude::*;
use vstd::utf8::{decode_utf8, encode_utf8, valid_utf8};

verus! {

/// `std::string::String::push`: appends one character at the end.
pub assume_specification[ String::push ](s: &mut String, c: char)
    ensures
        final(s)@ == old(s)@.push(c),
;

/// `std::string::String::from_utf8`: the string whose UTF-8 bytes are `bytes`, or `None` when
/// they are not valid UTF-8.
#[verifier::external_body]
pub(crate) fn string_from_utf8(bytes: Vec<u8>) -> (result: Option<String>)
    ensures
        result is Some <==> valid_utf8(bytes@),
        result matches Some(s) ==> s@ == decode_utf8(bytes@),
{
    String::from_utf8(bytes).ok()
}

/// The length of a string in bytes.
pub fn byte_len(s: &str) -> (len: usize)
    ensures
        len == encode_utf8(s@).len(),
{
    s.as_bytes().len()
}

/// The characters of a string, one by one.
pub fn chars_of(s: &str) -> (chars: Vec<char>)
    ensures
        chars@ == s@,
{
    let mut chars: Vec<char> = Vec::new();
    for c in iter: s.chars()
        invariant
            chars@ == iter.seq().take(iter.index() as int),
            iter.seq() == s@,
    {
        chars.push(c);
    }
    chars
}

/// The string made of `chars[from..to]`.
pub fn string_of(chars: &[char], from: usize, to: usize) -> (s: String)
    requires
        from <= to <= chars@.len(),
    ensures
        s@ == chars@.subrange(from as int, to as int),
{
    let mut s = String::new();
    let mut i: usize = from;
    while i < to
        invariant
            from <= i <= to <= chars@.len(),
            s@ == chars@.subrange(from as int, i as int),
        decreases to - i,
    {
        s.push(chars[i]);
        proof {
            assert(chars@.subrange(from as int, i + 1) =~= chars@.subrange(from as int, i as int).push(
                chars@[i as int],
            ));
        }
        i = i + 1;
    }
    s
}

/// The decimal digit for `d`, which is below ten.
pub open spec fn digit_char(d: nat) -> char {
    (48 + d) as char
}

/// `n` written in decimal, without leading zeros.
pub open spec fn decimal(n: nat) -> Seq<char>
    decreases n,
{
    if n < 10 {
        seq![digit_char(n)]
    } else {
        decimal(n / 10).push(digit_char(n % 10))
    }
}

pub open spec fn is_digit(c: char) -> bool {
    '0' <= c <= '9'
}

pub open spec fn all_digits(s: Seq<char>) -> bool {
    forall|i: int| 0 <= i < s.len() ==> is_digit(#[trigger] s[i])
}

/// The number that a sequence of decimal digits stands for.
pub open spec fn digits_value(s: Seq<char>) -> nat
    decreases s.len(),
{
    if s.len() == 0 {
        0
    } else {
        digits_value(s.drop_last()) * 10 + (s.last() as nat - 48) as nat
    }
}

/// What remains of a number's text behind an optional plus sign.
pub open spec fn unsigned_body(s: Seq<char>) -> Seq<char> {
    if s.len() > 0 && s[0] == '+' {
        s.skip(1)
    } else {
        s
    }
}

/// The number written in `s` (an optional plus sign, then at least one digit and nothing
/// else), when it is at most `max`.
pub open spec fn parse_unsigned(s: Seq<char>, max: nat) -> Option<nat> {
    let body = unsigned_body(s);
    if body.len() > 0 && all_digits(body) && digits_value(body) <= max {
        Some(digits_value(body))
    } else {
        None
    }
}

pub proof fn lemma_decimal_digits(n: nat)
    ensures
        decimal(n).len() > 0,
        all_digits(decimal(n)),
        digits_value(decimal(n)) == n,
    decreases n,
{
    reveal_with_fuel(digits_value, 2);
    if n >= 10 {
        lemma_decimal_digits(n / 10);
        assert(decimal(n).drop_last() =~= decimal(n / 10));
    } else {
        assert(decimal(n).drop_last() =~= Seq::<char>::empty());
    }
}

/// Writing a number in decimal and parsing the text gives the number back.
pub proof fn law_decimal_roundtrip(n: nat, max: nat)
    requires
        n <= max,
    ensures
        parse_unsigned(decimal(n), max) == Some(n),
{
    lemma_decimal_digits(n);
    assert(is_digit(decimal(n)[0]));
}

/// `n` in decimal.
pub fn decimal_string(n: u64) -> (s: String)
    ensures
        s@ == decimal(n as nat),
    decreases n,
{
    let mut s = if n < 10 {
        String::new()
    } else {
        decimal_string(n / 10)
    };
    let digit: u8 = (n % 10) as u8;
    let c: char = (48u8 + digit) as char;
    s.push(c);
    proof {
        assert(s@ =~= decimal(n as nat));
    }
    s
}

/// `n` in decimal, with zeros in front up to `width` characters.
pub open spec fn padded(n: nat, width: nat) -> Seq<char> {
    let digits = decimal(n);
    if digits.len() < width {
        Seq::new((width - digits.len()) as nat, |i: int| '0') + digits
    } else {
        digits
    }
}

proof fn lemma_leading_zeros(count: nat, digits: Seq<char>)
    requires
        all_digits(digits),
    ensures
        all_digits(Seq::new(count, |i: int| '0') + digits),
        digits_value(Seq::new(count, |i: int| '0') + digits) == digits_value(digits),
    decreases count + digits.len(),
{
    let zeros = Seq::new(count, |i: int| '0');
    let all = zeros + digits;
    assert forall|i: int| 0 <= i < all.len() implies is_digit(#[trigger] all[i]) by {
        if i >= count {
            assert(all[i] == digits[i - count]);
        }
    }
    if digits.len() > 0 {
        assert(all_digits(digits.drop_last())) by {
            assert forall|i: int| 0 <= i < digits.len() - 1 implies is_digit(#[trigger] digits.drop_last()[i]) by {
                assert(is_digit(digits[i]));
            }
        }
        lemma_leading_zeros(count, digits.drop_last());
        assert(all.drop_last() =~= zeros + digits.drop_last());
    } else if count > 0 {
        let fewer = Seq::new((count - 1) as nat, |i: int| '0');
        lemma_leading_zeros((count - 1) as nat, digits);
        assert(all.drop_last() =~= fewer + digits);
        assert(digits =~= Seq::<char>::empty());
    } else {
        assert(all =~= digits);
    }
}

/// Writing a number with leading zeros and parsing the text gives the number back.
pub proof fn law_padded_roundtrip(n: nat, width: nat, max: nat)
    requires
        n <= max,
    ensures
        parse_unsigned(padded(n, width), max) == Some(n),
        all_digits(padded(n, width)),
{
    lemma_decimal_digits(n);
    let digits = decimal(n);
    if digits.len() < width {
        lemma_leading_zeros((width - digits.len()) as nat, digits);
    }
    assert(is_digit(padded(n, width)[0]));
}

/// `n` in decimal, with zeros in front up to `width` characters.
pub fn padded_string(n: u64, width: usize) -> (s: String)
    ensures
        s@ == padded(n as nat, width as nat),
{
    let digits = chars_of(decimal_string(n).as_str());
    let mut s = String::new();
    let mut i: usize = digits.len();
    while i < width
        invariant
            digits@ == decimal(n as nat),
            digits@.len() <= i,
            i <= width || i == digits@.len(),
            s@ =~= Seq::new((i - digits@.len()) as nat, |j: int| '0'),
        decreases width - i,
    {
        s.push('0');
        i = i + 1;
    }
    let ghost zeros = s@;
    let mut j: usize = 0;
    while j < digits.len()
        invariant
            j <= digits@.len(),
            s@ =~= zeros + digits@.take(j as int),
        decreases digits@.len() - j,
    {
        s.push(digits[j]);
        j = j + 1;
    }
    proof {
        assert(digits@.take(j as int) =~= digits@);
        assert(s@ =~= padded(n as nat, width as nat));
    }
    s
}

proof fn lemma_digits_value_grows(s: Seq<char>, n: int)
    requires
        0 <= n <= s.len(),
        all_digits(s),
    ensures
        digits_value(s.take(n)) <= digits_value(s),
    decreases s.len(),
{
    if n < s.len() {
        let before = s.drop_last();
        assert(all_digits(before)) by {
            assert forall|i: int| 0 <= i < before.len() implies is_digit(#[trigger] before[i]) by {
                assert(is_digit(s[i]));
            }
        }
        lemma_digits_value_grows(before, n);
        assert(before.take(n) =~= s.take(n));
    } else {
        assert(s.take(n) =~= s);
    }
}

/// The number that `chars` write.
pub fn parse_u64(chars: &[char]) -> (number: Option<u64>)
    ensures
        match number {
            Some(n) => parse_unsigned(chars@, u64::MAX as nat) == Some(n as nat),
            None => parse_unsigned(chars@, u64::MAX as nat) is None,
        },
{
    let start: usize = if chars.len() > 0 && chars[0] == '+' {
        1
    } else {
        0
    };
    let ghost body = unsigned_body(chars@);
    proof {
        assert(body =~= chars@.skip(start as int));
    }
    if start == chars.len() {
        return None;
    }
    let mut value: u64 = 0;
    let mut i: usize = start;
    proof {
        assert(body.take(0) =~= Seq::<char>::empty());
    }
    while i < chars.len()
        invariant
            start <= i <= chars@.len(),
            body == chars@.skip(start as int),
            body == unsigned_body(chars@),
            value == digits_value(body.take(i - start)),
            forall|j: int| 0 <= j < i - start ==> is_digit(#[trigger] body[j]),
        decreases chars@.len() - i,
    {
        let c: char = chars[i];
        assert(c == body[i - start]);
        if !('0' <= c && c <= '9') {
            assert(!is_digit(body[i - start]));
            return None;
        }
        let digit: u64 = c as u64 - 48;
        proof {
            assert(body.take(i - start + 1).drop_last() =~= body.take(i - start));
            if all_digits(body) {
                lemma_digits_value_grows(body, i - start + 1);
            }
        }
        let tens: u64 = match value.checked_mul(10) {
            Some(tens) => tens,
            None => {
                return None;
            },
        };
        value = match tens.checked_add(digit) {
            Some(sum) => sum,
            None => {
                return None;
            },
        };
        i = i + 1;
    }
    proof {
        assert(body.take(i - start) =~= body);
    }
    Some(value)
}

/// The number that `chars` write, where it is at most `u32::MAX`.
pub fn parse_u32(chars: &[char]) -> (number: Option<u32>)
    ensures
        match number {
            Some(n) => parse_unsigned(chars@, u32::MAX as nat) == Some(n as nat),
            None => parse_unsigned(chars@, u32::MAX as nat) is None,
        },
{
    match parse_u64(chars) {
        Some(n) => if n <= 0xFFFF_FFFF {
            Some(n as u32)
        } else {
            None
        },
        None => None,
    }
}

/// The first index at which `c` stands; the length where it does not.
pub open spec fn first_index(s: Seq<char>, c: char) -> int
    decreases s.len(),
{
    if s.len() == 0 || s[0] == c {
        0
    } else {
        1 + first_index(s.skip(1), c)
    }
}

pub proof fn lemma_first_index(s: Seq<char>, c: char, i: int)
    requires
        0 <= i <= s.len(),
        forall|j: int| 0 <= j < i ==> s[j] != c,
        i < s.len() ==> s[i] == c,
    ensures
        first_index(s, c) == i,
    decreases s.len(),
{
    if s.len() > 0 && s[0] != c {
        lemma_first_index(s.skip(1), c, i - 1);
    }
}

pub proof fn lemma_first_index_bounds(s: Seq<char>, c: char)
    ensures
        0 <= first_index(s, c) <= s.len(),
        forall|j: int| 0 <= j < first_index(s, c) ==> s[j] != c,
        first_index(s, c) < s.len() ==> s[first_index(s, c)] == c,
    decreases s.len(),
{
    if s.len() > 0 && s[0] != c {
        let rest = s.skip(1);
        lemma_first_index_bounds(rest, c);
        assert forall|j: int| 0 <= j < first_index(s, c) implies s[j] != c by {
            if j > 0 {
                assert(rest[j - 1] != c);
            }
        }
    }
}

/// The first index from `from` on at which `c` stands; the length where it does not.
pub fn find_char(chars: &[char], from: usize, c: char) -> (at: usize)
    requires
        from <= chars@.len(),
    ensures
        from <= at <= chars@.len(),
        at == from + first_index(chars@.skip(from as int), c),
{
    let ghost rest = chars@.skip(from as int);
    let mut at: usize = from;
    while at < chars.len() && chars[at] != c
        invariant
            from <= at <= chars@.len(),
            rest == chars@.skip(from as int),
            forall|j: int| 0 <= j < at - from ==> rest[j] != c,
        decreases chars@.len() - at,
    {
        at = at + 1;
    }
    proof {
        lemma_first_index(rest, c, at - from);
    }
    at
}

pub open spec fn starts_with(s: Seq<char>, prefix: Seq<char>) -> bool {
    s.len() >= prefix.len() && s.take(prefix.len() as int) == prefix
}

pub open spec fn ends_with(s: Seq<char>, suffix: Seq<char>) -> bool {
    s.len() >= suffix.len() && s.skip(s.len() - suffix.len()) == suffix
}

/// Whether the characters at `from` are those of `text`.
fn stands_at(chars: &[char], from: usize, text: &[char]) -> (stands: bool)
    requires
        from + text@.len() <= chars@.len(),
    ensures
        stands == (chars@.subrange(from as int, from + text@.len()) == text@),
{
    let ghost part = chars@.subrange(from as int, from + text@.len());
    let mut i: usize = 0;
    while i < text.len()
        invariant
            from + text@.len() <= chars@.len(),
            part == chars@.subrange(from as int, from + text@.len()),
            i <= text@.len(),
            forall|j: int| 0 <= j < i ==> part[j] == text@[j],
        decreases text@.len() - i,
    {
        proof {
            assert(chars.len() <= usize::MAX);
        }
        if chars[from + i] != text[i] {
            assert(part[i as int] != text@[i as int]);
            return false;
        }
        i = i + 1;
    }
    proof {
        assert(part =~= text@);
    }
    true
}

pub fn has_prefix(chars: &[char], prefix: &str) -> (has: bool)
    ensures
        has == starts_with(chars@, prefix@),
{
    let prefix = chars_of(prefix);
    proof {
        if chars@.len() >= prefix@.len() {
            assert(chars@.subrange(0, 0int + prefix@.len()) =~= chars@.take(prefix@.len() as int));
        }
    }
    chars.len() >= prefix.len() && stands_at(chars, 0, prefix.as_slice())
}

pub fn has_suffix(chars: &[char], suffix: &str) -> (has: bool)
    ensures
        has == ends_with(chars@, suffix@),
{
    let suffix = chars_of(suffix);
    if chars.len() < suffix.len() {
        return false;
    }
    let from: usize = chars.len() - suffix.len();
    proof {
        assert(chars@.subrange(from as int, from + suffix@.len()) =~= chars@.skip(from as int));
    }
    stands_at(chars, from, suffix.as_slice())
}

/// A copy of `chars[from..to]`.
pub fn sub_chars(chars: &[char], from: usize, to: usize) -> (part: Vec<char>)
    requires
        from <= to <= chars@.len(),
    ensures
        part@ == chars@.subrange(from as int, to as int),
{
    let mut part: Vec<char> = Vec::new();
    let mut i: usize = from;
    while i < to
        invariant
            from <= i <= to <= chars@.len(),
            part@ =~= chars@.subrange(from as int, i as int),
        decreases to - i,
    {
        part.push(chars[i]);
        i = i + 1;
    }
    part
}

/// The pieces of `s` between the characters `c`.
pub open spec fn split_at_char(s: Seq<char>, c: char) -> Seq<Seq<char>>
    decreases s.len(),
{
    let at = first_index(s, c);
    if 0 <= at < s.len() {
        seq![s.take(at)] + split_at_char(s.skip(at + 1), c)
    } else {
        seq![s]
    }
}

/// A line without the carriage return that belongs to its ending.
pub open spec fn without_return(line: Seq<char>) -> Seq<char> {
    if line.len() > 0 && line.last() == '\r' {
        line.drop_last()
    } else {
        line
    }
}

/// The lines of a text, without their endings.
pub open spec fn lines_of(s: Seq<char>) -> Seq<Seq<char>>
    decreases s.len(),
{
    let at = first_index(s, '\n');
    if s.len() == 0 {
        Seq::empty()
    } else if 0 <= at < s.len() {
        seq![without_return(s.take(at))] + lines_of(s.skip(at + 1))
    } else {
        seq![s]
    }
}

/// The characters that Unicode counts as white space.
pub open spec fn is_space(c: char) -> bool {
    let code = c as u32;
    ||| 0x9 <= code <= 0xD
    ||| code == 0x20
    ||| code == 0x85
    ||| code == 0xA0
    ||| code == 0x1680
    ||| 0x2000 <= code <= 0x200A
    ||| code == 0x2028
    ||| code == 0x2029
    ||| code == 0x202F
    ||| code == 0x205F
    ||| code == 0x3000
}

fn space(c: char) -> (space: bool)
    ensures
        space == is_space(c),
{
    let code: u32 = c as u32;
    (0x9 <= code && code <= 0xD) || code == 0x20 || code == 0x85 || code == 0xA0 || code == 0x1680 || (0x2000 <= code
        && code <= 0x200A) || code == 0x2028 || code == 0x2029 || code == 0x202F || code == 0x205F || code == 0x3000
}

/// `s` without the white space in front.
pub open spec fn trim_start(s: Seq<char>) -> Seq<char>
    decreases s.len(),
{
    if s.len() > 0 && is_space(s[0]) {
        trim_start(s.skip(1))
    } else {
        s
    }
}

/// `s` without the white space at its end.
pub open spec fn trim_end(s: Seq<char>) -> Seq<char>
    decreases s.len(),
{
    if s.len() > 0 && is_space(s.last()) {
        trim_end(s.drop_last())
    } else {
        s
    }
}

pub open spec fn trimmed(s: Seq<char>) -> Seq<char> {
    trim_end(trim_start(s))
}

/// A copy of `chars[from..to]` without white space at either end.
pub fn trim_chars(chars: &[char], from: usize, to: usize) -> (part: Vec<char>)
    requires
        from <= to <= chars@.len(),
    ensures
        part@ == trimmed(chars@.subrange(from as int, to as int)),
{
    let ghost start = trim_start(chars@.subrange(from as int, to as int));
    let mut low: usize = from;
    while low < to && space(chars[low])
        invariant
            from <= low <= to <= chars@.len(),
            start == trim_start(chars@.subrange(low as int, to as int)),
        decreases to - low,
    {
        proof {
            assert(chars@.subrange(low as int, to as int).skip(1) =~= chars@.subrange(low + 1, to as int));
        }
        low = low + 1;
    }
    proof {
        assert(start == chars@.subrange(low as int, to as int));
    }
    let mut high: usize = to;
    while low < high && space(chars[high - 1])
        invariant
            from <= low <= high <= to <= chars@.len(),
            trim_end(start) == trim_end(chars@.subrange(low as int, high as int)),
        decreases high - low,
    {
        proof {
            assert(chars@.subrange(low as int, high as int).drop_last() =~= chars@.subrange(low as int, high - 1));
        }
        high = high - 1;
    }
    sub_chars(chars, low, high)
}

/// Text is a number only where it is digits, at least one, with at most a plus sign in front, and where
/// the number is not too large.
pub proof fn law_only_digits_are_numbers(s: Seq<char>, n: nat, max: nat)
    ensures
        s.len() == 0 ==> parse_unsigned(s, max) is None,
        s == seq!['+'] ==> parse_unsigned(s, max) is None,
        (exists|i: int| 1 <= i < s.len() && !('0' <= #[trigger] s[i] <= '9')) ==> parse_unsigned(s, max) is None,
        s.len() > 0 && s[0] != '+' && !('0' <= s[0] <= '9') ==> parse_unsigned(s, max) is None,
        n <= max ==> parse_unsigned(decimal(n), max) == Some(n) && parse_unsigned(seq!['+'] + decimal(n), max) == Some(n),
        n > max ==> parse_unsigned(decimal(n), max) is None,
{
    let body = unsigned_body(s);
    if exists|i: int| 1 <= i < s.len() && !('0' <= #[trigger] s[i] <= '9') {
        let i = choose|i: int| 1 <= i < s.len() && !('0' <= #[trigger] s[i] <= '9');
        if s[0] == '+' {
            assert(body[i - 1] == s[i]);
            assert(!is_digit(body[i - 1]));
        } else {
            assert(!is_digit(body[i]));
        }
    }
    if s.len() > 0 && s[0] != '+' && !('0' <= s[0] <= '9') {
        assert(!is_digit(body[0]));
    }
    lemma_decimal_digits(n);
    assert(is_digit(decimal(n)[0]));
    let plus = seq!['+'] + decimal(n);
    assert(plus.skip(1) =~= decimal(n));
}

}
