//! Decimal numbers in text: reading integers, writing them, and telling what reads as a
//! floating-point number.
use vstd::prelude::*;

use crate::text::chars_of;
use crate::text::string_of;

verus! {

// ---------------------------------------------------------------------------
// Digits
// ---------------------------------------------------------------------------

/// An ASCII decimal digit.
pub open spec fn is_digit(c: char) -> bool {
    '0' <= c <= '9'
}

/// The number that a digit stands for.
pub open spec fn digit_value(c: char) -> nat {
    (c as int - '0' as int) as nat
}

/// The digit that stands for `d`.
pub open spec fn digit_char(d: nat) -> char {
    ('0' as int + d) as char
}

/// Nothing but digits, and perhaps nothing at all.
pub open spec fn all_digits(s: Seq<char>) -> bool {
    forall|i: int| 0 <= i < s.len() ==> is_digit(#[trigger] s[i])
}

/// The number that a row of digits stands for.
pub open spec fn digits_value(s: Seq<char>) -> nat
    decreases s.len(),
{
    if s.len() == 0 {
        0
    } else {
        10 * digits_value(s.drop_last()) + digit_value(s.last())
    }
}

/// `n` in decimal, without leading zeros.
pub open spec fn decimal(n: nat) -> Seq<char>
    decreases n,
{
    if n < 10 {
        seq![digit_char(n)]
    } else {
        decimal(n / 10).push(digit_char(n % 10))
    }
}

/// `decimal` is a row of digits that stands for its number.
pub proof fn lemma_decimal(n: nat)
    ensures
        decimal(n).len() > 0,
        all_digits(decimal(n)),
        digits_value(decimal(n)) == n,
    decreases n,
{
    if n < 10 {
        assert(decimal(n).drop_last() == Seq::<char>::empty());
        assert(digits_value(Seq::<char>::empty()) == 0);
        assert(decimal(n).last() == digit_char(n));
    } else {
        lemma_decimal(n / 10);
        assert(decimal(n).drop_last() == decimal(n / 10));
    }
}

/// A row of digits stands for no less than the row it begins with.
proof fn lemma_digits_value_of_prefix(s: Seq<char>, k: int)
    requires
        0 <= k <= s.len(),
    ensures
        digits_value(s.take(k)) <= digits_value(s),
    decreases s.len() - k,
{
    if k < s.len() {
        lemma_digits_value_of_prefix(s, k + 1);
        assert(s.take(k + 1).drop_last() == s.take(k));
    } else {
        assert(s.take(k) == s);
    }
}

/// `n` in decimal.
pub fn to_decimal(n: u64) -> (s: String)
    ensures
        s@ == decimal(n as nat),
{
    let mut reversed: Vec<char> = Vec::new();
    let mut rest: u64 = n;
    let ghost all = decimal(n as nat);
    while rest >= 10
        invariant
            all == decimal(rest as nat) + reversed@.reverse(),
        decreases rest,
    {
        let digit: char = ((rest % 10) as u8 + 48u8) as char;
        let ghost before = reversed@;
        reversed.push(digit);
        assert(reversed@.reverse() == seq![digit] + before.reverse());
        assert(all == decimal((rest / 10) as nat) + reversed@.reverse());
        rest = rest / 10;
    }
    let digit: char = (rest as u8 + 48u8) as char;
    let ghost before = reversed@;
    reversed.push(digit);
    assert(reversed@.reverse() == seq![digit] + before.reverse());
    assert(all == reversed@.reverse());
    let mut chars: Vec<char> = Vec::new();
    let len: usize = reversed.len();
    for i in 0..len
        invariant
            len == reversed@.len(),
            chars@ == reversed@.reverse().take(i as int),
    {
        chars.push(reversed[len - 1 - i]);
    }
    string_of(&chars)
}

// ---------------------------------------------------------------------------
// Integers
// ---------------------------------------------------------------------------

/// The number that a row of at least one digit stands for.
pub open spec fn magnitude(s: Seq<char>) -> Option<int> {
    if s.len() > 0 && all_digits(s) {
        Some(digits_value(s) as int)
    } else {
        None
    }
}

/// The number that `s` stands for as an unsigned integer: digits, perhaps after a `'+'`.
pub open spec fn unsigned_value(s: Seq<char>) -> Option<int> {
    if s.len() > 0 && s[0] == '+' {
        magnitude(s.skip(1))
    } else {
        magnitude(s)
    }
}

/// The number that `s` stands for as a signed integer: digits, perhaps after a `'+'` or a `'-'`.
pub open spec fn signed_value(s: Seq<char>) -> Option<int> {
    if s.len() > 0 && s[0] == '-' {
        match magnitude(s.skip(1)) {
            Some(m) => Some(-m),
            None => None,
        }
    } else {
        unsigned_value(s)
    }
}

/// A number that was read, if it lies between `lo` and `hi`.
pub open spec fn within(v: Option<int>, lo: int, hi: int) -> Option<int> {
    match v {
        Some(n) => if lo <= n <= hi {
            Some(n)
        } else {
            None
        },
        None => None,
    }
}

/// The `u32` that `s` reads as.
pub open spec fn u32_value(s: Seq<char>) -> Option<int> {
    within(unsigned_value(s), 0, u32::MAX as int)
}

/// The `usize` that `s` reads as.
pub open spec fn usize_value(s: Seq<char>) -> Option<int> {
    within(unsigned_value(s), 0, usize::MAX as int)
}

/// The `i32` that `s` reads as.
pub open spec fn i32_value(s: Seq<char>) -> Option<int> {
    within(signed_value(s), i32::MIN as int, i32::MAX as int)
}

/// The `i64` that `s` reads as.
pub open spec fn i64_value(s: Seq<char>) -> Option<int> {
    within(signed_value(s), i64::MIN as int, i64::MAX as int)
}

/// The number that the digits from index `from` on stand for, if it is at most `limit`.
fn parse_magnitude(s: &Vec<char>, from: usize, limit: u64) -> (r: Option<u64>)
    requires
        from <= s@.len(),
    ensures
        match within(magnitude(s@.skip(from as int)), 0, limit as int) {
            Some(n) => r == Some(n as u64),
            None => r is None,
        },
{
    let ghost row = s@.skip(from as int);
    if from == s.len() {
        return None;
    }
    let mut acc: u64 = 0;
    let mut i: usize = from;
    assert(row.take(0) == Seq::<char>::empty());
    while i < s.len()
        invariant
            from <= i <= s@.len(),
            row == s@.skip(from as int),
            all_digits(row.take(i - from)),
            acc == digits_value(row.take(i - from)),
            acc <= limit,
        decreases s@.len() - i,
    {
        let c: char = s[i];
        assert(row[i - from] == c);
        if c < '0' || c > '9' {
            assert(!is_digit(row[i - from]));
            return None;
        }
        let next: u128 = 10 * (acc as u128) + (c as u32 - 48) as u128;
        proof {
            assert(row.take(i - from + 1).drop_last() == row.take(i - from));
            assert(next == digits_value(row.take(i - from + 1)));
            lemma_digits_value_of_prefix(row, i - from + 1);
        }
        if next > limit as u128 {
            return None;
        }
        acc = next as u64;
        i = i + 1;
    }
    assert(row.take(i - from) == row);
    Some(acc)
}

/// The number that `s` stands for as an unsigned integer, if it is at most `limit`.
fn parse_unsigned(s: &Vec<char>, limit: u64) -> (r: Option<u64>)
    ensures
        match within(unsigned_value(s@), 0, limit as int) {
            Some(n) => r == Some(n as u64),
            None => r is None,
        },
{
    if s.len() > 0 && s[0] == '+' {
        parse_magnitude(s, 1, limit)
    } else {
        assert(s@.skip(0) == s@);
        parse_magnitude(s, 0, limit)
    }
}

/// Reads a `u32` in decimal.
pub fn parse_u32(s: &Vec<char>) -> (r: Option<u32>)
    ensures
        match u32_value(s@) {
            Some(n) => r == Some(n as u32),
            None => r is None,
        },
{
    match parse_unsigned(s, u32::MAX as u64) {
        Some(n) => Some(n as u32),
        None => None,
    }
}

/// Reads a `usize` in decimal.
pub fn parse_usize(s: &Vec<char>) -> (r: Option<usize>)
    ensures
        match usize_value(s@) {
            Some(n) => r == Some(n as usize),
            None => r is None,
        },
{
    match parse_unsigned(s, usize::MAX as u64) {
        Some(n) => Some(n as usize),
        None => None,
    }
}

/// Reads an `i64` in decimal.
pub fn parse_i64(s: &Vec<char>) -> (r: Option<i64>)
    ensures
        match i64_value(s@) {
            Some(n) => r == Some(n as i64),
            None => r is None,
        },
{
    if s.len() > 0 && s[0] == '-' {
        match parse_magnitude(s, 1, 0x8000_0000_0000_0000) {
            Some(m) => if m == 0x8000_0000_0000_0000 {
                Some(i64::MIN)
            } else {
                Some(-(m as i64))
            },
            None => None,
        }
    } else {
        match parse_unsigned(s, i64::MAX as u64) {
            Some(m) => Some(m as i64),
            None => None,
        }
    }
}

/// Reads an `i32` in decimal.
pub fn parse_i32(s: &Vec<char>) -> (r: Option<i32>)
    ensures
        match i32_value(s@) {
            Some(n) => r == Some(n as i32),
            None => r is None,
        },
{
    match parse_i64(s) {
        Some(n) => if i32::MIN as i64 <= n && n <= i32::MAX as i64 {
            Some(n as i32)
        } else {
            None
        },
        None => None,
    }
}

/// A number written in decimal reads as itself.
pub proof fn law_decimal_reads_back(n: nat)
    ensures
        unsigned_value(decimal(n)) == Some(n as int),
        n <= usize::MAX ==> usize_value(decimal(n)) == Some(n as int),
        n <= u32::MAX ==> u32_value(decimal(n)) == Some(n as int),
{
    lemma_decimal(n);
    assert(is_digit(decimal(n)[0]));
}

// ---------------------------------------------------------------------------
// Floating-point numbers
// ---------------------------------------------------------------------------

/// `s` without the sign it may begin with.
pub open spec fn without_sign(s: Seq<char>) -> Seq<char> {
    if s.len() > 0 && (s[0] == '+' || s[0] == '-') {
        s.skip(1)
    } else {
        s
    }
}

/// `c` in lower case, if it is an ASCII letter.
pub open spec fn lower(c: char) -> char {
    if 'A' <= c <= 'Z' {
        (c as int + 32) as char
    } else {
        c
    }
}

/// Whether `s` is `word`, a word in lower case, up to the case of ASCII letters.
pub open spec fn is_word(s: Seq<char>, word: Seq<char>) -> bool {
    &&& s.len() == word.len()
    &&& forall|i: int| 0 <= i < s.len() ==> lower(#[trigger] s[i]) == word[i]
}

/// Digits with at most one point among, before or after them.
pub open spec fn is_mantissa(s: Seq<char>) -> bool {
    ||| s.len() > 0 && all_digits(s)
    ||| s.len() > 1 && exists|k: int|
        0 <= k < s.len() && #[trigger] s[k] == '.' && all_digits(s.take(k)) && all_digits(
            s.skip(k + 1),
        )
}

/// Digits, perhaps after a sign.
pub open spec fn is_exponent(s: Seq<char>) -> bool {
    without_sign(s).len() > 0 && all_digits(without_sign(s))
}

/// A mantissa, perhaps followed by an `'e'` or `'E'` and an exponent.
pub open spec fn is_number(s: Seq<char>) -> bool {
    ||| is_mantissa(s)
    ||| exists|k: int|
        0 <= k < s.len() && (#[trigger] s[k] == 'e' || s[k] == 'E') && is_mantissa(s.take(k))
            && is_exponent(s.skip(k + 1))
}

/// What reads as a floating-point number: an infinity, "not a number", or a number, perhaps
/// after a sign.
pub open spec fn is_float(s: Seq<char>) -> bool {
    let u = without_sign(s);
    ||| is_word(u, "inf"@)
    ||| is_word(u, "infinity"@)
    ||| is_word(u, "nan"@)
    ||| is_number(u)
}

/// A mantissa holds digits and points only.
proof fn lemma_mantissa_chars(s: Seq<char>)
    requires
        is_mantissa(s),
    ensures
        forall|j: int| 0 <= j < s.len() ==> is_digit(#[trigger] s[j]) || s[j] == '.',
{
    if !all_digits(s) {
        let k = choose|k: int|
            0 <= k < s.len() && #[trigger] s[k] == '.' && all_digits(s.take(k)) && all_digits(
                s.skip(k + 1),
            );
        assert forall|j: int| 0 <= j < s.len() implies is_digit(#[trigger] s[j]) || s[j] == '.' by {
            if j < k {
                assert(is_digit(s.take(k)[j]));
            } else if j > k {
                assert(is_digit(s.skip(k + 1)[j - k - 1]));
            }
        }
    }
}

/// Whether there are only digits from index `from` up to, and without, index `to`.
fn digits_between(s: &Vec<char>, from: usize, to: usize) -> (r: bool)
    requires
        from <= to <= s@.len(),
    ensures
        r == all_digits(s@.subrange(from as int, to as int)),
{
    let ghost part = s@.subrange(from as int, to as int);
    for i in from..to
        invariant
            from <= to <= s@.len(),
            part == s@.subrange(from as int, to as int),
            forall|j: int| 0 <= j < i - from ==> is_digit(#[trigger] part[j]),
    {
        if s[i] < '0' || s[i] > '9' {
            assert(!is_digit(part[i - from]));
            return false;
        }
    }
    true
}

/// Whether `s` is `word` up to the case of ASCII letters, from index `from` on.
fn word_at(s: &Vec<char>, from: usize, word: &str) -> (r: bool)
    requires
        from <= s@.len(),
    ensures
        r == is_word(s@.skip(from as int), word@),
{
    let letters: Vec<char> = chars_of(word);
    let len: usize = s.len();
    if len - from != letters.len() {
        return false;
    }
    let ghost rest = s@.skip(from as int);
    for i in 0..letters.len()
        invariant
            letters@ == word@,
            rest == s@.skip(from as int),
            from + letters@.len() == len == s@.len(),
            forall|j: int| 0 <= j < i ==> lower(#[trigger] rest[j]) == word@[j],
    {
        let c: char = s[from + i];
        assert(rest[i as int] == c);
        let low: char = if 'A' <= c && c <= 'Z' {
            (c as u8 + 32u8) as char
        } else {
            c
        };
        assert(low == lower(c));
        if low != letters[i] {
            return false;
        }
    }
    true
}

/// Whether the part of `s` from index `from` up to, and without, index `to` is a mantissa.
fn mantissa_between(s: &Vec<char>, from: usize, to: usize) -> (r: bool)
    requires
        from <= to <= s@.len(),
    ensures
        r == is_mantissa(s@.subrange(from as int, to as int)),
{
    let ghost part = s@.subrange(from as int, to as int);
    let mut k: usize = from;
    while k < to && s[k] != '.'
        invariant
            from <= k <= to <= s@.len(),
            forall|j: int| from <= j < k ==> s@[j] != '.',
        decreases to - k,
    {
        k = k + 1;
    }
    if k == to {
        assert(forall|j: int| 0 <= j < part.len() ==> #[trigger] part[j] == s@[from + j]);
        return from < to && digits_between(s, from, to);
    }
    assert(part[k - from] == '.');
    assert(!is_digit(part[k - from]));
    assert(part.take(k - from) == s@.subrange(from as int, k as int));
    assert(part.skip(k - from + 1) == s@.subrange(k + 1, to as int));
    let r: bool = to - from > 1 && digits_between(s, from, k) && digits_between(s, k + 1, to);
    proof {
        if part.len() > 1 && is_mantissa(part) {
            let w = choose|w: int|
                0 <= w < part.len() && #[trigger] part[w] == '.' && all_digits(part.take(w))
                    && all_digits(part.skip(w + 1));
            if w < k - from {
                assert(part[w] == s@[from + w]);
            } else if w > k - from {
                assert(is_digit(part.take(w)[k - from]));
            }
            assert(w == k - from);
        }
    }
    r
}

/// The first `'e'` or `'E'` of a number is where its exponent begins.
proof fn lemma_number_splits(u: Seq<char>, k: int)
    requires
        0 <= k < u.len(),
        u[k] == 'e' || u[k] == 'E',
        forall|j: int| 0 <= j < k ==> #[trigger] u[j] != 'e' && u[j] != 'E',
    ensures
        is_number(u) <==> is_mantissa(u.take(k)) && is_exponent(u.skip(k + 1)),
{
    if is_mantissa(u) {
        lemma_mantissa_chars(u);
        assert(is_digit(u[k]) || u[k] == '.');
    }
    if is_number(u) {
        let w = choose|w: int|
            0 <= w < u.len() && (#[trigger] u[w] == 'e' || u[w] == 'E') && is_mantissa(u.take(w))
                && is_exponent(u.skip(w + 1));
        if w > k {
            lemma_mantissa_chars(u.take(w));
            assert(is_digit(u.take(w)[k]) || u.take(w)[k] == '.');
        }
        assert(w == k);
    }
}

/// Whether `s` is a number from index `from` on.
fn number_at(s: &Vec<char>, from: usize) -> (r: bool)
    requires
        from <= s@.len(),
    ensures
        r == is_number(s@.skip(from as int)),
{
    let len: usize = s.len();
    let ghost u = s@.skip(from as int);
    let mut k: usize = from;
    while k < len && s[k] != 'e' && s[k] != 'E'
        invariant
            from <= k <= len == s@.len(),
            u == s@.skip(from as int),
            forall|j: int| 0 <= j < k - from ==> #[trigger] u[j] != 'e' && u[j] != 'E',
        decreases len - k,
    {
        assert(u[k - from] == s@[k as int]);
        k = k + 1;
    }
    assert(u.take(k - from) == s@.subrange(from as int, k as int));
    if k == len {
        assert(u.take(k - from) == u);
        return mantissa_between(s, from, len);
    }
    assert(u[k - from] == s@[k as int]);
    proof {
        lemma_number_splits(u, k - from);
    }
    let ghost e = u.skip(k - from + 1);
    assert(e == s@.skip(k + 1));
    let mut digits: usize = k + 1;
    if digits < len && (s[digits] == '+' || s[digits] == '-') {
        digits = digits + 1;
    }
    assert(without_sign(e) == s@.subrange(digits as int, len as int));
    mantissa_between(s, from, k) && digits < len && digits_between(s, digits, len)
}

/// Whether `s` reads as a floating-point number.
pub fn reads_as_float(s: &Vec<char>) -> (r: bool)
    ensures
        r == is_float(s@),
{
    let mut from: usize = 0;
    if s.len() > 0 && (s[0] == '+' || s[0] == '-') {
        from = 1;
    }
    assert(without_sign(s@) == s@.skip(from as int));
    word_at(s, from, "inf") || word_at(s, from, "infinity") || word_at(s, from, "nan")
        || number_at(s, from)
}

// ---------------------------------------------------------------------------
// What holds of every number in text
// ---------------------------------------------------------------------------

/// The digits are the ten characters from code point 48 on, and stand for 0 to 9 in that order.
pub proof fn law_digits(c: char)
    ensures
        is_digit(c) <==> 48 <= c as int <= 57,
        is_digit(c) ==> digit_value(c) == c as int - 48,
{
}

/// A row of digits is read in base ten: a further digit multiplies by ten and adds itself.
pub proof fn law_base_ten(s: Seq<char>, c: char)
    requires
        48 <= c as int <= 57,
    ensures
        digits_value(Seq::empty()) == 0,
        digits_value(s.push(c)) == 10 * digits_value(s) + (c as int - 48),
{
    assert(s.push(c).drop_last() == s);
}

/// A number in decimal is the one row of digits without a leading zero that stands for it.
pub proof fn law_decimal_is_canonical(n: nat)
    ensures
        decimal(n).len() > 0,
        forall|i: int| 0 <= i < decimal(n).len() ==> 48 <= (#[trigger] decimal(n)[i]) as int <= 57,
        digits_value(decimal(n)) == n,
        n > 0 ==> decimal(n)[0] != '0',
        n == 0 ==> decimal(n) == seq!['0'],
    decreases n,
{
    lemma_decimal(n);
    assert forall|i: int| 0 <= i < decimal(n).len() implies 48 <= (#[trigger] decimal(n)[i]) as int
        <= 57 by {
        assert(is_digit(decimal(n)[i]));
    }
    if n >= 10 {
        law_decimal_is_canonical(n / 10);
        assert(decimal(n)[0] == decimal(n / 10)[0]);
    }
}

/// Digits read as their number, with or without a plus sign; with a minus sign, as its negative,
/// and only where signs are read.
pub proof fn law_integer_forms(d: Seq<char>)
    requires
        d.len() > 0,
        forall|i: int| 0 <= i < d.len() ==> 48 <= (#[trigger] d[i]) as int <= 57,
    ensures
        unsigned_value(d) == Some(digits_value(d) as int),
        unsigned_value(seq!['+'] + d) == Some(digits_value(d) as int),
        unsigned_value(seq!['-'] + d) == None::<int>,
        signed_value(d) == Some(digits_value(d) as int),
        signed_value(seq!['+'] + d) == Some(digits_value(d) as int),
        signed_value(seq!['-'] + d) == Some(-(digits_value(d) as int)),
{
    assert(all_digits(d));
    assert(48 <= d[0] as int);
    let plus = seq!['+'] + d;
    let minus = seq!['-'] + d;
    assert(plus.skip(1) == d);
    assert(minus.skip(1) == d);
    assert(!is_digit(minus[0]));
}

/// Nothing else reads as an integer: what does is made of digits, at least one, behind at most one
/// sign.
pub proof fn law_integer_only_forms(s: Seq<char>)
    ensures
        unsigned_value(s) is Some ==> {
            let d = if s.len() > 0 && s[0] == '+' {
                s.skip(1)
            } else {
                s
            };
            d.len() > 0 && forall|i: int| 0 <= i < d.len() ==> 48 <= (#[trigger] d[i]) as int <= 57
        },
        signed_value(s) is Some ==> {
            let d = if s.len() > 0 && (s[0] == '+' || s[0] == '-') {
                s.skip(1)
            } else {
                s
            };
            d.len() > 0 && forall|i: int| 0 <= i < d.len() ==> 48 <= (#[trigger] d[i]) as int <= 57
        },
{
    let minus = s.skip(1);
    if all_digits(minus) {
        assert forall|i: int| 0 <= i < minus.len() implies 48 <= (#[trigger] minus[i]) as int
            <= 57 by {
            assert(is_digit(minus[i]));
        }
    }
    if all_digits(s) {
        assert forall|i: int| 0 <= i < s.len() implies 48 <= (#[trigger] s[i]) as int <= 57 by {
            assert(is_digit(s[i]));
        }
    }
}

/// An integer type reads every number in its range, and none outside it.
pub proof fn law_integer_ranges(s: Seq<char>, n: int)
    ensures
        u32_value(s) == Some(n) <==> unsigned_value(s) == Some(n) && n <= 0xFFFF_FFFF,
        usize_value(s) == Some(n) <==> unsigned_value(s) == Some(n) && n <= usize::MAX,
        i32_value(s) == Some(n) <==> signed_value(s) == Some(n) && -0x8000_0000 <= n
            <= 0x7FFF_FFFF,
        i64_value(s) == Some(n) <==> signed_value(s) == Some(n) && -0x8000_0000_0000_0000 <= n
            <= 0x7FFF_FFFF_FFFF_FFFF,
{
}

/// An integer in decimal, with a minus sign where it is negative.
pub open spec fn signed_decimal(n: int) -> Seq<char> {
    if n < 0 {
        seq!['-'] + decimal((-n) as nat)
    } else {
        decimal(n as nat)
    }
}

/// An integer written in decimal reads as itself in every type whose range holds it.
pub proof fn law_signed_decimal_reads_back(n: int)
    ensures
        signed_value(signed_decimal(n)) == Some(n),
        -0x8000_0000 <= n <= 0x7FFF_FFFF ==> i32_value(signed_decimal(n)) == Some(n),
        -0x8000_0000_0000_0000 <= n <= 0x7FFF_FFFF_FFFF_FFFF ==> i64_value(signed_decimal(n))
            == Some(n),
{
    let m: nat = if n < 0 {
        (-n) as nat
    } else {
        n as nat
    };
    law_decimal_is_canonical(m);
    law_integer_forms(decimal(m));
}

/// A word of ASCII letters in lower case is met letter by letter, in lower or in upper case.
pub proof fn law_words(s: Seq<char>, word: Seq<char>)
    requires
        forall|i: int| 0 <= i < word.len() ==> 'a' <= #[trigger] word[i] <= 'z',
    ensures
        is_word(s, word) <==> s.len() == word.len() && forall|i: int|
            0 <= i < s.len() ==> #[trigger] s[i] == word[i] || s[i] as int == word[i] as int - 32,
{
    assert forall|i: int| 0 <= i < s.len() && s.len() == word.len() implies (lower(#[trigger] s[i])
        == word[i] <==> s[i] == word[i] || s[i] as int == word[i] as int - 32) by {
        lemma_lower(s[i], word[i]);
    }
}

/// A letter in lower case is what it and its upper case become in lower case.
proof fn lemma_lower(c: char, w: char)
    requires
        'a' <= w <= 'z',
    ensures
        lower(c) == w <==> c == w || c as int == w as int - 32,
{
}

/// Nothing but digits, by their code points.
pub open spec fn only_digits(s: Seq<char>) -> bool {
    forall|i: int| 0 <= i < s.len() ==> 48 <= (#[trigger] s[i]) as int <= 57
}

/// A sign, or none.
pub open spec fn is_sign(s: Seq<char>) -> bool {
    s == Seq::<char>::empty() || s == seq!['+'] || s == seq!['-']
}

/// A point, or none.
pub open spec fn point_text(point: bool) -> Seq<char> {
    if point {
        seq!['.']
    } else {
        Seq::empty()
    }
}

/// Whether `s` is a mark, a sign or none, and digits.
pub open spec fn exponent_spelled(s: Seq<char>, mark: char, sign: Seq<char>, e: Seq<char>) -> bool {
    &&& mark == 'e' || mark == 'E'
    &&& is_sign(sign)
    &&& e.len() > 0
    &&& only_digits(e)
    &&& s == seq![mark] + (sign + e)
}

/// Whether `s` is an exponent behind its mark, or nothing.
pub open spec fn exponent_or_nothing(s: Seq<char>) -> bool {
    s.len() == 0 || exists|mark: char, sign: Seq<char>, e: Seq<char>|
        exponent_spelled(s, mark, sign, e)
}

/// Whether `s` is spelled as a number: a sign or none; digits `a`; perhaps a point and digits `b`;
/// at least one digit in all; perhaps an `'e'` or `'E'`, a sign or none, and digits.
pub open spec fn spelled(
    s: Seq<char>,
    sign: Seq<char>,
    a: Seq<char>,
    point: bool,
    b: Seq<char>,
    exponent: Seq<char>,
) -> bool {
    &&& is_sign(sign)
    &&& only_digits(a)
    &&& only_digits(b)
    &&& a.len() + b.len() > 0
    &&& !point ==> b.len() == 0
    &&& exponent_or_nothing(exponent)
    &&& s == sign + ((a + point_text(point) + b) + exponent)
}

/// A digit is told by its code point.
proof fn lemma_only_digits(s: Seq<char>)
    ensures
        all_digits(s) <==> only_digits(s),
{
    if all_digits(s) {
        assert forall|i: int| 0 <= i < s.len() implies 48 <= (#[trigger] s[i]) as int <= 57 by {
            assert(is_digit(s[i]));
        }
    }
}

/// What follows a sign, or none, is what is left without it.
proof fn lemma_without_sign(sign: Seq<char>, u: Seq<char>)
    requires
        is_sign(sign),
        u.len() > 0,
        u[0] != '+' && u[0] != '-',
    ensures
        without_sign(sign + u) == u,
{
    let s = sign + u;
    if sign.len() == 0 {
        assert(s == u);
    } else {
        assert(s[0] == sign[0]);
        assert(s.skip(1) == u);
    }
}

/// A text is its sign, or none, and what is left without it.
proof fn lemma_with_sign(s: Seq<char>) -> (sign: Seq<char>)
    ensures
        is_sign(sign),
        s == sign + without_sign(s),
{
    let sign = s.take(s.len() - without_sign(s).len());
    assert(s == sign + without_sign(s));
    if s.len() > 0 && (s[0] == '+' || s[0] == '-') {
        assert(sign == seq![s[0]]);
    } else {
        assert(sign == Seq::<char>::empty());
    }
    sign
}

/// Digits around a point, or without one, are a mantissa.
proof fn lemma_mantissa_of_parts(a: Seq<char>, point: bool, b: Seq<char>)
    requires
        only_digits(a),
        only_digits(b),
        a.len() + b.len() > 0,
        !point ==> b.len() == 0,
    ensures
        is_mantissa(a + point_text(point) + b),
{
    lemma_only_digits(a);
    lemma_only_digits(b);
    let m = a + point_text(point) + b;
    if point {
        let k = a.len() as int;
        assert(m[k] == '.');
        assert(m.take(k) == a);
        assert(m.skip(k + 1) == b);
    } else {
        assert(m == a);
    }
}

/// The digits around the point of a mantissa.
proof fn lemma_parts_of_mantissa(m: Seq<char>) -> (parts: (Seq<char>, bool, Seq<char>))
    requires
        is_mantissa(m),
    ensures
        only_digits(parts.0),
        only_digits(parts.2),
        parts.0.len() + parts.2.len() > 0,
        !parts.1 ==> parts.2.len() == 0,
        m == parts.0 + point_text(parts.1) + parts.2,
{
    if m.len() > 0 && all_digits(m) {
        lemma_only_digits(m);
        assert(m == m + point_text(false) + Seq::<char>::empty());
        (m, false, Seq::empty())
    } else {
        let k = choose|k: int|
            0 <= k < m.len() && #[trigger] m[k] == '.' && all_digits(m.take(k)) && all_digits(
                m.skip(k + 1),
            );
        lemma_only_digits(m.take(k));
        lemma_only_digits(m.skip(k + 1));
        assert(m == m.take(k) + point_text(true) + m.skip(k + 1));
        (m.take(k), true, m.skip(k + 1))
    }
}

/// A mantissa with an exponent, or without one, is a number.
proof fn lemma_number_of_parts(m: Seq<char>, exponent: Seq<char>)
    requires
        is_mantissa(m),
        exponent_or_nothing(exponent),
    ensures
        is_number(m + exponent),
{
    let u = m + exponent;
    if exponent.len() == 0 {
        assert(u == m);
    } else {
        let (mark, sign, e) = choose|mark: char, sign: Seq<char>, e: Seq<char>|
            exponent_spelled(exponent, mark, sign, e);
        lemma_only_digits(e);
        let k = m.len() as int;
        let tail = sign + e;
        assert(exponent[0] == mark);
        assert(u[k] == mark);
        assert(u.take(k) == m);
        assert(u.skip(k + 1) == tail);
        assert(48 <= e[0] as int);
        lemma_without_sign(sign, e);
        assert(is_exponent(tail));
    }
}

/// The mantissa and the exponent of a number.
proof fn lemma_parts_of_number(u: Seq<char>) -> (parts: (Seq<char>, Seq<char>))
    requires
        is_number(u),
    ensures
        is_mantissa(parts.0),
        exponent_or_nothing(parts.1),
        u == parts.0 + parts.1,
{
    if is_mantissa(u) {
        assert(u == u + Seq::<char>::empty());
        (u, Seq::empty())
    } else {
        let k = choose|k: int|
            0 <= k < u.len() && (#[trigger] u[k] == 'e' || u[k] == 'E') && is_mantissa(u.take(k))
                && is_exponent(u.skip(k + 1));
        let tail = u.skip(k + 1);
        let e = without_sign(tail);
        let sign = lemma_with_sign(tail);
        lemma_only_digits(e);
        assert(u.skip(k) == seq![u[k]] + tail);
        assert(exponent_spelled(u.skip(k), u[k], sign, e));
        assert(u == u.take(k) + u.skip(k));
        (u.take(k), u.skip(k))
    }
}

/// Whatever is spelled as a number reads as one.
pub proof fn law_float_forms(
    s: Seq<char>,
    sign: Seq<char>,
    a: Seq<char>,
    point: bool,
    b: Seq<char>,
    exponent: Seq<char>,
)
    requires
        spelled(s, sign, a, point, b, exponent),
    ensures
        is_float(s),
{
    let m = a + point_text(point) + b;
    lemma_mantissa_of_parts(a, point, b);
    lemma_mantissa_chars(m);
    lemma_number_of_parts(m, exponent);
    let u = m + exponent;
    assert(m.len() > 0);
    assert(is_digit(m[0]) || m[0] == '.');
    assert(u[0] == m[0]);
    lemma_without_sign(sign, u);
}

/// An infinity and "not a number" read as floating-point numbers, behind a sign or none.
pub proof fn law_float_words(sign: Seq<char>, word: Seq<char>)
    requires
        is_sign(sign),
        is_word(word, "inf"@) || is_word(word, "infinity"@) || is_word(word, "nan"@),
    ensures
        is_float(sign + word),
{
    reveal_strlit("inf");
    reveal_strlit("infinity");
    reveal_strlit("nan");
    assert(word.len() > 0);
    assert(lower(word[0]) == 'i' || lower(word[0]) == 'n');
    lemma_without_sign(sign, word);
}

/// Nothing else reads as a floating-point number.
pub proof fn law_float_only_forms(s: Seq<char>)
    requires
        is_float(s),
    ensures
        ({
            let u = if s.len() > 0 && (s[0] == '+' || s[0] == '-') {
                s.skip(1)
            } else {
                s
            };
            ||| is_word(u, "inf"@)
            ||| is_word(u, "infinity"@)
            ||| is_word(u, "nan"@)
            ||| exists|sign: Seq<char>, a: Seq<char>, point: bool, b: Seq<char>, exponent: Seq<char>|
                spelled(s, sign, a, point, b, exponent)
        }),
{
    let u = without_sign(s);
    if is_number(u) {
        let sign = lemma_with_sign(s);
        let (m, exponent) = lemma_parts_of_number(u);
        let (a, point, b) = lemma_parts_of_mantissa(m);
        assert(spelled(s, sign, a, point, b, exponent));
    }
}

} // verus!
