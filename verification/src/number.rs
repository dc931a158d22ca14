//! Number literals.
//!
//! A number leaf is accepted when its text is a decimal floating-point literal in the
//! form that Rust's standard conversion of text to a 64-bit float documents:
//!
//! ```text
//! Float   ::= Sign? ( 'inf' | 'infinity' | 'nan' | Decimal )
//! Decimal ::= ( Digit+ | Digit+ '.' Digit* | Digit* '.' Digit+ ) Exp?
//! Exp     ::= 'e' Sign? Digit+
//! Sign    ::= [+-]
//! Digit   ::= [0-9]
//! ```
//!
//! with letters in either case. The text of an accepted literal is kept as it stands;
//! turning it into a machine float is left to the caller.
//!
//! Integer literals are an optional sign and one or more digits, and have the value
//! that the digits spell in base ten.

use vstd::prelude::*;
use crate::text::chars_of;

verus! {

pub open spec fn is_digit(c: char) -> bool {
    '0' <= c && c <= '9'
}

pub open spec fn is_sign(c: char) -> bool {
    c == '+' || c == '-'
}

/// `c` is the given letter, in lower or in upper case.
pub open spec fn is_letter(c: char, lower: char, upper: char) -> bool {
    c == lower || c == upper
}

/// Every character of `s` is a digit. An empty text qualifies.
pub open spec fn is_digits(s: Seq<char>) -> bool {
    forall|i: int| 0 <= i < s.len() ==> is_digit(#[trigger] s[i])
}

/// `s` without its leading sign, where it has one.
pub open spec fn unsigned(s: Seq<char>) -> Seq<char> {
    if s.len() > 0 && is_sign(s[0]) {
        s.skip(1)
    } else {
        s
    }
}

pub open spec fn is_inf(s: Seq<char>) -> bool {
    &&& s.len() == 3
    &&& is_letter(s[0], 'i', 'I')
    &&& is_letter(s[1], 'n', 'N')
    &&& is_letter(s[2], 'f', 'F')
}

pub open spec fn is_infinity(s: Seq<char>) -> bool {
    &&& s.len() == 8
    &&& is_letter(s[0], 'i', 'I')
    &&& is_letter(s[1], 'n', 'N')
    &&& is_letter(s[2], 'f', 'F')
    &&& is_letter(s[3], 'i', 'I')
    &&& is_letter(s[4], 'n', 'N')
    &&& is_letter(s[5], 'i', 'I')
    &&& is_letter(s[6], 't', 'T')
    &&& is_letter(s[7], 'y', 'Y')
}

pub open spec fn is_nan(s: Seq<char>) -> bool {
    &&& s.len() == 3
    &&& is_letter(s[0], 'n', 'N')
    &&& is_letter(s[1], 'a', 'A')
    &&& is_letter(s[2], 'n', 'N')
}

/// One of the three words that name a float which is no decimal.
pub open spec fn is_special(s: Seq<char>) -> bool {
    is_inf(s) || is_infinity(s) || is_nan(s)
}

/// Digits with at most one point among them, and at least one digit.
pub open spec fn is_mantissa(s: Seq<char>) -> bool {
    ||| s.len() > 0 && is_digits(s)
    ||| exists|d: int|
        {
            &&& 0 <= d < s.len()
            &&& s.len() > 1
            &&& #[trigger] s[d] == '.'
            &&& is_digits(s.take(d))
            &&& is_digits(s.skip(d + 1))
        }
}

/// What follows the exponent letter: an optional sign and at least one digit.
pub open spec fn is_exponent(s: Seq<char>) -> bool {
    unsigned(s).len() > 0 && is_digits(unsigned(s))
}

/// A mantissa, alone or followed by an exponent letter and an exponent.
pub open spec fn is_decimal(s: Seq<char>) -> bool {
    ||| is_mantissa(s)
    ||| exists|e: int|
        {
            &&& 0 <= e < s.len()
            &&& is_letter(#[trigger] s[e], 'e', 'E')
            &&& is_mantissa(s.take(e))
            &&& is_exponent(s.skip(e + 1))
        }
}

/// `s` is a floating-point literal.
pub open spec fn is_float_literal(s: Seq<char>) -> bool {
    is_special(unsigned(s)) || is_decimal(unsigned(s))
}

/// A mantissa holds digits and points only.
proof fn lemma_mantissa_chars(s: Seq<char>, i: int)
    requires
        is_mantissa(s),
        0 <= i < s.len(),
    ensures
        is_digit(s[i]) || s[i] == '.',
{
    if !(s.len() > 0 && is_digits(s)) {
        let d = choose|d: int|
            {
                &&& 0 <= d < s.len()
                &&& s.len() > 1
                &&& #[trigger] s[d] == '.'
                &&& is_digits(s.take(d))
                &&& is_digits(s.skip(d + 1))
            };
        if i < d {
            assert(s.take(d)[i] == s[i]);
        } else if i > d {
            assert(s.skip(d + 1)[i - d - 1] == s[i]);
        }
    }
}

/// With its first point at `d`, a text is a mantissa exactly when digits alone stand
/// on both sides of that point, and at least one of them.
proof fn lemma_mantissa_with_point(s: Seq<char>, d: int)
    requires
        0 <= d < s.len(),
        s[d] == '.',
        forall|k: int| 0 <= k < d ==> s[k] != '.',
    ensures
        is_mantissa(s) == (s.len() > 1 && is_digits(s.take(d)) && is_digits(s.skip(d + 1))),
{
    if is_mantissa(s) {
        assert(!is_digit(s[d]));
        let w = choose|w: int|
            {
                &&& 0 <= w < s.len()
                &&& s.len() > 1
                &&& #[trigger] s[w] == '.'
                &&& is_digits(s.take(w))
                &&& is_digits(s.skip(w + 1))
            };
        if d < w {
            assert(s.take(w)[d] == s[d]);
        }
    }
}

/// Without a point, a text is a mantissa exactly when it is one or more digits.
proof fn lemma_mantissa_without_point(s: Seq<char>)
    requires
        forall|k: int| 0 <= k < s.len() ==> s[k] != '.',
    ensures
        is_mantissa(s) == (s.len() > 0 && is_digits(s)),
{
}

/// With its first exponent letter at `e`, a text is a decimal exactly when a mantissa
/// stands before that letter and an exponent after it.
proof fn lemma_decimal_with_exponent(s: Seq<char>, e: int)
    requires
        0 <= e < s.len(),
        is_letter(s[e], 'e', 'E'),
        forall|k: int| 0 <= k < e ==> !is_letter(s[k], 'e', 'E'),
    ensures
        is_decimal(s) == (is_mantissa(s.take(e)) && is_exponent(s.skip(e + 1))),
{
    if is_mantissa(s) {
        lemma_mantissa_chars(s, e);
    }
    if is_decimal(s) {
        let w = choose|w: int|
            {
                &&& 0 <= w < s.len()
                &&& is_letter(#[trigger] s[w], 'e', 'E')
                &&& is_mantissa(s.take(w))
                &&& is_exponent(s.skip(w + 1))
            };
        if e < w {
            lemma_mantissa_chars(s.take(w), e);
        }
    }
}

/// Without an exponent letter, a text is a decimal exactly when it is a mantissa.
proof fn lemma_decimal_without_exponent(s: Seq<char>)
    requires
        forall|k: int| 0 <= k < s.len() ==> !is_letter(s[k], 'e', 'E'),
    ensures
        is_decimal(s) == is_mantissa(s),
{
}

fn digit(c: char) -> (yes: bool)
    ensures
        yes == is_digit(c),
{
    '0' <= c && c <= '9'
}

fn letter(c: char, lower: char, upper: char) -> (yes: bool)
    ensures
        yes == is_letter(c, lower, upper),
{
    c == lower || c == upper
}

/// Whether digits alone stand in `s[from..to]`.
fn digits_in(s: &[char], from: usize, to: usize) -> (yes: bool)
    requires
        from <= to <= s.len(),
    ensures
        yes == is_digits(s@.subrange(from as int, to as int)),
{
    let ghost range = s@.subrange(from as int, to as int);
    let mut i: usize = from;
    while i < to
        invariant
            from <= i <= to <= s.len(),
            range == s@.subrange(from as int, to as int),
            forall|k: int| 0 <= k < i - from ==> is_digit(#[trigger] range[k]),
        decreases to - i,
    {
        if !digit(s[i]) {
            assert(range[i - from] == s@[i as int]);
            return false;
        }
        assert(range[i - from] == s@[i as int]);
        i += 1;
    }
    true
}

/// The first position in `s[from..to]` that holds one of two characters, or `to`.
fn find_in(s: &[char], from: usize, to: usize, a: char, b: char) -> (at: usize)
    requires
        from <= to <= s.len(),
    ensures
        from <= at <= to,
        forall|k: int| from <= k < at ==> s@[k] != a && s@[k] != b,
        at < to ==> s@[at as int] == a || s@[at as int] == b,
{
    let mut i: usize = from;
    while i < to
        invariant
            from <= i <= to <= s.len(),
            forall|k: int| from <= k < i ==> s@[k] != a && s@[k] != b,
        decreases to - i,
    {
        if s[i] == a || s[i] == b {
            return i;
        }
        i += 1;
    }
    to
}

fn mantissa_in(s: &[char], from: usize, to: usize) -> (yes: bool)
    requires
        from <= to <= s.len(),
    ensures
        yes == is_mantissa(s@.subrange(from as int, to as int)),
{
    let ghost range = s@.subrange(from as int, to as int);
    let d = find_in(s, from, to, '.', '.');
    if d < to {
        proof {
            assert(range[d - from] == s@[d as int]);
            assert forall|k: int| 0 <= k < d - from implies range[k] != '.' by {
                assert(range[k] == s@[from + k]);
            }
            lemma_mantissa_with_point(range, d - from);
            assert(range.take(d - from) == s@.subrange(from as int, d as int));
            assert(range.skip(d - from + 1) == s@.subrange(d + 1, to as int));
        }
        to - from > 1 && digits_in(s, from, d) && digits_in(s, d + 1, to)
    } else {
        proof {
            assert forall|k: int| 0 <= k < range.len() implies range[k] != '.' by {
                assert(range[k] == s@[from + k]);
            }
            lemma_mantissa_without_point(range);
        }
        to > from && digits_in(s, from, to)
    }
}

fn exponent_in(s: &[char], from: usize, to: usize) -> (yes: bool)
    requires
        from <= to <= s.len(),
    ensures
        yes == is_exponent(s@.subrange(from as int, to as int)),
{
    let ghost range = s@.subrange(from as int, to as int);
    if from < to && (s[from] == '+' || s[from] == '-') {
        proof {
            assert(range[0] == s@[from as int]);
            assert(range.skip(1) == s@.subrange(from + 1, to as int));
        }
        to - from > 1 && digits_in(s, from + 1, to)
    } else {
        proof {
            if from < to {
                assert(range[0] == s@[from as int]);
            }
        }
        to > from && digits_in(s, from, to)
    }
}

fn decimal_in(s: &[char], from: usize, to: usize) -> (yes: bool)
    requires
        from <= to <= s.len(),
    ensures
        yes == is_decimal(s@.subrange(from as int, to as int)),
{
    let ghost range = s@.subrange(from as int, to as int);
    let e = find_in(s, from, to, 'e', 'E');
    if e < to {
        proof {
            assert(range[e - from] == s@[e as int]);
            assert forall|k: int| 0 <= k < e - from implies !is_letter(range[k], 'e', 'E') by {
                assert(range[k] == s@[from + k]);
            }
            lemma_decimal_with_exponent(range, e - from);
            assert(range.take(e - from) == s@.subrange(from as int, e as int));
            assert(range.skip(e - from + 1) == s@.subrange(e + 1, to as int));
        }
        mantissa_in(s, from, e) && exponent_in(s, e + 1, to)
    } else {
        proof {
            assert forall|k: int| 0 <= k < range.len() implies !is_letter(range[k], 'e', 'E') by {
                assert(range[k] == s@[from + k]);
            }
            lemma_decimal_without_exponent(range);
        }
        mantissa_in(s, from, to)
    }
}

fn special_in(s: &[char], from: usize, to: usize) -> (yes: bool)
    requires
        from <= to <= s.len(),
    ensures
        yes == is_special(s@.subrange(from as int, to as int)),
{
    let ghost range = s@.subrange(from as int, to as int);
    proof {
        assert forall|k: int| 0 <= k < range.len() implies range[k] == s@[from + k] by {}
    }
    if to - from == 3 {
        let inf = letter(s[from], 'i', 'I') && letter(s[from + 1], 'n', 'N') && letter(
            s[from + 2],
            'f',
            'F',
        );
        let nan = letter(s[from], 'n', 'N') && letter(s[from + 1], 'a', 'A') && letter(
            s[from + 2],
            'n',
            'N',
        );
        proof {
            assert(range[0] == s@[from + 0]);
            assert(range[1] == s@[from + 1]);
            assert(range[2] == s@[from + 2]);
        }
        inf || nan
    } else if to - from == 8 {
        proof {
            assert(range[0] == s@[from + 0]);
            assert(range[1] == s@[from + 1]);
            assert(range[2] == s@[from + 2]);
            assert(range[3] == s@[from + 3]);
            assert(range[4] == s@[from + 4]);
            assert(range[5] == s@[from + 5]);
            assert(range[6] == s@[from + 6]);
            assert(range[7] == s@[from + 7]);
        }
        letter(s[from], 'i', 'I') && letter(s[from + 1], 'n', 'N') && letter(s[from + 2], 'f', 'F')
            && letter(s[from + 3], 'i', 'I') && letter(s[from + 4], 'n', 'N') && letter(
            s[from + 5],
            'i',
            'I',
        ) && letter(s[from + 6], 't', 'T') && letter(s[from + 7], 'y', 'Y')
    } else {
        false
    }
}

/// Whether the characters of `s` spell a floating-point literal.
pub fn float_literal_chars(s: &[char]) -> (yes: bool)
    ensures
        yes == is_float_literal(s@),
{
    let from: usize = if s.len() > 0 && (s[0] == '+' || s[0] == '-') {
        1
    } else {
        0
    };
    proof {
        assert(unsigned(s@) == s@.subrange(from as int, s.len() as int));
    }
    special_in(s, from, s.len()) || decimal_in(s, from, s.len())
}

/// Whether `text` is a floating-point literal.
pub fn float_literal(text: &str) -> (yes: bool)
    ensures
        yes == is_float_literal(text@),
{
    let chars = chars_of(text);
    float_literal_chars(chars.as_slice())
}

/// The value of a digit.
pub open spec fn digit_value(c: char) -> int {
    c as int - '0' as int
}

/// The value that a text of digits spells in base ten.
pub open spec fn digits_value(s: Seq<char>) -> int
    decreases s.len(),
{
    if s.len() == 0 {
        0
    } else {
        10 * digits_value(s.drop_last()) + digit_value(s.last())
    }
}

/// The value of an integer literal: an optional sign and one or more digits. Any
/// other text has none.
pub open spec fn int_literal(s: Seq<char>) -> Option<int> {
    let digits = unsigned(s);
    if digits.len() > 0 && is_digits(digits) {
        if s[0] == '-' {
            Some(-digits_value(digits))
        } else {
            Some(digits_value(digits))
        }
    } else {
        None
    }
}

/// The value of an integer literal that fits in 32 bits.
pub open spec fn i32_literal(s: Seq<char>) -> Option<i32> {
    match int_literal(s) {
        Some(value) => if i32::MIN <= value <= i32::MAX {
            Some(value as i32)
        } else {
            None
        },
        None => None,
    }
}

/// Digits spell a value that is not negative.
pub proof fn lemma_digits_value_nonnegative(s: Seq<char>)
    requires
        is_digits(s),
    ensures
        0 <= digits_value(s),
    decreases s.len(),
{
    if s.len() > 0 {
        assert forall|i: int| 0 <= i < s.drop_last().len() implies is_digit(
            #[trigger] s.drop_last()[i],
        ) by {
            assert(s.drop_last()[i] == s[i]);
        }
        lemma_digits_value_nonnegative(s.drop_last());
        assert(is_digit(s[s.len() - 1]));
    }
}

/// Digits spell a value that no prefix of them exceeds.
pub proof fn lemma_digits_value_grows(s: Seq<char>, k: int)
    requires
        is_digits(s),
        0 <= k <= s.len(),
    ensures
        0 <= digits_value(s.take(k)) <= digits_value(s),
    decreases s.len(),
{
    lemma_digits_value_nonnegative(s);
    if k == s.len() {
        assert(s.take(k) == s);
    } else {
        let init = s.drop_last();
        assert(init.take(k) == s.take(k));
        assert forall|i: int| 0 <= i < init.len() implies is_digit(#[trigger] init[i]) by {
            assert(init[i] == s[i]);
        }
        lemma_digits_value_grows(init, k);
        lemma_digits_value_nonnegative(init);
        assert(is_digit(s[s.len() - 1]));
    }
}

/// The value of the integer literal that the characters of `s` spell, where it fits
/// in 32 bits.
pub fn parse_i32_chars(s: &[char]) -> (value: Option<i32>)
    ensures
        value == i32_literal(s@),
{
    let negative = s.len() > 0 && s[0] == '-';
    let from: usize = if s.len() > 0 && (s[0] == '+' || s[0] == '-') {
        1
    } else {
        0
    };
    let ghost digits = s@.subrange(from as int, s.len() as int);
    proof {
        assert(unsigned(s@) == digits);
    }
    if from == s.len() {
        return None;
    }
    let mut total: i64 = 0;
    let mut i: usize = from;
    proof {
        assert(digits.take(0) == Seq::<char>::empty());
    }
    while i < s.len()
        invariant
            from <= i <= s.len(),
            digits == s@.subrange(from as int, s.len() as int),
            digits == unsigned(s@),
            is_digits(digits.take(i - from)),
            total == digits_value(digits.take(i - from)),
            0 <= total <= 2147483648,
        decreases s.len() - i,
    {
        let c = s[i];
        proof {
            assert(digits[i - from] == c);
            assert(digits.take(i - from + 1).drop_last() == digits.take(i - from));
        }
        if !digit(c) {
            assert(!is_digit(digits[i - from]));
            return None;
        }
        let next: i64 = total * 10 + (c as i64 - '0' as i64);
        proof {
            let longer = digits.take(i - from + 1);
            assert forall|k: int| 0 <= k < longer.len() implies is_digit(#[trigger] longer[k]) by {
                if k < i - from {
                    assert(digits.take(i - from)[k] == longer[k]);
                }
            }
            assert(next == digits_value(longer));
        }
        if next > 2147483648 {
            proof {
                if is_digits(digits) {
                    lemma_digits_value_grows(digits, i - from + 1);
                }
            }
            return None;
        }
        total = next;
        i += 1;
    }
    proof {
        assert(digits.take(i - from) == digits);
    }
    if negative {
        Some((-total) as i32)
    } else if total <= 2147483647 {
        Some(total as i32)
    } else {
        None
    }
}

/// The value of the integer literal `text`, where it fits in 32 bits.
pub fn parse_i32(text: &str) -> (value: Option<i32>)
    ensures
        value == i32_literal(text@),
{
    let chars = chars_of(text);
    parse_i32_chars(chars.as_slice())
}

} // verus!
