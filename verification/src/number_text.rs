//! `+text === 0`: ECMAScript's `ToNumber` on a formatted string, as far as the
//! question "is it zero?" goes.
//!
//! The subject is the formatted string, not the value: d3 drops the minus sign of
//! a value whose text reads as zero, so `format(".2f")(-0.001)` is `"0.00"`. The
//! grammar is ECMAScript's `StringNumericLiteral`: surrounding white space, an
//! empty string (zero), the `0b`/`0o`/`0x` literals, `Infinity`, and decimal
//! literals. A decimal literal with a non-zero digit is zero only when it rounds
//! to zero as a double, at or below half the smallest subnormal (`2^-1075`,
//! between `10^-324` and `10^-323`). The magnitude of the literal settles that
//! from its digit count and exponent alone except for values from `10^-325` up to
//! `10^-323`; there the digits are compared with `2^-1075` exactly, in big-number
//! arithmetic.
use vstd::prelude::*;

use crate::bignat::{lemma_pow10_add, pow10, BigNat, Comparison};
use crate::text::{chars_of, digit_value, digits_value};
use vstd::arithmetic::power2::{lemma2_to64, lemma_pow2_adds, pow2};
use crate::types::is_ascii_digit;

verus! {

/// ECMAScript `WhiteSpace` and `LineTerminator`, which `ToNumber` strips from both
/// ends of a string.
pub open spec fn spec_is_js_whitespace(c: char) -> bool {
    ||| '\u{9}' <= c <= '\u{d}'
    ||| '\u{2000}' <= c <= '\u{200a}'
    ||| c == '\u{20}'
    ||| c == '\u{a0}'
    ||| c == '\u{1680}'
    ||| c == '\u{2028}'
    ||| c == '\u{2029}'
    ||| c == '\u{202f}'
    ||| c == '\u{205f}'
    ||| c == '\u{3000}'
    ||| c == '\u{feff}'
}

/// `s` without its leading white space.
pub open spec fn trim_start_ws(s: Seq<char>) -> Seq<char>
    decreases s.len(),
{
    if s.len() > 0 && spec_is_js_whitespace(s[0]) {
        trim_start_ws(s.drop_first())
    } else {
        s
    }
}

/// `s` without its trailing white space.
pub open spec fn trim_end_ws(s: Seq<char>) -> Seq<char>
    decreases s.len(),
{
    if s.len() > 0 && spec_is_js_whitespace(s.last()) {
        trim_end_ws(s.drop_last())
    } else {
        s
    }
}

/// The radix a `0b`, `0o` or `0x` prefix (either case) announces.
pub open spec fn prefix_radix(t: Seq<char>) -> Option<nat> {
    if t.len() >= 2 && t[0] == '0' {
        if t[1] == 'b' || t[1] == 'B' {
            Some(2)
        } else if t[1] == 'o' || t[1] == 'O' {
            Some(8)
        } else if t[1] == 'x' || t[1] == 'X' {
            Some(16)
        } else {
            None
        }
    } else {
        None
    }
}

/// Whether `c` is a digit of radix 2, 8 or 16.
pub open spec fn is_radix_digit(c: char, radix: nat) -> bool {
    if radix == 16 {
        is_ascii_digit(c) || ('a' <= c <= 'f') || ('A' <= c <= 'F')
    } else if radix == 8 {
        '0' <= c <= '7'
    } else {
        c == '0' || c == '1'
    }
}

/// The number of consecutive ASCII digits of `s` from position `i`.
pub open spec fn digit_span(s: Seq<char>, i: int) -> nat
    decreases s.len() - i,
{
    if 0 <= i < s.len() && is_ascii_digit(s[i]) {
        1 + digit_span(s, i + 1)
    } else {
        0
    }
}

/// The digits of `d` from the first non-zero one.
pub open spec fn significant_len(d: Seq<char>) -> nat
    decreases d.len(),
{
    if d.len() == 0 {
        0
    } else if d[0] == '0' {
        significant_len(d.drop_first())
    } else {
        d.len()
    }
}

/// The pieces of a decimal literal `t`: whether it is well formed, its mantissa
/// digits (integer and fraction), the number of fraction digits, whether the
/// exponent is negative, and the exponent's digits.
pub struct DecimalLiteral {
    pub valid: bool,
    pub mantissa: Seq<char>,
    pub fraction_len: nat,
    pub exponent_negative: bool,
    pub exponent_digits: Seq<char>,
}

/// `StrDecimalLiteral` without `Infinity`: an optional sign, digits with an
/// optional point (at least one digit in all), then an optional exponent with at
/// least one digit.
pub open spec fn decimal_literal(t: Seq<char>) -> DecimalLiteral {
    let a: int = if t.len() > 0 && (t[0] == '+' || t[0] == '-') {
        1
    } else {
        0
    };
    let i1 = a + digit_span(t, a);
    let has_dot = i1 < t.len() && t[i1] == '.';
    let i2 = if has_dot {
        i1 + 1 + digit_span(t, i1 + 1)
    } else {
        i1
    };
    let fraction_len: nat = if has_dot {
        (i2 - i1 - 1) as nat
    } else {
        0
    };
    let has_exponent = i2 < t.len() && (t[i2] == 'e' || t[i2] == 'E');
    let sign_at = i2 + 1;
    let b: int = if has_exponent && sign_at < t.len() && (t[sign_at] == '+' || t[sign_at] == '-') {
        1
    } else {
        0
    };
    let exponent_start = sign_at + b;
    let i3 = if has_exponent {
        exponent_start + digit_span(t, exponent_start)
    } else {
        i2
    };
    DecimalLiteral {
        valid: (i1 - a) + fraction_len > 0 && (has_exponent ==> i3 > exponent_start) && i3
            == t.len(),
        mantissa: t.subrange(a, i1) + if has_dot {
            t.subrange(i1 + 1, i2)
        } else {
            Seq::empty()
        },
        fraction_len,
        exponent_negative: b == 1 && t[sign_at] == '-',
        exponent_digits: if has_exponent {
            t.subrange(exponent_start, i3)
        } else {
            Seq::empty()
        },
    }
}

/// The decimal magnitude class of a well-formed literal: zero digits, or the
/// decimal place just above its leading digit, `L + k` for `L` significant digits
/// scaled by `10^k`.
pub open spec fn magnitude_class(lit: DecimalLiteral) -> Option<bool> {
    if digits_value(lit.mantissa) == 0 {
        Some(true)
    } else {
        let e: int = if lit.exponent_negative {
            -(digits_value(lit.exponent_digits) as int)
        } else {
            digits_value(lit.exponent_digits) as int
        };
        let top = significant_len(lit.mantissa) + e - lit.fraction_len;
        if top <= -325 {
            Some(true)
        } else if top >= -322 {
            Some(false)
        } else {
            None
        }
    }
}

/// The power of ten that scales the mantissa digits of a literal: its exponent
/// less its fraction digits, so that the literal denotes `M·10^s`.
pub open spec fn literal_scale(lit: DecimalLiteral) -> int {
    let e: int = if lit.exponent_negative {
        -(digits_value(lit.exponent_digits) as int)
    } else {
        digits_value(lit.exponent_digits) as int
    };
    e - lit.fraction_len
}

/// Whether the literal's value `M·10^s` rounds to zero as a double: `M` is zero,
/// or the value is at most half the smallest subnormal, `2^-1075` (a tie goes to
/// the even neighbour, zero).
pub open spec fn rounds_to_zero(lit: DecimalLiteral) -> bool {
    digits_value(lit.mantissa) == 0 || (literal_scale(lit) < 0 && digits_value(lit.mantissa)
        * pow2(1075) <= pow10((-literal_scale(lit)) as nat))
}

/// The "Infinity" spelling `ToNumber` accepts, after an optional sign.
pub open spec fn infinity_chars() -> Seq<char> {
    seq!['I', 'n', 'f', 'i', 'n', 'i', 't', 'y']
}

/// Whether `ToNumber(s)` is zero, as far as the magnitude of a decimal literal
/// settles it: `Some(true)` for zero, `Some(false)` for any other number or NaN,
/// `None` for a literal at the underflow boundary, whose digits decide.
pub open spec fn spec_zero_test(s: Seq<char>) -> Option<bool> {
    let t = trim_end_ws(trim_start_ws(s));
    if t.len() == 0 {
        Some(true)
    } else if prefix_radix(t) is Some {
        let radix = prefix_radix(t).unwrap();
        let digits = t.skip(2);
        Some(
            digits.len() > 0 && forall|i: int|
                0 <= i < digits.len() ==> is_radix_digit(#[trigger] digits[i], radix) && digits[i]
                    == '0',
        )
    } else {
        let a: int = if t[0] == '+' || t[0] == '-' {
            1
        } else {
            0
        };
        if t.skip(a) == infinity_chars() {
            Some(false)
        } else if !decimal_literal(t).valid {
            Some(false)
        } else {
            magnitude_class(decimal_literal(t))
        }
    }
}

/// Whether `ToNumber(s)` is zero, decided exactly.
pub open spec fn spec_reads_as_zero(s: Seq<char>) -> bool {
    let t = trim_end_ws(trim_start_ws(s));
    if t.len() == 0 {
        true
    } else if prefix_radix(t) is Some {
        let radix = prefix_radix(t).unwrap();
        let digits = t.skip(2);
        digits.len() > 0 && forall|i: int|
            0 <= i < digits.len() ==> is_radix_digit(#[trigger] digits[i], radix) && digits[i]
                == '0'
    } else {
        let a: int = if t[0] == '+' || t[0] == '-' {
            1
        } else {
            0
        };
        if t.skip(a) == infinity_chars() {
            false
        } else if !decimal_literal(t).valid {
            false
        } else {
            rounds_to_zero(decimal_literal(t))
        }
    }
}

/// ECMAScript `WhiteSpace` and `LineTerminator`.
pub fn is_js_whitespace(c: char) -> (b: bool)
    ensures
        b == spec_is_js_whitespace(c),
{
    ('\u{9}' <= c && c <= '\u{d}') || ('\u{2000}' <= c && c <= '\u{200a}') || c == '\u{20}' || c
        == '\u{a0}' || c == '\u{1680}' || c == '\u{2028}' || c == '\u{2029}' || c == '\u{202f}'
        || c == '\u{205f}' || c == '\u{3000}' || c == '\u{feff}'
}

/// The radix a `0b`, `0o` or `0x` prefix announces, and where the digits start.
pub fn radix_literal(t: &Vec<char>) -> (r: Option<u32>)
    ensures
        match r {
            Some(radix) => prefix_radix(t@) == Some(radix as nat),
            None => prefix_radix(t@) is None,
        },
{
    if t.len() >= 2 && t[0] == '0' {
        let c = t[1];
        if c == 'b' || c == 'B' {
            Some(2)
        } else if c == 'o' || c == 'O' {
            Some(8)
        } else if c == 'x' || c == 'X' {
            Some(16)
        } else {
            None
        }
    } else {
        None
    }
}

fn radix_digit(c: char, radix: u32) -> (b: bool)
    ensures
        b == is_radix_digit(c, radix as nat),
{
    if radix == 16 {
        ('0' <= c && c <= '9') || ('a' <= c && c <= 'f') || ('A' <= c && c <= 'F')
    } else if radix == 8 {
        '0' <= c && c <= '7'
    } else {
        c == '0' || c == '1'
    }
}

/// `trim_matches(is_js_whitespace)`.
fn trim_ws(s: &Vec<char>) -> (t: Vec<char>)
    ensures
        t@ == trim_end_ws(trim_start_ws(s@)),
{
    let mut start: usize = 0;
    assert(s@.skip(0) =~= s@);
    while start < s.len() && is_js_whitespace(s[start])
        invariant
            start <= s@.len(),
            trim_start_ws(s@) == trim_start_ws(s@.skip(start as int)),
        decreases s@.len() - start,
    {
        assert(s@.skip(start as int).drop_first() =~= s@.skip(start + 1));
        start = start + 1;
    }
    let ghost front = s@.skip(start as int);
    assert(trim_start_ws(front) == front);
    let mut end: usize = s.len();
    while end > start && is_js_whitespace(s[end - 1])
        invariant
            start <= end <= s@.len(),
            front == s@.skip(start as int),
            trim_end_ws(front) == trim_end_ws(s@.subrange(start as int, end as int)),
        decreases end,
    {
        assert(s@.subrange(start as int, end as int).drop_last() =~= s@.subrange(
            start as int,
            end - 1,
        ));
        end = end - 1;
    }
    assert(s@.skip(start as int) =~= s@.subrange(start as int, s@.len() as int));
    let mut t: Vec<char> = Vec::new();
    let mut i = start;
    while i < end
        invariant
            start <= i <= end,
            end <= s@.len(),
            t@ == s@.subrange(start as int, i as int),
        decreases end - i,
    {
        t.push(s[i]);
        i = i + 1;
        assert(t@ =~= s@.subrange(start as int, i as int));
    }
    proof {
        let u = s@.subrange(start as int, end as int);
        assert(trim_end_ws(u) == u);
    }
    t
}

/// The consecutive ASCII digits from position `i`.
fn span_digits(t: &Vec<char>, i: usize) -> (n: usize)
    requires
        i <= t@.len(),
    ensures
        n == digit_span(t@, i as int),
        i + n <= t@.len(),
{
    let mut j = i;
    while j < t.len() && '0' <= t[j] && t[j] <= '9'
        invariant
            i <= j <= t@.len(),
            digit_span(t@, i as int) == (j - i) + digit_span(t@, j as int),
        decreases t@.len() - j,
    {
        j = j + 1;
    }
    j - i
}

/// Whether the digits `t[from..to]` are all zeros, and how many of them follow
/// the first non-zero digit.
fn zeros_and_significance(t: &Vec<char>, from: usize, to: usize) -> (r: (bool, usize))
    requires
        from <= to <= t@.len(),
        forall|i: int| from <= i < to ==> is_ascii_digit(#[trigger] t@[i]),
    ensures
        r.0 == (digits_value(t@.subrange(from as int, to as int)) == 0),
        r.1 == significant_len(t@.subrange(from as int, to as int)),
{
    let mut i = from;
    while i < to && t[i] == '0'
        invariant
            from <= i <= to,
            to <= t@.len(),
            significant_len(t@.subrange(from as int, to as int)) == significant_len(
                t@.subrange(i as int, to as int),
            ),
            digits_value(t@.subrange(from as int, to as int)) == digits_value(
                t@.subrange(i as int, to as int),
            ),
        decreases to - i,
    {
        proof {
            let u = t@.subrange(i as int, to as int);
            assert(u.drop_first() =~= t@.subrange(i + 1, to as int));
            lemma_digits_value_leading_zero(u);
        }
        i = i + 1;
    }
    proof {
        let u = t@.subrange(i as int, to as int);
        if i < to {
            assert(u[0] == t@[i as int]);
            lemma_digits_value_positive(u);
        } else {
            assert(u.len() == 0);
        }
    }
    (i == to, to - i)
}

proof fn lemma_digits_value_leading_zero(u: Seq<char>)
    requires
        u.len() > 0,
        u[0] == '0',
    ensures
        digits_value(u) == digits_value(u.drop_first()),
    decreases u.len(),
{
    if u.len() == 1 {
        assert(u.drop_last() =~= Seq::<char>::empty());
        assert(u.drop_first() =~= Seq::<char>::empty());
    } else {
        lemma_digits_value_leading_zero(u.drop_last());
        assert(u.drop_last().drop_first() =~= u.drop_first().drop_last());
        assert(u.drop_first().last() == u.last());
    }
}

proof fn lemma_digits_value_positive(u: Seq<char>)
    requires
        u.len() > 0,
        u[0] != '0',
        is_ascii_digit(u[0]),
    ensures
        digits_value(u) > 0,
    decreases u.len(),
{
    if u.len() == 1 {
        assert(u.drop_last() =~= Seq::<char>::empty());
        assert(u.last() == u[0]);
    } else {
        lemma_digits_value_positive(u.drop_last());
    }
}

/// The positions of a decimal literal's parts: whether it is well formed, the
/// sign's width `a`, the end of the integer digits `i1`, the end of the fraction
/// `i2` (past a point when `i2 > i1`), the exponent digits `es..ee`, and whether
/// the exponent is negative.
fn literal_parts(t: &Vec<char>) -> (r: (bool, usize, usize, usize, usize, usize, bool))
    requires
        t@.len() >= 1,
    ensures
        ({
            let (valid, a, i1, i2, es, ee, negative) = r;
            let lit = decimal_literal(t@);
            &&& valid == lit.valid
            &&& valid ==> {
                &&& a <= i1 <= i2 <= es <= ee <= t@.len()
                &&& i2 == i1 || i2 >= i1 + 1
                &&& lit.mantissa == t@.subrange(a as int, i1 as int) + if i2 > i1 {
                    t@.subrange(i1 + 1, i2 as int)
                } else {
                    Seq::empty()
                }
                &&& lit.fraction_len == if i2 > i1 {
                    (i2 - i1 - 1) as nat
                } else {
                    0
                }
                &&& lit.exponent_digits == t@.subrange(es as int, ee as int)
                &&& lit.exponent_negative == negative
                &&& forall|j: int| a <= j < i1 ==> is_ascii_digit(#[trigger] t@[j])
                &&& forall|j: int| i1 + 1 <= j < i2 ==> is_ascii_digit(#[trigger] t@[j])
                &&& forall|j: int| es <= j < ee ==> is_ascii_digit(#[trigger] t@[j])
            }
        }),
{
    let n = t.len();
    let a: usize = if t[0] == '+' || t[0] == '-' {
        1
    } else {
        0
    };
    let int_len = span_digits(t, a);
    proof {
        lemma_span_digits(t@, a as int);
    }
    let i1 = a + int_len;
    let has_dot = i1 < n && t[i1] == '.';
    let i2 = if has_dot {
        let f = span_digits(t, i1 + 1);
        proof {
            lemma_span_digits(t@, i1 + 1);
        }
        i1 + 1 + f
    } else {
        i1
    };
    let fraction_len = if has_dot {
        i2 - i1 - 1
    } else {
        0
    };
    let has_exponent = i2 < n && (t[i2] == 'e' || t[i2] == 'E');
    if !has_exponent {
        let valid = int_len + fraction_len > 0 && i2 == n;
        return (valid, a, i1, i2, i2, i2, false);
    }
    let sign_at = i2 + 1;
    let b: usize = if sign_at < n && (t[sign_at] == '+' || t[sign_at] == '-') {
        1
    } else {
        0
    };
    let exponent_start = sign_at + b;
    let e_len = span_digits(t, exponent_start);
    proof {
        lemma_span_digits(t@, exponent_start as int);
    }
    let i3 = exponent_start + e_len;
    let valid = int_len + fraction_len > 0 && i3 > exponent_start && i3 == n;
    let negative = b == 1 && t[sign_at] == '-';
    (valid, a, i1, i2, exponent_start, i3, negative)
}

/// The exponent a run of digits spells, saturated at `10^30`: exact below it, and
/// `true` in the second place once the true value reaches it.
fn saturated_exponent(t: &Vec<char>, from: usize, to: usize) -> (r: (u128, bool))
    requires
        from <= to <= t@.len(),
        forall|j: int| from <= j < to ==> is_ascii_digit(#[trigger] t@[j]),
    ensures
        !r.1 ==> r.0 == digits_value(t@.subrange(from as int, to as int)) && r.0
            < 1_000_000_000_000_000_000_000_000_000_000,
        r.1 ==> digits_value(t@.subrange(from as int, to as int))
            >= 1_000_000_000_000_000_000_000_000_000_000,
{
    let mut exponent: u128 = 0;
    let mut saturated = false;
    let mut i = from;
    while i < to
        invariant
            from <= i <= to,
            to <= t@.len(),
            forall|j: int| from <= j < to ==> is_ascii_digit(#[trigger] t@[j]),
            !saturated ==> exponent == digits_value(t@.subrange(from as int, i as int)),
            !saturated ==> exponent < 1_000_000_000_000_000_000_000_000_000_000,
            saturated ==> digits_value(t@.subrange(from as int, i as int))
                >= 1_000_000_000_000_000_000_000_000_000_000,
        decreases to - i,
    {
        let d = crate::text::digit_index(t[i]) as u128;
        proof {
            let before = t@.subrange(from as int, i as int);
            let after = t@.subrange(from as int, i + 1);
            assert(after.drop_last() =~= before);
            assert(after.last() == t@[i as int]);
        }
        if !saturated {
            let next = exponent * 10 + d;
            if next >= 1_000_000_000_000_000_000_000_000_000_000 {
                saturated = true;
            } else {
                exponent = next;
            }
        }
        i = i + 1;
    }
    (exponent, saturated)
}

/// `+text === 0`, the test that hides the sign of a negative value that formatted
/// to zero: `Some(true)` when `ToNumber(text)` is zero, `Some(false)` when it is
/// another number or NaN. A decimal literal at the underflow boundary takes
/// big-number arithmetic (see the module documentation); `None` when that is
/// refused memory.
pub fn formats_as_zero(text: &str) -> (r: Option<bool>)
    ensures
        r matches Some(b) ==> b == spec_reads_as_zero(text@),
        spec_zero_test(text@) is Some ==> r == spec_zero_test(text@),
{
    let all = chars_of(text);
    let t = trim_ws(&all);
    let n = t.len();
    if n == 0 {
        return Some(true);
    }
    if let Some(radix) = radix_literal(&t) {
        let mut ok = n > 2;
        let mut i: usize = 2;
        while i < n
            invariant
                2 <= i <= n,
                n == t@.len(),
                ok == (n > 2 && forall|j: int|
                    0 <= j < i - 2 ==> is_radix_digit(#[trigger] t@.skip(2)[j], radix as nat)
                        && t@.skip(2)[j] == '0'),
            decreases n - i,
        {
            let c = t[i];
            assert(t@.skip(2)[i - 2] == c);
            ok = ok && radix_digit(c, radix) && c == '0';
            i = i + 1;
        }
        return Some(ok);
    }
    let a: usize = if t[0] == '+' || t[0] == '-' {
        1
    } else {
        0
    };
    if is_infinity_after(&t, a) {
        return Some(false);
    }
    decimal_zero_test(&t)
}

/// Whether `t` from position `a` spells exactly `Infinity`.
fn is_infinity_after(t: &Vec<char>, a: usize) -> (b: bool)
    requires
        a <= t@.len(),
    ensures
        b == (t@.skip(a as int) == infinity_chars()),
{
    let n = t.len();
    let b = n - a == 8 && t[a] == 'I' && t[a + 1] == 'n' && t[a + 2] == 'f' && t[a + 3] == 'i'
        && t[a + 4] == 'n' && t[a + 5] == 'i' && t[a + 6] == 't' && t[a + 7] == 'y';
    proof {
        if b {
            assert(t@.skip(a as int) =~= infinity_chars());
        }
        if t@.skip(a as int) == infinity_chars() {
            assert(t@.skip(a as int).len() == 8);
            assert(t@[a + 0] == t@.skip(a as int)[0]);
            assert(t@[a + 1] == t@.skip(a as int)[1]);
            assert(t@[a + 2] == t@.skip(a as int)[2]);
            assert(t@[a + 3] == t@.skip(a as int)[3]);
            assert(t@[a + 4] == t@.skip(a as int)[4]);
            assert(t@[a + 5] == t@.skip(a as int)[5]);
            assert(t@[a + 6] == t@.skip(a as int)[6]);
            assert(t@[a + 7] == t@.skip(a as int)[7]);
        }
    }
    b
}

/// The zero test of a trimmed string that is neither empty, a radix literal nor
/// `Infinity`: NaN unless it is a decimal literal, whose magnitude then decides,
/// or, at the underflow boundary, an exact comparison with `2^-1075`.
fn decimal_zero_test(t: &Vec<char>) -> (r: Option<bool>)
    requires
        t@.len() >= 1,
    ensures
        !decimal_literal(t@).valid ==> r == Some(false),
        decimal_literal(t@).valid && magnitude_class(decimal_literal(t@)) is Some ==> r
            == magnitude_class(decimal_literal(t@)),
        r matches Some(b) ==> b == (decimal_literal(t@).valid && rounds_to_zero(
            decimal_literal(t@),
        )),
{
    let (valid, a, i1, i2, es, ee, negative) = literal_parts(t);
    if !valid {
        return Some(false);
    }
    let ghost lit = decimal_literal(t@);
    proof {
        assert forall|j: int| 0 <= j < lit.mantissa.len() implies is_ascii_digit(
            #[trigger] lit.mantissa[j],
        ) by {
            if j < i1 - a {
                assert(lit.mantissa[j] == t@[a + j]);
            } else {
                assert(lit.mantissa[j] == t@[i1 + 1 + (j - (i1 - a))]);
            }
        }
        lemma_magnitude_class_exact(lit);
    }
    let (int_zero, int_sig) = zeros_and_significance(t, a, i1);
    let (frac_zero, frac_sig) = if i2 > i1 {
        zeros_and_significance(t, i1 + 1, i2)
    } else {
        (true, 0)
    };
    let ghost ip = t@.subrange(a as int, i1 as int);
    let ghost fp = if i2 > i1 {
        t@.subrange(i1 + 1, i2 as int)
    } else {
        Seq::<char>::empty()
    };
    let fraction_len: usize = if i2 > i1 {
        i2 - i1 - 1
    } else {
        0
    };
    proof {
        assert(lit.mantissa == ip + fp);
        lemma_digits_value_concat(ip, fp);
        lemma_significant_len_concat(ip, fp);
        if i2 == i1 {
            assert(fp.len() == 0);
            assert(digits_value(fp) == 0);
            assert(significant_len(fp) == 0);
        }
        crate::decimal::lemma_pow10_pos(fp.len());
    }
    if int_zero && frac_zero {
        proof {
            assert(digits_value(lit.mantissa) == 0) by (nonlinear_arith)
                requires
                    digits_value(lit.mantissa) == digits_value(ip) * crate::bignat::pow10(fp.len())
                        + digits_value(fp),
                    digits_value(ip) == 0,
                    digits_value(fp) == 0,
            ;
        }
        return Some(true);
    }
    proof {
        assert(digits_value(lit.mantissa) > 0) by (nonlinear_arith)
            requires
                digits_value(lit.mantissa) == digits_value(ip) * crate::bignat::pow10(fp.len())
                    + digits_value(fp),
                digits_value(ip) > 0 || digits_value(fp) > 0,
                crate::bignat::pow10(fp.len()) >= 1,
        ;
        assert(int_sig <= ip.len()) by {
            lemma_significant_len_bound(ip);
        }
        if int_zero {
            lemma_zero_digits_insignificant(ip);
        } else {
            lemma_significant_nonzero(ip);
        }
    }
    let significant: usize = if int_zero {
        frac_sig
    } else {
        int_sig + fraction_len
    };
    let (exponent, saturated) = saturated_exponent(t, es, ee);
    let e_value: i128 = if saturated {
        1_000_000_000_000_000_000_000_000_000_000
    } else {
        exponent as i128
    };
    let signed: i128 = if negative {
        -e_value
    } else {
        e_value
    };
    let top: i128 = significant as i128 + signed - fraction_len as i128;
    proof {
        assert(significant == significant_len(lit.mantissa));
    }
    if top <= -325 {
        Some(true)
    } else if top >= -322 {
        Some(false)
    } else {
        proof {
            assert(!saturated);
            assert(top == significant + literal_scale(lit));
        }
        boundary_zero_test(t, a, i1, i2, significant, top, Ghost(lit))
    }
}

proof fn lemma_significant_len_bound(a: Seq<char>)
    ensures
        significant_len(a) <= a.len(),
    decreases a.len(),
{
    if a.len() > 0 && a[0] == '0' {
        lemma_significant_len_bound(a.drop_first());
    }
}

proof fn lemma_span_digits(s: Seq<char>, i: int)
    requires
        0 <= i <= s.len(),
    ensures
        forall|j: int| i <= j < i + digit_span(s, i) ==> is_ascii_digit(#[trigger] s[j]),
        i + digit_span(s, i) <= s.len(),
    decreases s.len() - i,
{
    if i < s.len() && is_ascii_digit(s[i]) {
        lemma_span_digits(s, i + 1);
    }
}

proof fn lemma_digits_value_concat(a: Seq<char>, b: Seq<char>)
    ensures
        digits_value(a + b) == digits_value(a) * crate::bignat::pow10(b.len()) + digits_value(b),
    decreases b.len(),
{
    if b.len() == 0 {
        assert(a + b =~= a);
        assert(digits_value(a) * 1 == digits_value(a));
    } else {
        lemma_digits_value_concat(a, b.drop_last());
        assert((a + b).drop_last() =~= a + b.drop_last());
        assert((a + b).last() == b.last());
        let va = digits_value(a);
        let p = crate::bignat::pow10(b.drop_last().len());
        assert(crate::bignat::pow10(b.len()) == 10 * p);
        assert((va * p + digits_value(b.drop_last())) * 10 + crate::text::digit_value(b.last())
            == va * (10 * p) + (digits_value(b.drop_last()) * 10 + crate::text::digit_value(
            b.last(),
        ))) by (nonlinear_arith);
    }
}

proof fn lemma_significant_len_concat(a: Seq<char>, b: Seq<char>)
    ensures
        significant_len(a + b) == if significant_len(a) == 0 {
            significant_len(b)
        } else {
            significant_len(a) + b.len()
        },
    decreases a.len(),
{
    if a.len() == 0 {
        assert(a + b =~= b);
    } else if a[0] == '0' {
        assert((a + b).drop_first() =~= a.drop_first() + b);
        lemma_significant_len_concat(a.drop_first(), b);
    } else {
        assert((a + b)[0] == a[0]);
    }
}

proof fn lemma_zero_digits_insignificant(a: Seq<char>)
    requires
        forall|i: int| 0 <= i < a.len() ==> is_ascii_digit(#[trigger] a[i]),
        digits_value(a) == 0,
    ensures
        significant_len(a) == 0,
    decreases a.len(),
{
    if a.len() > 0 {
        if a[0] != '0' {
            lemma_digits_value_positive(a);
        }
        lemma_digits_value_leading_zero(a);
        assert forall|i: int| 0 <= i < a.drop_first().len() implies is_ascii_digit(
            #[trigger] a.drop_first()[i],
        ) by {
            assert(a.drop_first()[i] == a[i + 1]);
        }
        lemma_zero_digits_insignificant(a.drop_first());
    }
}

proof fn lemma_significant_nonzero(a: Seq<char>)
    requires
        forall|i: int| 0 <= i < a.len() ==> is_ascii_digit(#[trigger] a[i]),
        digits_value(a) > 0,
    ensures
        significant_len(a) > 0,
    decreases a.len(),
{
    if a.len() > 0 && a[0] == '0' {
        lemma_digits_value_leading_zero(a);
        assert forall|i: int| 0 <= i < a.drop_first().len() implies is_ascii_digit(
            #[trigger] a.drop_first()[i],
        ) by {
            assert(a.drop_first()[i] == a[i + 1]);
        }
        lemma_significant_nonzero(a.drop_first());
    }
    if a.len() == 0 {
        assert(digits_value(a) == 0);
    }
}


/// `10^323 < 2^1075 <= 10^325`: half the smallest subnormal double lies between
/// `10^-325` and `10^-323`.
proof fn lemma_half_subnormal_bounds()
    ensures
        pow10(323) < pow2(1075),
        pow2(1075) <= pow10(325),
{
    lemma2_to64();
    assert(pow2(128) == 340282366920938463463374607431768211456) by {
        lemma_pow2_adds(64, 64);
        assert(pow2(64) * pow2(64) == 340282366920938463463374607431768211456) by (nonlinear_arith)
            requires
                pow2(64) == 18446744073709551616,
                pow2(64) == 18446744073709551616,
        ;
    }
    assert(pow2(256) == 115792089237316195423570985008687907853269984665640564039457584007913129639936) by {
        lemma_pow2_adds(128, 128);
        assert(pow2(128) * pow2(128) == 115792089237316195423570985008687907853269984665640564039457584007913129639936) by (nonlinear_arith)
            requires
                pow2(128) == 340282366920938463463374607431768211456,
                pow2(128) == 340282366920938463463374607431768211456,
        ;
    }
    assert(pow2(512) == 13407807929942597099574024998205846127479365820592393377723561443721764030073546976801874298166903427690031858186486050853753882811946569946433649006084096) by {
        lemma_pow2_adds(256, 256);
        assert(pow2(256) * pow2(256) == 13407807929942597099574024998205846127479365820592393377723561443721764030073546976801874298166903427690031858186486050853753882811946569946433649006084096) by (nonlinear_arith)
            requires
                pow2(256) == 115792089237316195423570985008687907853269984665640564039457584007913129639936,
                pow2(256) == 115792089237316195423570985008687907853269984665640564039457584007913129639936,
        ;
    }
    assert(pow2(1024) == 179769313486231590772930519078902473361797697894230657273430081157732675805500963132708477322407536021120113879871393357658789768814416622492847430639474124377767893424865485276302219601246094119453082952085005768838150682342462881473913110540827237163350510684586298239947245938479716304835356329624224137216) by {
        lemma_pow2_adds(512, 512);
        assert(pow2(512) * pow2(512) == 179769313486231590772930519078902473361797697894230657273430081157732675805500963132708477322407536021120113879871393357658789768814416622492847430639474124377767893424865485276302219601246094119453082952085005768838150682342462881473913110540827237163350510684586298239947245938479716304835356329624224137216) by (nonlinear_arith)
            requires
                pow2(512) == 13407807929942597099574024998205846127479365820592393377723561443721764030073546976801874298166903427690031858186486050853753882811946569946433649006084096,
                pow2(512) == 13407807929942597099574024998205846127479365820592393377723561443721764030073546976801874298166903427690031858186486050853753882811946569946433649006084096,
        ;
    }
    assert(pow2(51) == 2251799813685248) by {
        lemma_pow2_adds(32, 19);
        assert(pow2(32) * pow2(19) == 2251799813685248) by (nonlinear_arith)
            requires
                pow2(32) == 4294967296,
                pow2(19) == 524288,
        ;
    }
    assert(pow2(1075) == 404804506614621236704990693437834614099113299528284236713802716054860679135990693783920767402874248990374155728633623822779617474771586953734026799881477019843034848553132722728933815484186432682479535356945490137124014966849385397236206711298319112681620113024717539104666829230461005064372655017292012526615415482186989568) by {
        lemma_pow2_adds(1024, 51);
        assert(pow2(1024) * pow2(51) == 404804506614621236704990693437834614099113299528284236713802716054860679135990693783920767402874248990374155728633623822779617474771586953734026799881477019843034848553132722728933815484186432682479535356945490137124014966849385397236206711298319112681620113024717539104666829230461005064372655017292012526615415482186989568) by (nonlinear_arith)
            requires
                pow2(1024) == 179769313486231590772930519078902473361797697894230657273430081157732675805500963132708477322407536021120113879871393357658789768814416622492847430639474124377767893424865485276302219601246094119453082952085005768838150682342462881473913110540827237163350510684586298239947245938479716304835356329624224137216,
                pow2(51) == 2251799813685248,
        ;
    }
    reveal_with_fuel(pow10, 2);
    assert(pow10(2) == 100) by {
        lemma_pow10_add(1, 1);
        assert(pow10(1) * pow10(1) == 100) by (nonlinear_arith)
            requires
                pow10(1) == 10,
                pow10(1) == 10,
        ;
    }
    assert(pow10(4) == 10000) by {
        lemma_pow10_add(2, 2);
        assert(pow10(2) * pow10(2) == 10000) by (nonlinear_arith)
            requires
                pow10(2) == 100,
                pow10(2) == 100,
        ;
    }
    assert(pow10(8) == 100000000) by {
        lemma_pow10_add(4, 4);
        assert(pow10(4) * pow10(4) == 100000000) by (nonlinear_arith)
            requires
                pow10(4) == 10000,
                pow10(4) == 10000,
        ;
    }
    assert(pow10(16) == 10000000000000000) by {
        lemma_pow10_add(8, 8);
        assert(pow10(8) * pow10(8) == 10000000000000000) by (nonlinear_arith)
            requires
                pow10(8) == 100000000,
                pow10(8) == 100000000,
        ;
    }
    assert(pow10(32) == 100000000000000000000000000000000) by {
        lemma_pow10_add(16, 16);
        assert(pow10(16) * pow10(16) == 100000000000000000000000000000000) by (nonlinear_arith)
            requires
                pow10(16) == 10000000000000000,
                pow10(16) == 10000000000000000,
        ;
    }
    assert(pow10(64) == 10000000000000000000000000000000000000000000000000000000000000000) by {
        lemma_pow10_add(32, 32);
        assert(pow10(32) * pow10(32) == 10000000000000000000000000000000000000000000000000000000000000000) by (nonlinear_arith)
            requires
                pow10(32) == 100000000000000000000000000000000,
                pow10(32) == 100000000000000000000000000000000,
        ;
    }
    assert(pow10(128) == 100000000000000000000000000000000000000000000000000000000000000000000000000000000000000000000000000000000000000000000000000000000) by {
        lemma_pow10_add(64, 64);
        assert(pow10(64) * pow10(64) == 100000000000000000000000000000000000000000000000000000000000000000000000000000000000000000000000000000000000000000000000000000000) by (nonlinear_arith)
            requires
                pow10(64) == 10000000000000000000000000000000000000000000000000000000000000000,
                pow10(64) == 10000000000000000000000000000000000000000000000000000000000000000,
        ;
    }
    assert(pow10(256) == 10000000000000000000000000000000000000000000000000000000000000000000000000000000000000000000000000000000000000000000000000000000000000000000000000000000000000000000000000000000000000000000000000000000000000000000000000000000000000000000000000000000000000000) by {
        lemma_pow10_add(128, 128);
        assert(pow10(128) * pow10(128) == 10000000000000000000000000000000000000000000000000000000000000000000000000000000000000000000000000000000000000000000000000000000000000000000000000000000000000000000000000000000000000000000000000000000000000000000000000000000000000000000000000000000000000000) by (nonlinear_arith)
            requires
                pow10(128) == 100000000000000000000000000000000000000000000000000000000000000000000000000000000000000000000000000000000000000000000000000000000,
                pow10(128) == 100000000000000000000000000000000000000000000000000000000000000000000000000000000000000000000000000000000000000000000000000000000,
        ;
    }
    assert(pow10(320) == 100000000000000000000000000000000000000000000000000000000000000000000000000000000000000000000000000000000000000000000000000000000000000000000000000000000000000000000000000000000000000000000000000000000000000000000000000000000000000000000000000000000000000000000000000000000000000000000000000000000000000000000000000000000) by {
        lemma_pow10_add(256, 64);
        assert(pow10(256) * pow10(64) == 100000000000000000000000000000000000000000000000000000000000000000000000000000000000000000000000000000000000000000000000000000000000000000000000000000000000000000000000000000000000000000000000000000000000000000000000000000000000000000000000000000000000000000000000000000000000000000000000000000000000000000000000000000000) by (nonlinear_arith)
            requires
                pow10(256) == 10000000000000000000000000000000000000000000000000000000000000000000000000000000000000000000000000000000000000000000000000000000000000000000000000000000000000000000000000000000000000000000000000000000000000000000000000000000000000000000000000000000000000000,
                pow10(64) == 10000000000000000000000000000000000000000000000000000000000000000,
        ;
    }
    assert(pow10(322) == 10000000000000000000000000000000000000000000000000000000000000000000000000000000000000000000000000000000000000000000000000000000000000000000000000000000000000000000000000000000000000000000000000000000000000000000000000000000000000000000000000000000000000000000000000000000000000000000000000000000000000000000000000000000000) by {
        lemma_pow10_add(320, 2);
        assert(pow10(320) * pow10(2) == 10000000000000000000000000000000000000000000000000000000000000000000000000000000000000000000000000000000000000000000000000000000000000000000000000000000000000000000000000000000000000000000000000000000000000000000000000000000000000000000000000000000000000000000000000000000000000000000000000000000000000000000000000000000000) by (nonlinear_arith)
            requires
                pow10(320) == 100000000000000000000000000000000000000000000000000000000000000000000000000000000000000000000000000000000000000000000000000000000000000000000000000000000000000000000000000000000000000000000000000000000000000000000000000000000000000000000000000000000000000000000000000000000000000000000000000000000000000000000000000000000,
                pow10(2) == 100,
        ;
    }
    assert(pow10(323) == 100000000000000000000000000000000000000000000000000000000000000000000000000000000000000000000000000000000000000000000000000000000000000000000000000000000000000000000000000000000000000000000000000000000000000000000000000000000000000000000000000000000000000000000000000000000000000000000000000000000000000000000000000000000000) by {
        lemma_pow10_add(322, 1);
        assert(pow10(322) * pow10(1) == 100000000000000000000000000000000000000000000000000000000000000000000000000000000000000000000000000000000000000000000000000000000000000000000000000000000000000000000000000000000000000000000000000000000000000000000000000000000000000000000000000000000000000000000000000000000000000000000000000000000000000000000000000000000000) by (nonlinear_arith)
            requires
                pow10(322) == 10000000000000000000000000000000000000000000000000000000000000000000000000000000000000000000000000000000000000000000000000000000000000000000000000000000000000000000000000000000000000000000000000000000000000000000000000000000000000000000000000000000000000000000000000000000000000000000000000000000000000000000000000000000000,
                pow10(1) == 10,
        ;
    }
    assert(pow10(325) == 10000000000000000000000000000000000000000000000000000000000000000000000000000000000000000000000000000000000000000000000000000000000000000000000000000000000000000000000000000000000000000000000000000000000000000000000000000000000000000000000000000000000000000000000000000000000000000000000000000000000000000000000000000000000000) by {
        lemma_pow10_add(323, 2);
        assert(pow10(323) * pow10(2) == 10000000000000000000000000000000000000000000000000000000000000000000000000000000000000000000000000000000000000000000000000000000000000000000000000000000000000000000000000000000000000000000000000000000000000000000000000000000000000000000000000000000000000000000000000000000000000000000000000000000000000000000000000000000000000) by (nonlinear_arith)
            requires
                pow10(323) == 100000000000000000000000000000000000000000000000000000000000000000000000000000000000000000000000000000000000000000000000000000000000000000000000000000000000000000000000000000000000000000000000000000000000000000000000000000000000000000000000000000000000000000000000000000000000000000000000000000000000000000000000000000000000,
                pow10(2) == 100,
        ;
    }
}

/// A digit string is below ten to the number of its digits.
proof fn lemma_digits_value_below(s: Seq<char>)
    ensures
        digits_value(s) < pow10(s.len()),
    decreases s.len(),
{
    if s.len() > 0 {
        lemma_digits_value_below(s.drop_last());
        assert(digit_value(s.last()) < 10);
        assert(digits_value(s) < pow10(s.len())) by (nonlinear_arith)
            requires
                digits_value(s) == digits_value(s.drop_last()) * 10 + digit_value(s.last()),
                digits_value(s.drop_last()) < pow10(s.drop_last().len()),
                digit_value(s.last()) < 10,
                pow10(s.len()) == 10 * pow10(s.drop_last().len()),
        ;
    }
}

/// A digit string with a non-zero value lies in `[10^(L-1), 10^L)` for `L` its
/// significant digits.
proof fn lemma_digits_value_magnitude(s: Seq<char>)
    requires
        forall|i: int| 0 <= i < s.len() ==> is_ascii_digit(#[trigger] s[i]),
        digits_value(s) > 0,
    ensures
        significant_len(s) >= 1,
        pow10((significant_len(s) - 1) as nat) <= digits_value(s),
        digits_value(s) < pow10(significant_len(s)),
    decreases s.len(),
{
    lemma_significant_nonzero(s);
    if s[0] == '0' {
        lemma_digits_value_leading_zero(s);
        assert forall|i: int| 0 <= i < s.drop_first().len() implies is_ascii_digit(
            #[trigger] s.drop_first()[i],
        ) by {
            assert(s.drop_first()[i] == s[i + 1]);
        }
        lemma_digits_value_magnitude(s.drop_first());
    } else {
        let head = s.take(1);
        let rest = s.skip(1);
        assert(s =~= head + rest);
        lemma_digits_value_concat(head, rest);
        assert(head.drop_last() =~= Seq::<char>::empty());
        assert(head.last() == s[0]);
        assert(digits_value(head.drop_last()) == 0);
        assert(digits_value(head) == digit_value(s[0]));
        assert(digit_value(s[0]) >= 1);
        lemma_digits_value_below(rest);
        lemma_digits_value_below(s);
        assert(pow10(rest.len()) <= digits_value(s)) by (nonlinear_arith)
            requires
                digits_value(s) == digits_value(head) * pow10(rest.len()) + digits_value(rest),
                digits_value(head) >= 1,
        ;
    }
}


/// `10^a <= 10^b` for `a <= b`.
proof fn lemma_pow10_le(a: nat, b: nat)
    requires
        a <= b,
    ensures
        pow10(a) <= pow10(b),
{
    lemma_pow10_add(a, (b - a) as nat);
    crate::decimal::lemma_pow10_pos((b - a) as nat);
    crate::decimal::lemma_pow10_pos(a);
    assert(pow10(a) <= pow10(a) * pow10((b - a) as nat)) by (nonlinear_arith)
        requires
            pow10((b - a) as nat) >= 1,
            pow10(a) >= 1,
    ;
}

/// Where the magnitude class settles a literal, it settles it as the exact
/// rounding does.
proof fn lemma_magnitude_class_exact(lit: DecimalLiteral)
    requires
        forall|i: int| 0 <= i < lit.mantissa.len() ==> is_ascii_digit(#[trigger] lit.mantissa[i]),
    ensures
        magnitude_class(lit) matches Some(b) ==> b == rounds_to_zero(lit),
{
    let m = digits_value(lit.mantissa);
    if m > 0 {
        lemma_digits_value_magnitude(lit.mantissa);
        lemma_half_subnormal_bounds();
        let l = significant_len(lit.mantissa);
        let sc = literal_scale(lit);
        let top = l + sc;
        let p = pow2(1075);
        if top <= -325 {
            let d = (-sc) as nat;
            lemma_pow10_add(l, 325);
            lemma_pow10_le(l + 325, d);
            assert(m * p <= pow10(d)) by (nonlinear_arith)
                requires
                    m < pow10(l),
                    p <= pow10(325),
                    pow10(l + 325) == pow10(l) * pow10(325),
                    pow10(l + 325) <= pow10(d),
                    m >= 0,
                    p >= 0,
            ;
        } else if top >= -322 && sc < 0 {
            let d = (-sc) as nat;
            let l1 = (l - 1) as nat;
            lemma_pow10_add(l1, 323);
            lemma_pow10_le(d, l1 + 323);
            crate::decimal::lemma_pow10_pos(l1);
            assert(pow10(d) < m * p) by (nonlinear_arith)
                requires
                    pow10(l1) <= m,
                    pow10(323) < p,
                    pow10(l1 + 323) == pow10(l1) * pow10(323),
                    pow10(d) <= pow10(l1 + 323),
                    pow10(l1) >= 1,
            ;
        }
    }
}


/// The mantissa digits of a literal whose integer digits are `t[a..i1]` and whose
/// fraction digits, after a point at `i1`, are `t[i1 + 1..i2]`.
spec fn mantissa_span(t: Seq<char>, a: int, i1: int, i2: int) -> Seq<char> {
    t.subrange(a, i1) + if i2 > i1 {
        t.subrange(i1 + 1, i2)
    } else {
        Seq::empty()
    }
}

/// Digit `p` of the mantissa `mantissa_span(t, a, i1, i2)`.
fn mantissa_char(t: &Vec<char>, a: usize, i1: usize, i2: usize, p: usize) -> (c: char)
    requires
        a <= i1 <= i2 <= t@.len(),
        i2 == i1 || i2 >= i1 + 1,
        p < mantissa_span(t@, a as int, i1 as int, i2 as int).len(),
    ensures
        c == mantissa_span(t@, a as int, i1 as int, i2 as int)[p as int],
{
    let il = i1 - a;
    if p < il {
        t[a + p]
    } else {
        t[i1 + 1 + (p - il)]
    }
}

/// Five to the power `n`.
spec fn pow5(n: nat) -> nat
    decreases n,
{
    if n == 0 {
        1
    } else {
        5 * pow5((n - 1) as nat)
    }
}

/// `10^n = 2^n · 5^n`.
proof fn lemma_pow10_split(n: nat)
    ensures
        pow10(n) == pow2(n) * pow5(n),
    decreases n,
{
    if n == 0 {
        lemma2_to64();
        assert(pow10(0) == 1);
        assert(pow5(0) == 1);
        assert(pow2(0) * pow5(0) == 1) by (nonlinear_arith)
            requires
                pow2(0) == 1,
                pow5(0) == 1,
        ;
    } else {
        let m = (n - 1) as nat;
        lemma_pow10_split(m);
        lemma2_to64();
        lemma_pow2_adds(m, 1);
        assert(pow10(n) == pow2(n) * pow5(n)) by (nonlinear_arith)
            requires
                pow10(n) == 10 * pow10(m),
                pow10(m) == pow2(m) * pow5(m),
                pow2(n) == pow2(m) * 2,
                pow5(n) == 5 * pow5(m),
        ;
    }
}

/// From `10^1075` on, every power of ten is a multiple of `2^1075`.
proof fn lemma_pow10_multiple_of_half_subnormal(n: nat) -> (q: nat)
    requires
        n >= 1075,
    ensures
        pow10(n) == pow2(1075) * q,
{
    lemma_pow10_split(n);
    lemma_pow2_adds(1075, (n - 1075) as nat);
    let q = pow2((n - 1075) as nat) * pow5(n);
    assert(pow10(n) == pow2(1075) * q) by (nonlinear_arith)
        requires
            pow10(n) == pow2(n) * pow5(n),
            pow2(n) == pow2(1075) * pow2((n - 1075) as nat),
            q == pow2((n - 1075) as nat) * pow5(n),
    ;
    q
}

/// The exact zero test of a literal whose magnitude class is open: `M·2^1075`
/// against `10^(-s)`, with `M` cut to its first 752 significant digits when it
/// has more (from there on the power of ten is a multiple of `2^1075`, so the
/// digits after the cut only matter on an exact tie). `None` when the big-number
/// arithmetic is refused memory.
fn boundary_zero_test(
    t: &Vec<char>,
    a: usize,
    i1: usize,
    i2: usize,
    significant: usize,
    top: i128,
    Ghost(lit): Ghost<DecimalLiteral>,
) -> (r: Option<bool>)
    requires
        a <= i1 <= i2 <= t@.len(),
        i2 == i1 || i2 >= i1 + 1,
        lit.mantissa == mantissa_span(t@, a as int, i1 as int, i2 as int),
        forall|j: int|
            0 <= j < lit.mantissa.len() ==> is_ascii_digit(#[trigger] lit.mantissa[j]),
        digits_value(lit.mantissa) > 0,
        significant == significant_len(lit.mantissa),
        top == significant + literal_scale(lit),
        -324 <= top <= -323,
    ensures
        r matches Some(b) ==> b == rounds_to_zero(lit),
{
    let ghost d = lit.mantissa;
    let ghost pw = pow2(1075);
    let il = i1 - a;
    let f: usize = if i2 > i1 {
        i2 - i1 - 1
    } else {
        0
    };
    let len = il + f;
    proof {
        lemma_significant_len_bound(d);
        lemma_digits_value_magnitude(d);
        vstd::arithmetic::power2::lemma_pow2_pos(1075);
        assert(d.len() == len);
    }
    let z = len - significant;
    let k: usize = if significant <= 752 {
        len
    } else {
        z + 752
    };
    let mut acc = BigNat::zero();
    let mut p: usize = 0;
    proof {
        assert(d.subrange(0, 0) =~= Seq::<char>::empty());
        assert(digits_value(d.subrange(0, 0)) == 0);
        assert(digits_value(d.subrange(0, 0)) * pw == 0);
    }
    while p < k
        invariant
            p <= k <= len,
            len == d.len(),
            d == mantissa_span(t@, a as int, i1 as int, i2 as int),
            a <= i1 <= i2 <= t@.len(),
            i2 == i1 || i2 >= i1 + 1,
            forall|j: int| 0 <= j < d.len() ==> is_ascii_digit(#[trigger] d[j]),
            pw == pow2(1075),
            acc.wf(),
            acc@ == digits_value(d.subrange(0, p as int)) * pw,
        decreases k - p,
    {
        let c = mantissa_char(t, a, i1, i2, p);
        let g = crate::text::digit_index(c);
        let ghost before = digits_value(d.subrange(0, p as int));
        match acc.try_mul_small(10) {
            Ok(()) => {},
            Err(_) => {
                return None;
            },
        }
        let unit = match BigNat::try_from_u64_shl(g as u64, 1075) {
            Ok(u) => u,
            Err(_) => {
                return None;
            },
        };
        match acc.try_add_assign(&unit) {
            Ok(()) => {},
            Err(_) => {
                return None;
            },
        }
        proof {
            assert(d.subrange(0, p + 1).drop_last() =~= d.subrange(0, p as int));
            assert(d.subrange(0, p + 1).last() == c);
            assert(acc@ == digits_value(d.subrange(0, p + 1)) * pw) by (nonlinear_arith)
                requires
                    acc@ == before * pw * 10 + g * pw,
                    digits_value(d.subrange(0, p + 1)) == before * 10 + g,
            ;
        }
        p = p + 1;
    }
    let mut rest_zero = true;
    let mut q: usize = k;
    while q < len
        invariant
            k <= q <= len,
            len == d.len(),
            d == mantissa_span(t@, a as int, i1 as int, i2 as int),
            a <= i1 <= i2 <= t@.len(),
            i2 == i1 || i2 >= i1 + 1,
            forall|j: int| 0 <= j < d.len() ==> is_ascii_digit(#[trigger] d[j]),
            rest_zero == (digits_value(d.subrange(k as int, q as int)) == 0),
        decreases len - q,
    {
        let c = mantissa_char(t, a, i1, i2, q);
        let g = crate::text::digit_index(c);
        proof {
            assert(d.subrange(k as int, q + 1).drop_last() =~= d.subrange(k as int, q as int));
            assert(d.subrange(k as int, q + 1).last() == c);
        }
        rest_zero = rest_zero && g == 0;
        q = q + 1;
    }
    let n = (k as i128 - z as i128 - top) as u32;
    let mut power = match BigNat::try_from_u64_shl(1, 0) {
        Ok(b) => b,
        Err(_) => {
            return None;
        },
    };
    proof {
        lemma2_to64();
        assert(power@ == 1);
    }
    match power.try_mul_pow10(n) {
        Ok(()) => {},
        Err(_) => {
            return None;
        },
    }
    let answer = match acc.compare(&power) {
        Comparison::Less => true,
        Comparison::Equal => rest_zero,
        Comparison::Greater => false,
    };
    proof {
        lemma2_to64();
        let head = d.subrange(0, k as int);
        let tail = d.subrange(k as int, len as int);
        let s = (len - k) as nat;
        let h = digits_value(head);
        let rr = digits_value(tail);
        let m = digits_value(d);
        let sc = literal_scale(lit);
        let big = (-sc) as nat;
        assert(d =~= head + tail);
        lemma_digits_value_concat(head, tail);
        lemma_digits_value_below(tail);
        assert(big == n + s);
        lemma_pow10_add(n as nat, s);
        crate::decimal::lemma_pow10_pos(s);
        assert(power@ == pow10(n as nat));
        assert(m == h * pow10(s) + rr);
        if answer {
            if acc@ < power@ {
                if k == len {
                    assert(s == 0);
                    assert(rr == 0);
                    assert(m * pw <= pow10(big));
                } else {
                    let qq = lemma_pow10_multiple_of_half_subnormal(n as nat);
                    assert((h + 1) * pw <= pow10(n as nat)) by (nonlinear_arith)
                        requires
                            h * pw < pw * qq,
                            pow10(n as nat) == pw * qq,
                            pw > 0,
                    ;
                    assert(m * pw <= pow10(big)) by (nonlinear_arith)
                        requires
                            m == h * pow10(s) + rr,
                            rr < pow10(s),
                            (h + 1) * pw <= pow10(n as nat),
                            pow10(big) == pow10(n as nat) * pow10(s),
                            pw > 0,
                    ;
                }
            } else {
                assert(acc@ == power@ && rr == 0);
                assert(m * pw == pow10(big)) by (nonlinear_arith)
                    requires
                        m == h * pow10(s) + rr,
                        rr == 0,
                        h * pw == pow10(n as nat),
                        pow10(big) == pow10(n as nat) * pow10(s),
                ;
            }
        } else {
            if acc@ == power@ {
                assert(rr > 0);
                assert(m * pw > pow10(big)) by (nonlinear_arith)
                    requires
                        m == h * pow10(s) + rr,
                        rr > 0,
                        h * pw == pow10(n as nat),
                        pow10(big) == pow10(n as nat) * pow10(s),
                        pw > 0,
                ;
            } else {
                assert(m * pw > pow10(big)) by (nonlinear_arith)
                    requires
                        m == h * pow10(s) + rr,
                        h * pw > pow10(n as nat),
                        pow10(big) == pow10(n as nat) * pow10(s),
                        pow10(s) >= 1,
                        pw > 0,
                ;
            }
        }
    }
    Some(answer)
}

} // verus!
