//! Text primitives shared by the specifier, the locale and the layout: decimal
//! spelling of integers, UTF-8 and UTF-16 lengths, and conversions between
//! `String` and sequences of characters.
use vstd::prelude::*;
use vstd::string::*;

use crate::types::{is_ascii_digit, push_char};

verus! {

broadcast use vstd::string::group_string_axioms;

/// The character spelling decimal digit `d`.
pub open spec fn digit_char(d: nat) -> char {
    if d == 0 {
        '0'
    } else if d == 1 {
        '1'
    } else if d == 2 {
        '2'
    } else if d == 3 {
        '3'
    } else if d == 4 {
        '4'
    } else if d == 5 {
        '5'
    } else if d == 6 {
        '6'
    } else if d == 7 {
        '7'
    } else if d == 8 {
        '8'
    } else {
        '9'
    }
}

/// The value of decimal digit character `c`.
pub open spec fn digit_value(c: char) -> nat {
    if c == '1' {
        1
    } else if c == '2' {
        2
    } else if c == '3' {
        3
    } else if c == '4' {
        4
    } else if c == '5' {
        5
    } else if c == '6' {
        6
    } else if c == '7' {
        7
    } else if c == '8' {
        8
    } else if c == '9' {
        9
    } else {
        0
    }
}

/// The decimal spelling of `n`, without leading zeros (`"0"` for zero).
pub open spec fn dec(n: nat) -> Seq<char>
    decreases n,
{
    if n < 10 {
        seq![digit_char(n)]
    } else {
        dec(n / 10).push(digit_char(n % 10))
    }
}

/// The number a run of decimal digits spells.
pub open spec fn digits_value(s: Seq<char>) -> nat
    decreases s.len(),
{
    if s.len() == 0 {
        0
    } else {
        digits_value(s.drop_last()) * 10 + digit_value(s.last())
    }
}

/// Whether every character of `s` is an ASCII digit.
pub open spec fn all_digits(s: Seq<char>) -> bool {
    forall|i: int| 0 <= i < s.len() ==> is_ascii_digit(#[trigger] s[i])
}

pub proof fn lemma_dec_facts(n: nat)
    ensures
        dec(n).len() >= 1,
        all_digits(dec(n)),
        digits_value(dec(n)) == n,
        n > 0 ==> dec(n)[0] != '0',
        n == 0 ==> dec(n) == seq!['0'],
    decreases n,
{
    if n < 10 {
        reveal_with_fuel(digits_value, 2);
        assert(dec(n) == seq![digit_char(n)]);
        assert(dec(n).drop_last() =~= Seq::<char>::empty());
    } else {
        lemma_dec_facts(n / 10);
        let d = dec(n / 10);
        assert(dec(n).drop_last() =~= d);
        assert(dec(n)[0] == d[0]);
    }
}

/// The number of UTF-16 code units that encode `c`.
pub open spec fn utf16_units(c: char) -> nat {
    if (c as u32) > 0xFFFF {
        2
    } else {
        1
    }
}

/// The number of UTF-8 bytes that encode `c`.
pub open spec fn utf8_bytes(c: char) -> nat {
    if (c as u32) < 0x80 {
        1
    } else if (c as u32) < 0x800 {
        2
    } else if (c as u32) < 0x10000 {
        3
    } else {
        4
    }
}

/// The length of `s` in UTF-16 code units, JavaScript's `String.prototype.length`.
pub open spec fn utf16_len(s: Seq<char>) -> nat
    decreases s.len(),
{
    if s.len() == 0 {
        0
    } else {
        utf16_len(s.drop_last()) + utf16_units(s.last())
    }
}

/// The length of `s` in UTF-8 bytes.
pub open spec fn utf8_len(s: Seq<char>) -> nat
    decreases s.len(),
{
    if s.len() == 0 {
        0
    } else {
        utf8_len(s.drop_last()) + utf8_bytes(s.last())
    }
}

pub proof fn lemma_utf16_len_add(a: Seq<char>, b: Seq<char>)
    ensures
        utf16_len(a + b) == utf16_len(a) + utf16_len(b),
    decreases b.len(),
{
    if b.len() == 0 {
        assert(a + b =~= a);
    } else {
        lemma_utf16_len_add(a, b.drop_last());
        assert((a + b).drop_last() =~= a + b.drop_last());
        assert((a + b).last() == b.last());
    }
}

pub proof fn lemma_utf8_len_add(a: Seq<char>, b: Seq<char>)
    ensures
        utf8_len(a + b) == utf8_len(a) + utf8_len(b),
    decreases b.len(),
{
    if b.len() == 0 {
        assert(a + b =~= a);
    } else {
        lemma_utf8_len_add(a, b.drop_last());
        assert((a + b).drop_last() =~= a + b.drop_last());
        assert((a + b).last() == b.last());
    }
}

pub proof fn lemma_utf8_len_at_least(s: Seq<char>)
    ensures
        utf8_len(s) >= s.len(),
    decreases s.len(),
{
    if s.len() > 0 {
        lemma_utf8_len_at_least(s.drop_last());
    }
}

pub proof fn lemma_utf16_len_bounds(s: Seq<char>)
    ensures
        s.len() <= utf16_len(s) <= 2 * s.len(),
        utf16_len(s) <= utf8_len(s),
        utf8_len(s) <= 4 * s.len(),
    decreases s.len(),
{
    if s.len() > 0 {
        lemma_utf16_len_bounds(s.drop_last());
    }
}

pub proof fn lemma_utf16_len_one(c: char)
    ensures
        utf16_len(seq![c]) == utf16_units(c),
        utf8_len(seq![c]) == utf8_bytes(c),
{
    reveal_with_fuel(utf16_len, 2);
    reveal_with_fuel(utf8_len, 2);
    assert(seq![c].drop_last() =~= Seq::<char>::empty());
}

/// Appends the decimal spelling of `n`.
pub fn push_decimal(out: &mut Vec<char>, n: u64)
    ensures
        final(out)@ == old(out)@ + dec(n as nat),
    decreases n,
{
    if n >= 10 {
        push_decimal(out, n / 10);
    }
    let d = (n % 10) as u32;
    let c = char_of_digit(d);
    out.push(c);
    proof {
        assert(dec(n as nat) =~= if n < 10 {
            seq![digit_char(n as nat)]
        } else {
            dec((n / 10) as nat).push(digit_char((n % 10) as nat))
        });
    }
}

/// The value of decimal digit `c`.
pub fn digit_index(c: char) -> (d: usize)
    requires
        is_ascii_digit(c),
    ensures
        d == digit_value(c),
        d < 10,
{
    if c == '1' {
        1
    } else if c == '2' {
        2
    } else if c == '3' {
        3
    } else if c == '4' {
        4
    } else if c == '5' {
        5
    } else if c == '6' {
        6
    } else if c == '7' {
        7
    } else if c == '8' {
        8
    } else if c == '9' {
        9
    } else {
        0
    }
}

/// The character for decimal digit `d`.
pub fn char_of_digit(d: u32) -> (c: char)
    requires
        d < 10,
    ensures
        c == digit_char(d as nat),
        is_ascii_digit(c),
{
    if d == 0 {
        '0'
    } else if d == 1 {
        '1'
    } else if d == 2 {
        '2'
    } else if d == 3 {
        '3'
    } else if d == 4 {
        '4'
    } else if d == 5 {
        '5'
    } else if d == 6 {
        '6'
    } else if d == 7 {
        '7'
    } else if d == 8 {
        '8'
    } else {
        '9'
    }
}

/// The characters of `s`.
pub fn chars_of(s: &str) -> (v: Vec<char>)
    ensures
        v@ == s@,
{
    let mut v: Vec<char> = Vec::new();
    for c in it: s.chars()
        invariant
            it.seq() == s@,
            v@ == s@.take(it.index()),
    {
        v.push(c);
    }
    assert(v@ =~= s@);
    v
}

/// A string holding the characters of `v`.
pub fn string_of(v: &Vec<char>) -> (s: String)
    ensures
        s@ == v@,
{
    let mut s = String::new();
    let n = v.len();
    for i in 0..n
        invariant
            n == v.len(),
            s@ == v@.take(i as int),
    {
        push_char(&mut s, v[i]);
        assert(v@.take(i + 1) =~= v@.take(i as int).push(v@[i as int]));
    }
    assert(v@.take(n as int) =~= v@);
    s
}

/// The number of UTF-16 code units that encode `c`.
pub fn char_utf16_units(c: char) -> (n: usize)
    ensures
        n == utf16_units(c),
{
    if (c as u32) > 0xFFFF {
        2
    } else {
        1
    }
}

/// The number of UTF-8 bytes that encode `c`.
pub fn char_utf8_bytes(c: char) -> (n: usize)
    ensures
        n == utf8_bytes(c),
{
    let u = c as u32;
    if u < 0x80 {
        1
    } else if u < 0x800 {
        2
    } else if u < 0x10000 {
        3
    } else {
        4
    }
}

// ---------------------------------------------------------------------------
// UTF-16 code units
// ---------------------------------------------------------------------------

/// The UTF-16 code units that encode `c`.
pub open spec fn char_units(c: char) -> Seq<u16> {
    let v = c as u32;
    if v <= 0xFFFF {
        seq![v as u16]
    } else {
        seq![(0xD800 + (v - 0x10000) / 1024) as u16, (0xDC00 + (v - 0x10000) % 1024) as u16]
    }
}

/// The UTF-16 encoding of `s`, JavaScript's view of a string.
pub open spec fn encode_utf16(s: Seq<char>) -> Seq<u16>
    decreases s.len(),
{
    if s.len() == 0 {
        Seq::<u16>::empty()
    } else {
        char_units(s[0]) + encode_utf16(s.skip(1))
    }
}

pub open spec fn is_high_surrogate(u: u16) -> bool {
    0xD800 <= u <= 0xDBFF
}

pub open spec fn is_low_surrogate(u: u16) -> bool {
    0xDC00 <= u <= 0xDFFF
}

/// Lossy UTF-16 decoding: a surrogate pair is one character, and a surrogate
/// without its partner is U+FFFD.
pub open spec fn decode_utf16(u: Seq<u16>) -> Seq<char>
    decreases u.len(),
{
    if u.len() == 0 {
        Seq::<char>::empty()
    } else if u.len() >= 2 && is_high_surrogate(u[0]) && is_low_surrogate(u[1]) {
        seq![(0x10000 + (u[0] - 0xD800) * 1024 + (u[1] - 0xDC00)) as char] + decode_utf16(
            u.skip(2),
        )
    } else if 0xD800 <= u[0] <= 0xDFFF {
        seq!['\u{FFFD}'] + decode_utf16(u.skip(1))
    } else {
        seq![u[0] as char] + decode_utf16(u.skip(1))
    }
}

pub proof fn lemma_encode_utf16_len(s: Seq<char>)
    ensures
        encode_utf16(s).len() == utf16_len(s),
    decreases s.len(),
{
    if s.len() > 0 {
        lemma_encode_utf16_len(s.skip(1));
        assert(s =~= seq![s[0]] + s.skip(1));
        lemma_utf16_len_add(seq![s[0]], s.skip(1));
        lemma_utf16_len_one(s[0]);
    }
}

pub proof fn lemma_encode_utf16_add(a: Seq<char>, b: Seq<char>)
    ensures
        encode_utf16(a + b) == encode_utf16(a) + encode_utf16(b),
    decreases a.len(),
{
    if a.len() == 0 {
        assert(a + b =~= b);
        assert(encode_utf16(a) + encode_utf16(b) =~= encode_utf16(b));
    } else {
        assert((a + b).skip(1) =~= a.skip(1) + b);
        lemma_encode_utf16_add(a.skip(1), b);
        assert(encode_utf16(a + b) =~= char_units(a[0]) + encode_utf16(a.skip(1) + b));
        assert(encode_utf16(a) + encode_utf16(b) =~= char_units(a[0]) + (encode_utf16(a.skip(1))
            + encode_utf16(b)));
    }
}

proof fn lemma_char_units_decode(c: char, rest: Seq<u16>)
    ensures
        decode_utf16(char_units(c) + rest) == seq![c] + decode_utf16(rest),
{
    let v = c as u32;
    let u = char_units(c) + rest;
    if v <= 0xFFFF {
        assert(u.skip(1) =~= rest);
        assert((v as u16) as char == c);
    } else {
        let hi = (0xD800 + (v - 0x10000) / 1024) as u16;
        let lo = (0xDC00 + (v - 0x10000) % 1024) as u16;
        assert(u.skip(2) =~= rest);
        assert(hi == 0xD800 + (v - 0x10000) / 1024);
        assert(lo == 0xDC00 + (v - 0x10000) % 1024);
        assert(0x10000 + (hi - 0xD800) * 1024 + (lo - 0xDC00) == v);
    }
}

/// Decoding gives back what was encoded.
/// Decoding keeps the UTF-16 length: a surrogate pair becomes one character of
/// two units, and any other unit one character of one (U+FFFD for a lone
/// surrogate).
pub proof fn lemma_decode_utf16_len(u: Seq<u16>)
    ensures
        utf16_len(decode_utf16(u)) == u.len(),
    decreases u.len(),
{
    if u.len() == 0 {
        reveal_with_fuel(utf16_len, 1);
    } else if u.len() >= 2 && is_high_surrogate(u[0]) && is_low_surrogate(u[1]) {
        let x: int = 0x10000 + (u[0] - 0xD800) * 1024 + (u[1] - 0xDC00);
        let c = x as char;
        lemma_decode_utf16_len(u.skip(2));
        lemma_utf16_len_add(seq![c], decode_utf16(u.skip(2)));
        lemma_utf16_len_one(c);
        assert(0x10000 <= x <= 0x10FFFF);
        assert(c as u32 == x);
    } else if 0xD800 <= u[0] <= 0xDFFF {
        lemma_decode_utf16_len(u.skip(1));
        lemma_utf16_len_add(seq!['\u{FFFD}'], decode_utf16(u.skip(1)));
        lemma_utf16_len_one('\u{FFFD}');
    } else {
        let c = u[0] as char;
        lemma_decode_utf16_len(u.skip(1));
        lemma_utf16_len_add(seq![c], decode_utf16(u.skip(1)));
        lemma_utf16_len_one(c);
        assert(c as u32 == u[0]);
    }
}

pub proof fn lemma_decode_encode_utf16(s: Seq<char>)
    ensures
        decode_utf16(encode_utf16(s)) == s,
    decreases s.len(),
{
    if s.len() > 0 {
        lemma_decode_encode_utf16(s.skip(1));
        lemma_char_units_decode(s[0], encode_utf16(s.skip(1)));
        assert(s =~= seq![s[0]] + s.skip(1));
    }
}

/// Appends the UTF-16 encoding of `s`.
pub fn push_utf16(units: &mut Vec<u16>, s: &Vec<char>)
    ensures
        final(units)@ == old(units)@ + encode_utf16(s@),
{
    let n = s.len();
    let mut i: usize = n;
    let mut tail: Vec<u16> = Vec::new();
    assert(s@.skip(n as int) =~= Seq::<char>::empty());
    while i > 0
        invariant
            i <= n,
            n == s@.len(),
            tail@ == encode_utf16(s@.skip(i as int)).reverse(),
        decreases i,
    {
        i = i - 1;
        let c = s[i];
        let v = c as u32;
        assert(s@.skip(i as int).skip(1) =~= s@.skip(i + 1));
        assert(s@.skip(i as int)[0] == c);
        if v <= 0xFFFF {
            tail.push(v as u16);
        } else {
            tail.push((0xDC00 + (v - 0x10000) % 1024) as u16);
            tail.push((0xD800 + (v - 0x10000) / 1024) as u16);
        }
        assert(tail@ =~= (char_units(c) + encode_utf16(s@.skip(i + 1))).reverse());
    }
    assert(s@.skip(0) =~= s@);
    let m = tail.len();
    let mut j: usize = m;
    let ghost start = units@;
    while j > 0
        invariant
            j <= m,
            m == tail@.len(),
            units@ == start + tail@.subrange(j as int, m as int).reverse(),
        decreases j,
    {
        j = j - 1;
        units.push(tail[j]);
        assert(tail@.subrange(j as int, m as int).reverse() =~= tail@.subrange(j + 1, m as int).reverse().push(tail@[j as int]));
    }
    assert(tail@.subrange(0, m as int).reverse() =~= encode_utf16(s@));
}

/// Calls `char::from_u32`. Trusted to give the character whose scalar value is
/// `v`, and `None` exactly when `v` is a surrogate or above U+10FFFF.
#[verifier::external_body]
pub(crate) fn char_from_u32(v: u32) -> (r: Option<char>)
    ensures
        (v <= 0x10FFFF && !(0xD800 <= v <= 0xDFFF)) ==> r == Some(v as char),
        !(v <= 0x10FFFF && !(0xD800 <= v <= 0xDFFF)) ==> r is None,
{
    char::from_u32(v)
}

/// Decodes `u`, replacing each unpaired surrogate with U+FFFD.
pub fn decode_utf16_lossy(u: &Vec<u16>) -> (s: Vec<char>)
    ensures
        s@ == decode_utf16(u@),
{
    let n = u.len();
    let mut out: Vec<char> = Vec::new();
    let mut i: usize = 0;
    assert(u@.skip(0) =~= u@);
    while i < n
        invariant
            i <= n,
            n == u@.len(),
            out@ + decode_utf16(u@.skip(i as int)) == decode_utf16(u@),
        decreases n - i,
    {
        let ghost rest = u@.skip(i as int);
        let ghost before = out@;
        let a = u[i];
        assert(rest[0] == a);
        if i + 1 < n && 0xD800 <= a && a <= 0xDBFF && 0xDC00 <= u[i + 1] && u[i + 1] <= 0xDFFF {
            let b = u[i + 1];
            assert(rest[1] == b);
            let v: u32 = 0x10000 + ((a - 0xD800) as u32) * 1024 + ((b - 0xDC00) as u32);
            let c = char_from_u32(v).unwrap();
            assert(rest.skip(2) =~= u@.skip(i + 2));
            out.push(c);
            assert(decode_utf16(rest) == seq![c] + decode_utf16(rest.skip(2)));
            assert(out@ + decode_utf16(u@.skip(i + 2)) =~= before + decode_utf16(rest));
            i = i + 2;
        } else {
            let c = if 0xD800 <= a && a <= 0xDFFF {
                '\u{FFFD}'
            } else {
                char_from_u32(a as u32).unwrap()
            };
            assert(rest.skip(1) =~= u@.skip(i + 1));
            out.push(c);
            assert(decode_utf16(rest) == seq![c] + decode_utf16(rest.skip(1)));
            assert(out@ + decode_utf16(u@.skip(i + 1)) =~= before + decode_utf16(rest));
            i = i + 1;
        }
    }
    assert(u@.skip(n as int) =~= Seq::<u16>::empty());
    assert(out@ + Seq::<char>::empty() =~= out@);
    out
}

} // verus!
