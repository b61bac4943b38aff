//! Exact decimal conversion of binary64 values, read from their bit patterns.
//!
//! A finite non-zero double is `significand * 2^exponent` with an integer
//! significand, so it has a finite exact decimal expansion. Every conversion here
//! generates digits of that expansion by long division over [`BigNat`] and rounds
//! against the exact remainder: half away from zero for `toFixed`,
//! `toExponential(p)` and `toPrecision`, nearest-then-even for the shortest
//! round-tripping form of `Number::toString`.
//!
//! The only floating-point operations the formats need (the percent and SI
//! multiplications and `Math.round`) happen before a value reaches this module:
//! callers hand over the bits of the double those operations produced.
use vstd::arithmetic::power2::pow2;
use vstd::prelude::*;

use crate::bignat::{compare_values, lemma_pow10_add, pow10, BigNat, Comparison};
use crate::layout::{
    lemma_run_pieces_ok, lemma_run_pieces_within, part_view, parts_view, piece_chars, pieces_chars,
    run_parts_from, run_pieces, Layout, Part, Piece,
};
use crate::types::FormatType;
use crate::limits::{FormatError, FormatLimits};
use crate::text::{
    chars_of, char_of_digit, dec, digit_char, lemma_utf8_len_add, lemma_utf8_len_at_least, push_decimal,
    string_of, utf8_len,
};

verus! {

// ---------------------------------------------------------------------------
// Digit runs
// ---------------------------------------------------------------------------

/// The number a run of decimal digits spells, most significant first.
pub open spec fn run_value(d: Seq<u8>) -> nat
    decreases d.len(),
{
    if d.len() == 0 {
        0
    } else {
        run_value(d.drop_last()) * 10 + d.last() as nat
    }
}

/// Whether every element of `d` is a decimal digit.
pub open spec fn is_digit_run(d: Seq<u8>) -> bool {
    forall|i: int| 0 <= i < d.len() ==> #[trigger] d[i] < 10
}

/// `n` zero digits.
pub open spec fn zero_run(n: nat) -> Seq<u8> {
    Seq::new(n, |i: int| 0u8)
}

/// A one followed by `n - 1` zeros (nothing at all for `n == 0`).
pub open spec fn leading_one(n: nat) -> Seq<u8> {
    Seq::new(n, |i: int| if i == 0 { 1u8 } else { 0u8 })
}

pub proof fn lemma_run_value_concat(a: Seq<u8>, b: Seq<u8>)
    ensures
        run_value(a + b) == run_value(a) * pow10(b.len()) + run_value(b),
    decreases b.len(),
{
    if b.len() == 0 {
        assert(a + b =~= a);
        assert(run_value(a) * 1 == run_value(a));
    } else {
        let b1 = b.drop_last();
        lemma_run_value_concat(a, b1);
        assert((a + b).drop_last() =~= a + b1);
        assert((a + b).last() == b.last());
        let va = run_value(a);
        let p = pow10(b1.len());
        assert(pow10(b.len()) == 10 * p);
        assert((va * p + run_value(b1)) * 10 + b.last() as nat == va * (10 * p) + (run_value(b1)
            * 10 + b.last() as nat)) by (nonlinear_arith);
    }
}

pub proof fn lemma_run_value_bound(d: Seq<u8>)
    requires
        is_digit_run(d),
    ensures
        run_value(d) < pow10(d.len()),
    decreases d.len(),
{
    if d.len() > 0 {
        let d1 = d.drop_last();
        assert(is_digit_run(d1)) by {
            assert forall|i: int| 0 <= i < d1.len() implies #[trigger] d1[i] < 10 by {
                assert(d1[i] == d[i]);
            }
        }
        lemma_run_value_bound(d1);
        assert(d.last() < 10) by {
            assert(d[d.len() - 1] < 10);
        }
        let p = pow10(d1.len());
        assert(run_value(d1) * 10 + (d.last() as nat) < 10 * p) by (nonlinear_arith)
            requires
                run_value(d1) < p,
                d.last() < 10,
        ;
    }
}

pub proof fn lemma_zero_run_value(n: nat)
    ensures
        run_value(zero_run(n)) == 0,
    decreases n,
{
    if n > 0 {
        lemma_zero_run_value((n - 1) as nat);
        assert(zero_run(n).drop_last() =~= zero_run((n - 1) as nat));
    }
}

proof fn lemma_nines_value(n: nat)
    ensures
        run_value(Seq::new(n, |i: int| 9u8)) + 1 == pow10(n),
    decreases n,
{
    if n > 0 {
        lemma_nines_value((n - 1) as nat);
        assert(Seq::new(n, |i: int| 9u8).drop_last() =~= Seq::new((n - 1) as nat, |i: int| 9u8));
    }
}

proof fn lemma_run_value_single(x: u8)
    ensures
        run_value(seq![x]) == x as nat,
{
    let s = seq![x];
    assert(s.drop_last() =~= Seq::<u8>::empty());
    assert(s.last() == x);
    assert(run_value(Seq::<u8>::empty()) == 0);
    assert(run_value(s) == run_value(s.drop_last()) * 10 + s.last() as nat);
}

proof fn lemma_leading_one_value(n: nat)
    requires
        n > 0,
    ensures
        run_value(leading_one(n)) == pow10((n - 1) as nat),
{
    lemma_zero_run_value((n - 1) as nat);
    lemma_run_value_concat(seq![1u8], zero_run((n - 1) as nat));
    assert(seq![1u8] + zero_run((n - 1) as nat) =~= leading_one(n));
    assert(seq![1u8].drop_last() =~= Seq::<u8>::empty());
    assert(run_value(Seq::<u8>::empty()) == 0);
    assert(run_value(seq![1u8]) == 1);
    assert(1 * pow10((n - 1) as nat) + 0 == pow10((n - 1) as nat));
}

/// Adds one to the number `digits` spells. Returns `true` when the carry ran off
/// the front, in which case every digit is now zero and the true value is one
/// followed by `digits.len()` zeros.
pub fn increment(digits: &mut [u8]) -> (carried: bool)
    requires
        is_digit_run(old(digits)@),
    ensures
        final(digits)@.len() == old(digits)@.len(),
        is_digit_run(final(digits)@),
        carried == (run_value(old(digits)@) + 1 == pow10(old(digits)@.len())),
        !carried ==> run_value(final(digits)@) == run_value(old(digits)@) + 1,
        carried ==> final(digits)@ == zero_run(old(digits)@.len()),
{
    let n = digits.len();
    let ghost start = digits@;
    let mut i = n;
    while i > 0
        invariant
            i <= n,
            n == digits@.len(),
            n == start.len(),
            start == old(digits)@,
            is_digit_run(start),
            digits@ == start.take(i as int) + zero_run((n - i) as nat),
            start.skip(i as int) == Seq::new((n - i) as nat, |k: int| 9u8),
        decreases i,
    {
        let d = digits[i - 1];
        assert(d == start[i - 1]) by {
            assert(digits@[i - 1] == (start.take(i as int) + zero_run((n - i) as nat))[i - 1]);
        }
        if d < 9 {
            let ghost before = digits@;
            digits[i - 1] = d + 1;
            proof {
                let a = start.take(i - 1);
                let m = (n - i) as nat;
                assert(start =~= a.push(d) + Seq::new(m, |k: int| 9u8)) by {
                    assert(start =~= start.take(i as int) + start.skip(i as int));
                    assert(start.take(i as int) =~= a.push(d));
                }
                assert(digits@ =~= a.push((d + 1) as u8) + zero_run(m));
                lemma_run_value_concat(a.push(d), Seq::new(m, |k: int| 9u8));
                lemma_run_value_concat(a.push((d + 1) as u8), zero_run(m));
                lemma_nines_value(m);
                lemma_zero_run_value(m);
                assert(a.push(d).drop_last() =~= a);
                assert(a.push((d + 1) as u8).drop_last() =~= a);
                let p = pow10(m);
                let va = run_value(a);
                assert((va * 10 + d + 1) * p == (va * 10 + d) * p + (p - 1) + 1) by (nonlinear_arith);
                assert(is_digit_run(digits@)) by {
                    assert forall|k: int| 0 <= k < digits@.len() implies #[trigger] digits@[k] < 10 by {
                        if k < i - 1 {
                            assert(digits@[k] == start[k]);
                        }
                    }
                }
                lemma_run_value_bound(digits@);
            }
            return false;
        }
        let ghost before = digits@;
        digits[i - 1] = 0;
        proof {
            assert(d == 9);
            let m = (n - i) as nat;
            assert(digits@ =~= start.take(i - 1) + zero_run(m + 1)) by {
                assert forall|k: int| 0 <= k < n implies digits@[k] == (start.take(i - 1) + zero_run(
                    m + 1,
                ))[k] by {
                    if k < i - 1 {
                        assert(before[k] == start.take(i as int)[k]);
                    }
                }
            }
            assert(start.skip(i - 1) =~= Seq::new(m + 1, |k: int| 9u8)) by {
                assert forall|k: int| 0 <= k < m + 1 implies #[trigger] start.skip(i - 1)[k] == 9u8 by {
                    if k > 0 {
                        assert(start.skip(i - 1)[k] == start.skip(i as int)[k - 1]);
                    }
                }
            }
        }
        i = i - 1;
    }
    proof {
        assert(start =~= Seq::new(n as nat, |k: int| 9u8)) by {
            assert(start.skip(0) =~= start);
        }
        lemma_nines_value(n as nat);
        assert(digits@ =~= zero_run(n as nat));
    }
    true
}

/// How the exact discarded remainder compares with one half of the last retained
/// digit's unit.
#[derive(Debug, Clone, Copy, PartialEq, Eq, Structural)]
pub enum Half {
    /// The remainder is strictly below one half.
    Below,
    /// The remainder is exactly one half: an exact tie against the binary64 value.
    Exact,
    /// The remainder is strictly above one half.
    Above,
}

/// The half that a comparison of twice the remainder with the unit reports.
pub open spec fn half_of(c: Comparison) -> Half {
    match c {
        Comparison::Less => Half::Below,
        Comparison::Equal => Half::Exact,
        Comparison::Greater => Half::Above,
    }
}

/// ECMAScript's rule, applied to a window of significant digits: round up unless
/// the exact remainder is below one half.
///
/// Returns `true` when the increment carried past the leading digit. The window
/// keeps its length: on a carry it becomes a leading 1 followed by zeros, and the
/// caller raises the decimal exponent by one.
pub fn round_half_away(digits: &mut [u8], half: Half) -> (carried: bool)
    requires
        is_digit_run(old(digits)@),
    ensures
        final(digits)@.len() == old(digits)@.len(),
        is_digit_run(final(digits)@),
        half == Half::Below ==> !carried && final(digits)@ == old(digits)@,
        half != Half::Below ==> carried == (run_value(old(digits)@) + 1 == pow10(
            old(digits)@.len(),
        )),
        half != Half::Below && !carried ==> run_value(final(digits)@) == run_value(old(digits)@)
            + 1,
        carried ==> final(digits)@ == leading_one(old(digits)@.len()),
{
    if half == Half::Below {
        return false;
    }
    if !increment(digits) {
        return false;
    }
    if digits.len() > 0 {
        digits[0] = 1;
    }
    proof {
        assert(digits@ =~= leading_one(old(digits)@.len()));
        assert(is_digit_run(digits@)) by {
            assert forall|k: int| 0 <= k < digits@.len() implies #[trigger] digits@[k] < 10 by {
                assert(digits@[k] == leading_one(old(digits)@.len())[k]);
            }
        }
    }
    true
}

// ---------------------------------------------------------------------------
// Small pieces
// ---------------------------------------------------------------------------

/// `Math.max(-8, Math.min(8, Math.floor(e / 3))) * 3`.
pub open spec fn spec_clamp_si(e: int) -> int {
    let q = e / 3;
    (if q < -8 {
        -8
    } else if q > 8 {
        8
    } else {
        q
    }) * 3
}

/// The SI prefix exponent for a decimal exponent: the floor of a third, clamped
/// to the prefix table, times three.
pub fn clamp_si(exponent: i32) -> (r: i32)
    ensures
        r == spec_clamp_si(exponent as int),
{
    let e = exponent as i64;
    let q: i64 = if e >= 0 {
        e / 3
    } else {
        -((-e + 2) / 3)
    };
    proof {
        if e < 0 {
            let m = -e;
            vstd::arithmetic::div_mod::lemma_fundamental_div_mod((m + 2) as int, 3);
            vstd::arithmetic::div_mod::lemma_fundamental_div_mod(e as int, 3);
            assert(q == (e as int) / 3) by (nonlinear_arith)
                requires
                    m == -e,
                    q == -((m + 2) / 3),
                    m + 2 == 3 * ((m + 2) / 3) + (m + 2) % 3,
                    0 <= (m + 2) % 3 < 3,
                    e == 3 * (e / 3) + e % 3,
                    0 <= e % 3 < 3,
            ;
        }
    }
    let c: i64 = if q < -8 {
        -8
    } else if q > 8 {
        8
    } else {
        q
    };
    (c * 3) as i32
}

/// The bit patterns of `10^24, 10^21, ..., 10^-24`, the 17 scales an SI prefix
/// multiplies by (`Math.pow(10, -e)` for `e` in `-24, -21, ..., 24`).
pub open spec fn si_scale_table(i: int) -> u64 {
    if i == 0 {
        0x44EA_7843_79D9_9DB4
    } else if i == 1 {
        0x444B_1AE4_D6E2_EF50
    } else if i == 2 {
        0x43AB_C16D_674E_C800
    } else if i == 3 {
        0x430C_6BF5_2634_0000
    } else if i == 4 {
        0x426D_1A94_A200_0000
    } else if i == 5 {
        0x41CD_CD65_0000_0000
    } else if i == 6 {
        0x412E_8480_0000_0000
    } else if i == 7 {
        0x408F_4000_0000_0000
    } else if i == 8 {
        0x3FF0_0000_0000_0000
    } else if i == 9 {
        0x3F50_624D_D2F1_A9FC
    } else if i == 10 {
        0x3EB0_C6F7_A0B5_ED8D
    } else if i == 11 {
        0x3E11_2E0B_E826_D695
    } else if i == 12 {
        0x3D71_9799_812D_EA11
    } else if i == 13 {
        0x3CD2_03AF_9EE7_5616
    } else if i == 14 {
        0x3C32_725D_D1D2_43AC
    } else if i == 15 {
        0x3B92_E3B4_0A0E_9B4F
    } else {
        0x3AF3_57C2_99A8_8EA7
    }
}

/// Entry `index` of the SI scale table, or `None` past its end.
pub fn si_scale_bits(index: usize) -> (bits: Option<u64>)
    ensures
        index < 17 ==> bits == Some(si_scale_table(index as int)),
        index >= 17 ==> bits is None,
{
    if index == 0 {
        Some(0x44EA_7843_79D9_9DB4)
    } else if index == 1 {
        Some(0x444B_1AE4_D6E2_EF50)
    } else if index == 2 {
        Some(0x43AB_C16D_674E_C800)
    } else if index == 3 {
        Some(0x430C_6BF5_2634_0000)
    } else if index == 4 {
        Some(0x426D_1A94_A200_0000)
    } else if index == 5 {
        Some(0x41CD_CD65_0000_0000)
    } else if index == 6 {
        Some(0x412E_8480_0000_0000)
    } else if index == 7 {
        Some(0x408F_4000_0000_0000)
    } else if index == 8 {
        Some(0x3FF0_0000_0000_0000)
    } else if index == 9 {
        Some(0x3F50_624D_D2F1_A9FC)
    } else if index == 10 {
        Some(0x3EB0_C6F7_A0B5_ED8D)
    } else if index == 11 {
        Some(0x3E11_2E0B_E826_D695)
    } else if index == 12 {
        Some(0x3D71_9799_812D_EA11)
    } else if index == 13 {
        Some(0x3CD2_03AF_9EE7_5616)
    } else if index == 14 {
        Some(0x3C32_725D_D1D2_43AC)
    } else if index == 15 {
        Some(0x3B92_E3B4_0A0E_9B4F)
    } else if index == 16 {
        Some(0x3AF3_57C2_99A8_8EA7)
    } else {
        None
    }
}

/// Refuses a precision so large that generating its digits would be a denial of
/// service.
fn check_precision(precision: u32, limits: &FormatLimits) -> (r: Result<(), FormatError>)
    ensures
        (precision as int) < limits.max_output_bytes ==> r is Ok,
        (precision as int) >= limits.max_output_bytes ==> r == Err::<(), FormatError>(
            FormatError::OutputLimit {
                requested: precision as usize,
                maximum: limits.max_output_bytes,
            },
        ),
{
    if precision as usize >= limits.max_output_bytes {
        return Err(
            FormatError::OutputLimit {
                requested: precision as usize,
                maximum: limits.max_output_bytes,
            },
        );
    }
    Ok(())
}

/// An empty digit buffer for `count` digits, refused when `count` alone is over
/// the output limit.
fn digit_vec(count: usize, limits: &FormatLimits) -> (r: Result<Vec<u8>, FormatError>)
    ensures
        count > limits.max_output_bytes ==> r == Err::<Vec<u8>, FormatError>(
            FormatError::OutputLimit { requested: count, maximum: limits.max_output_bytes },
        ),
        count <= limits.max_output_bytes ==> (r matches Ok(v) && v@.len() == 0),
{
    if count > limits.max_output_bytes {
        return Err(FormatError::OutputLimit { requested: count, maximum: limits.max_output_bytes });
    }
    Ok(Vec::new())
}

/// `count` zero digits, under the same limit as [`digit_vec`].
fn zero_digits(count: usize, limits: &FormatLimits) -> (r: Result<Vec<u8>, FormatError>)
    ensures
        count > limits.max_output_bytes ==> r == Err::<Vec<u8>, FormatError>(
            FormatError::OutputLimit { requested: count, maximum: limits.max_output_bytes },
        ),
        count <= limits.max_output_bytes ==> (r matches Ok(v) && v@ == zero_run(count as nat)),
{
    let mut digits = digit_vec(count, limits)?;
    let mut i: usize = 0;
    while i < count
        invariant
            i <= count,
            digits@ == zero_run(i as nat),
        decreases count - i,
    {
        digits.push(0);
        i = i + 1;
        assert(digits@ =~= zero_run(i as nat));
    }
    Ok(digits)
}


// ---------------------------------------------------------------------------
// Bit patterns and exact values
// ---------------------------------------------------------------------------

/// The biased exponent field of a binary64 bit pattern.
pub open spec fn exponent_field(bits: u64) -> nat {
    ((bits as nat) / 0x10_0000_0000_0000) % 2048
}

/// The fraction field of a binary64 bit pattern.
pub open spec fn fraction_field(bits: u64) -> nat {
    (bits as nat) % 0x10_0000_0000_0000
}

/// Whether the sign bit is set.
pub open spec fn sign_bit(bits: u64) -> bool {
    bits >= 0x8000_0000_0000_0000
}

/// Whether the bits spell a NaN.
pub open spec fn is_nan_bits(bits: u64) -> bool {
    exponent_field(bits) == 2047 && fraction_field(bits) != 0
}

/// Whether the bits spell an infinity.
pub open spec fn is_infinite_bits(bits: u64) -> bool {
    exponent_field(bits) == 2047 && fraction_field(bits) == 0
}

/// Whether the bits spell a zero of either sign.
pub open spec fn is_zero_bits(bits: u64) -> bool {
    exponent_field(bits) == 0 && fraction_field(bits) == 0
}

/// A finite non-zero magnitude, exactly, as `significand * 2^exponent`.
#[derive(Debug, Clone, Copy, PartialEq, Eq, Structural)]
pub struct Split {
    pub significand: u64,
    pub exponent: i32,
}

/// The magnitude a bit pattern denotes, or `None` for zero and the non-finite
/// values.
pub open spec fn split_of(bits: u64) -> Option<Split> {
    if exponent_field(bits) == 2047 || is_zero_bits(bits) {
        None
    } else if exponent_field(bits) == 0 {
        Some(Split { significand: fraction_field(bits) as u64, exponent: -1074i32 })
    } else {
        Some(
            Split {
                significand: (fraction_field(bits) + 0x10_0000_0000_0000) as u64,
                exponent: (exponent_field(bits) - 1075) as i32,
            },
        )
    }
}

/// The magnitudes a split can take.
pub open spec fn split_ok(v: Split) -> bool {
    &&& 0 < v.significand < 0x20_0000_0000_0000
    &&& -1074 <= v.exponent <= 971
}

/// `10^max(k, 0)`.
pub open spec fn pos10(k: int) -> nat {
    if k >= 0 {
        pow10(k as nat)
    } else {
        1
    }
}

/// `10^max(-k, 0)`.
pub open spec fn neg10(k: int) -> nat {
    if k < 0 {
        pow10((-k) as nat)
    } else {
        1
    }
}

/// The numerator of `|x| / 10^k` as a fraction of natural numbers.
pub open spec fn scaled_num(v: Split, k: int) -> nat {
    v.significand as nat * pow2(if v.exponent >= 0 { v.exponent as nat } else { 0 }) * neg10(k)
}

/// The denominator of `|x| / 10^k`.
pub open spec fn scaled_den(v: Split, k: int) -> nat {
    pow2(if v.exponent < 0 { (-v.exponent) as nat } else { 0 }) * pos10(k)
}

/// Decomposes the magnitude a bit pattern denotes. `None` for zero and for the
/// non-finite values.
pub fn split(bits: u64) -> (r: Option<Split>)
    ensures
        r == split_of(bits),
        r matches Some(v) ==> split_ok(v),
{
    let biased = (bits / 0x10_0000_0000_0000) % 2048;
    let fraction = bits % 0x10_0000_0000_0000;
    if biased == 2047 || (biased == 0 && fraction == 0) {
        return None;
    }
    if biased == 0 {
        Some(Split { significand: fraction, exponent: -1074 })
    } else {
        Some(Split { significand: fraction + 0x10_0000_0000_0000, exponent: biased as i32 - 1075 })
    }
}

pub proof fn lemma_pow10_pos(k: nat)
    ensures
        pow10(k) >= 1,
    decreases k,
{
    if k > 0 {
        lemma_pow10_pos((k - 1) as nat);
    }
}

proof fn lemma_pow2_le_pow10(k: nat)
    ensures
        pow2(k) <= pow10(k),
    decreases k,
{
    if k > 0 {
        lemma_pow2_le_pow10((k - 1) as nat);
        vstd::arithmetic::power2::lemma_pow2_unfold(k);
    } else {
        vstd::arithmetic::power2::lemma2_to64();
    }
}

/// `10^(y - x)` relates the two scalings: `10^-x * 10^y == 10^-y * 10^x * 10^(y-x)`
/// in split form.
proof fn lemma_shift10(x: int, y: int)
    requires
        x <= y,
    ensures
        neg10(x) * pos10(y) == neg10(y) * pos10(x) * pow10((y - x) as nat),
{
    let d = (y - x) as nat;
    if x >= 0 {
        lemma_pow10_add(x as nat, d);
        assert(x as nat + d == y as nat);
        assert(neg10(x) == 1 && neg10(y) == 1);
        assert(pos10(y) == pow10(x as nat) * pow10(d));
        assert(neg10(x) * pos10(y) == neg10(y) * pos10(x) * pow10(d)) by (nonlinear_arith)
            requires
                neg10(x) == 1,
                neg10(y) == 1,
                pos10(y) == pos10(x) * pow10(d),
        ;
    } else if y >= 0 {
        let a = (-x) as nat;
        let b = y as nat;
        lemma_pow10_add(a, b);
        assert(a + b == d);
        assert(pow10(a) * pow10(b) == pow10(d));
        assert(neg10(x) == pow10(a) && pos10(y) == pow10(b));
        assert(neg10(y) == 1 && pos10(x) == 1);
        assert(neg10(x) * pos10(y) == pow10(d));
        assert(neg10(y) * pos10(x) * pow10(d) == pow10(d)) by (nonlinear_arith)
            requires
                neg10(y) == 1,
                pos10(x) == 1,
        ;
    } else {
        lemma_pow10_add((-y) as nat, d);
        assert((-y) as nat + d == (-x) as nat);
        assert(pos10(y) == 1 && pos10(x) == 1);
        assert(neg10(x) * pos10(y) == neg10(y) * pos10(x) * pow10(d)) by (nonlinear_arith)
            requires
                pos10(y) == 1,
                pos10(x) == 1,
                neg10(x) == pow10((-y) as nat) * pow10(d),
                neg10(y) == pow10((-y) as nat),
        ;
    }
}

/// One step down in the scaling: multiplying the numerator side by ten.
proof fn lemma_track_down(r: nat, s: nat, v: Split, e: int)
    requires
        r * scaled_den(v, e) == s * scaled_num(v, e),
    ensures
        (10 * r) * scaled_den(v, e - 1) == s * scaled_num(v, e - 1),
{
    lemma_shift10(e - 1, e);
    reveal_with_fuel(pow10, 2);
    let a = pow2(if v.exponent < 0 { (-v.exponent) as nat } else { 0 });
    let b = v.significand as nat * pow2(if v.exponent >= 0 { v.exponent as nat } else { 0 });
    assert(neg10(e - 1) * pos10(e) == neg10(e) * pos10(e - 1) * 10);
    if e > 0 {
        assert(neg10(e - 1) == 1 && neg10(e) == 1);
        assert((10 * r) * (a * pos10(e - 1)) == r * (a * pos10(e))) by (nonlinear_arith)
            requires
                pos10(e) == pos10(e - 1) * 10,
        ;
    } else {
        assert(pos10(e - 1) == 1 && pos10(e) == 1);
        assert(s * (b * neg10(e - 1)) == 10 * (s * (b * neg10(e)))) by (nonlinear_arith)
            requires
                neg10(e - 1) == neg10(e) * 10,
        ;
        assert((10 * r) * (a * 1) == 10 * (r * (a * 1))) by (nonlinear_arith);
    }
}

/// One step up in the scaling: multiplying the denominator side by ten.
proof fn lemma_track_up(r: nat, s: nat, v: Split, e: int)
    requires
        r * scaled_den(v, e) == s * scaled_num(v, e),
    ensures
        r * scaled_den(v, e + 1) == (10 * s) * scaled_num(v, e + 1),
{
    lemma_shift10(e, e + 1);
    reveal_with_fuel(pow10, 2);
    let a = pow2(if v.exponent < 0 { (-v.exponent) as nat } else { 0 });
    let b = v.significand as nat * pow2(if v.exponent >= 0 { v.exponent as nat } else { 0 });
    assert(neg10(e) * pos10(e + 1) == neg10(e + 1) * pos10(e) * 10);
    if e >= 0 {
        assert(neg10(e + 1) == 1 && neg10(e) == 1);
        assert(r * (a * pos10(e + 1)) == 10 * (r * (a * pos10(e)))) by (nonlinear_arith)
            requires
                pos10(e + 1) == pos10(e) * 10,
        ;
        assert((10 * s) * (b * 1) == 10 * (s * (b * 1))) by (nonlinear_arith);
    } else {
        assert(pos10(e + 1) == 1 && pos10(e) == 1);
        assert((10 * s) * (b * neg10(e + 1)) == s * (b * neg10(e))) by (nonlinear_arith)
            requires
                neg10(e) == neg10(e + 1) * 10,
        ;
    }
}


/// Scaling the starting fraction `|x| / 1` to `|x| / 10^e`.
proof fn lemma_track_init(r: nat, s: nat, v: Split, e: int)
    requires
        r * scaled_den(v, 0) == s * scaled_num(v, 0),
    ensures
        e >= 0 ==> r * scaled_den(v, e) == (s * pow10(e as nat)) * scaled_num(v, e),
        e < 0 ==> (r * pow10((-e) as nat)) * scaled_den(v, e) == s * scaled_num(v, e),
{
    let a = pow2(if v.exponent < 0 { (-v.exponent) as nat } else { 0 });
    let b = v.significand as nat * pow2(if v.exponent >= 0 { v.exponent as nat } else { 0 });
    reveal_with_fuel(pow10, 1);
    assert(pos10(0) == 1 && neg10(0) == 1);
    assert(r * a == s * b) by (nonlinear_arith)
        requires
            r * (a * 1) == s * (b * 1),
    ;
    if e >= 0 {
        let p = pow10(e as nat);
        assert(r * (a * p) == (s * p) * (b * 1)) by (nonlinear_arith)
            requires
                r * a == s * b,
        ;
    } else {
        let p = pow10((-e) as nat);
        assert((r * p) * (a * 1) == s * (b * p)) by (nonlinear_arith)
            requires
                r * a == s * b,
        ;
    }
}

/// The value of an exact window: `n` digits `d` with the leading one in place
/// `e`, so that `d * 10^(e - n + 1) <= |x| < (d + 1) * 10^(e - n + 1)`, its leading
/// digit non-zero, and `half` the comparison of the discarded remainder with half
/// a unit of the last digit.
pub open spec fn is_window(v: Split, d: Seq<u8>, e: int, half: Half) -> bool {
    let k = e - d.len() + 1;
    let num = scaled_num(v, k);
    let den = scaled_den(v, k);
    let n = run_value(d);
    &&& d.len() >= 1
    &&& is_digit_run(d)
    &&& pow10((d.len() - 1) as nat) <= n
    &&& n * den <= num
    &&& num < (n + 1) * den
    &&& half == half_of(compare_values((2 * (num - n * den)) as nat, den))
}

proof fn lemma_scaled_pos(v: Split, k: int)
    requires
        split_ok(v),
    ensures
        scaled_num(v, k) > 0,
        scaled_den(v, k) > 0,
{
    let ea: nat = if v.exponent < 0 { (-v.exponent) as nat } else { 0 };
    let eb: nat = if v.exponent >= 0 { v.exponent as nat } else { 0 };
    vstd::arithmetic::power2::lemma_pow2_pos(ea);
    vstd::arithmetic::power2::lemma_pow2_pos(eb);
    if k >= 0 {
        lemma_pow10_pos(k as nat);
    } else {
        lemma_pow10_pos((-k) as nat);
    }
    let a = pow2(ea);
    let b = v.significand as nat * pow2(eb);
    assert(b > 0) by (nonlinear_arith)
        requires
            v.significand > 0,
            pow2(eb) > 0,
            b == v.significand as nat * pow2(eb),
    ;
    assert(b * neg10(k) > 0) by (nonlinear_arith)
        requires
            b > 0,
            neg10(k) > 0,
    ;
    assert(a * pos10(k) > 0) by (nonlinear_arith)
        requires
            a > 0,
            pos10(k) > 0,
    ;
}

/// What long division from a tracked fraction `r0 / s0 == |x| / 10^e` leaves after
/// `n` digits is exactly a window whose leading digit sits at place `e`.
proof fn lemma_window(v: Split, r0: nat, s0: nat, e: int, d: Seq<u8>, rest: nat, half: Half)
    requires
        split_ok(v),
        s0 > 0,
        s0 <= r0,
        r0 * scaled_den(v, e) == s0 * scaled_num(v, e),
        d.len() >= 1,
        is_digit_run(d),
        run_value(d) * s0 + rest == r0 * pow10((d.len() - 1) as nat),
        rest < s0,
        half == half_of(compare_values(2 * rest, s0)),
    ensures
        is_window(v, d, e, half),
{
    let m = (d.len() - 1) as nat;
    let k = e - m;
    let n = run_value(d);
    let p = pow10(m);
    lemma_pow10_pos(m);
    lemma_scaled_pos(v, k);
    lemma_scaled_pos(v, e);
    assert(e - d.len() + 1 == k);
    let numk = scaled_num(v, k);
    let denk = scaled_den(v, k);
    let nume = scaled_num(v, e);
    let dene = scaled_den(v, e);
    let a = pow2(if v.exponent < 0 { (-v.exponent) as nat } else { 0 });
    let b = v.significand as nat * pow2(if v.exponent >= 0 { v.exponent as nat } else { 0 });
    lemma_shift10(k, e);
    assert(e - k == m);
    // `|x| / 10^k` is `10^m` times `|x| / 10^e`.
    assert(numk * dene == nume * denk * p) by (nonlinear_arith)
        requires
            numk == b * neg10(k),
            denk == a * pos10(k),
            nume == b * neg10(e),
            dene == a * pos10(e),
            neg10(k) * pos10(e) == neg10(e) * pos10(k) * p,
    ;
    assert(numk * s0 * dene == (n * s0 + rest) * denk * dene) by (nonlinear_arith)
        requires
            numk * dene == nume * denk * p,
            r0 * dene == s0 * nume,
            n * s0 + rest == r0 * p,
    ;
    assert(numk * s0 == (n * s0 + rest) * denk) by (nonlinear_arith)
        requires
            numk * s0 * dene == (n * s0 + rest) * denk * dene,
            dene > 0,
    ;
    assert(n * denk <= numk) by (nonlinear_arith)
        requires
            numk * s0 == (n * s0 + rest) * denk,
            s0 > 0,
            denk > 0,
    ;
    assert(numk < (n + 1) * denk) by (nonlinear_arith)
        requires
            numk * s0 == (n * s0 + rest) * denk,
            rest < s0,
            s0 > 0,
            denk > 0,
    ;
    let x = (numk - n * denk) as nat;
    assert(x * s0 == rest * denk) by (nonlinear_arith)
        requires
            numk * s0 == (n * s0 + rest) * denk,
            x == numk - n * denk,
    ;
    assert(compare_values(2 * x, denk) == compare_values(2 * rest, s0)) by (nonlinear_arith)
        requires
            x * s0 == rest * denk,
            s0 > 0,
            denk > 0,
    ;
    assert(p <= n) by (nonlinear_arith)
        requires
            n * s0 + rest == r0 * p,
            s0 <= r0,
            rest < s0,
            s0 > 0,
    ;
}

// ---------------------------------------------------------------------------
// Digit generation
// ---------------------------------------------------------------------------

/// `floor(r / s)` for `r < 10 * s`, leaving the remainder in `r`.
fn next_digit(r: &mut BigNat, s: &BigNat) -> (digit: u8)
    requires
        old(r).wf(),
        s.wf(),
        s@ > 0,
        old(r)@ < 10 * s@,
    ensures
        final(r).wf(),
        digit < 10,
        digit * s@ + final(r)@ == old(r)@,
        final(r)@ < s@,
{
    let mut digit: u8 = 0;
    while digit < 9 && r.compare(s) != Comparison::Less
        invariant
            r.wf(),
            s.wf(),
            s@ > 0,
            digit <= 9,
            digit * s@ + r@ == old(r)@,
            old(r)@ < 10 * s@,
        decreases 9 - digit,
    {
        let ghost before = r@;
        r.sub_assign(s);
        proof {
            assert((digit + 1) * s@ + r@ == digit * s@ + before) by (nonlinear_arith)
                requires
                    r@ == before - s@,
            ;
        }
        digit = digit + 1;
    }
    proof {
        if digit == 9 {
            assert(r@ < s@);
        }
    }
    digit
}

/// Long division of `|x|` by successive powers of ten, in exact integer
/// arithmetic: `r / s` is `|x| / 10^exponent` and lies in `[1, 10)` once built.
struct Generator {
    r: BigNat,
    s: BigNat,
    scratch: BigNat,
    exponent: i32,
}

impl Generator {
    spec fn wf(&self) -> bool {
        &&& self.r.wf()
        &&& self.s.wf()
        &&& self.scratch.wf()
        &&& self.s@ > 0
        &&& self.r@ < 10 * self.s@
    }

    spec fn tracks(&self, v: Split) -> bool {
        self.r@ * scaled_den(v, self.exponent as int) == self.s@ * scaled_num(
            v,
            self.exponent as int,
        )
    }

    fn new(value: Split) -> (g: Result<Generator, FormatError>)
        requires
            split_ok(value),
        ensures
            match g {
                Ok(g) => g.wf() && g.s@ <= g.r@ && g.tracks(value) && -10000 <= g.exponent
                    <= 10000,
                Err(e) => e == FormatError::AllocationFailed,
            },
    {
        proof {
            vstd::arithmetic::power2::lemma2_to64();
        }
        let (mut r, mut s) = if value.exponent >= 0 {
            let r = BigNat::try_from_u64_shl(value.significand, value.exponent as u32)?;
            let s = BigNat::try_from_u64_shl(1, 0)?;
            (r, s)
        } else {
            let r = BigNat::try_from_u64_shl(value.significand, 0)?;
            let s = BigNat::try_pow2((-value.exponent) as u32)?;
            (r, s)
        };
        proof {
            let a = pow2(if value.exponent < 0 { (-value.exponent) as nat } else { 0 });
            let b = value.significand as nat * pow2(
                if value.exponent >= 0 { value.exponent as nat } else { 0 },
            );
            reveal_with_fuel(pow10, 1);
            vstd::arithmetic::power2::lemma_pow2_pos(
                if value.exponent < 0 { (-value.exponent) as nat } else { 0 },
            );
            if value.exponent >= 0 {
                vstd::arithmetic::power2::lemma_pow2_pos(value.exponent as nat);
            }
            if value.exponent >= 0 {
                assert(r@ * (1 * 1) == 1 * (b * 1)) by (nonlinear_arith)
                    requires
                        r@ == value.significand * pow2(value.exponent as nat),
                        b == value.significand as nat * pow2(value.exponent as nat),
                ;
            } else {
                assert(r@ * (a * 1) == s@ * (b * 1)) by (nonlinear_arith)
                    requires
                        r@ == value.significand * 1,
                        b == value.significand as nat * 1,
                        s@ == a,
                ;
            }
            assert(r@ > 0) by (nonlinear_arith)
                requires
                    value.significand > 0,
                    value.exponent >= 0 ==> r@ == value.significand * pow2(value.exponent as nat),
                    value.exponent >= 0 ==> pow2(value.exponent as nat) > 0,
                    value.exponent < 0 ==> r@ == value.significand * 1,
            ;
            vstd::arithmetic::power2::lemma_pow2_pos((-value.exponent) as nat);
        }

        // Seed with the binary exponent, then correct by exact comparison. The seed
        // only decides how many correcting steps run.
        let mut bits: i32 = 0;
        let mut m: u64 = value.significand;
        proof {
            vstd::arithmetic::power2::lemma2_to64_rest();
        }
        while m > 0
            invariant
                0 <= bits <= 53,
                m < pow2((53 - bits) as nat),
            decreases m,
        {
            proof {
                vstd::arithmetic::power2::lemma2_to64();
                assert(bits < 53);
                vstd::arithmetic::power2::lemma_pow2_unfold((53 - bits) as nat);
            }
            m = m / 2;
            bits = bits + 1;
        }
        let k: i32 = bits + value.exponent - 1;
        let mut exponent: i32 = if k >= 0 {
            k * 1233 / 4096
        } else {
            -((-k * 1233 + 4095) / 4096)
        };
        assert(-400 <= exponent <= 400) by (nonlinear_arith)
            requires
                -1100 <= k <= 1100,
                k >= 0 ==> exponent == k * 1233 / 4096,
                k < 0 ==> exponent == -((-k * 1233 + 4095) / 4096),
        ;
        proof {
            lemma_track_init(r@, s@, value, exponent as int);
        }
        let ghost old_r = r@;
        let ghost old_s = s@;
        if exponent >= 0 {
            s.try_mul_pow10(exponent as u32)?;
        } else {
            r.try_mul_pow10((-exponent) as u32)?;
        }
        proof {
            lemma_pow10_pos(if exponent >= 0 { exponent as nat } else { (-exponent) as nat });
            assert(s@ > 0 && r@ > 0) by (nonlinear_arith)
                requires
                    exponent >= 0 ==> s@ == old_s * pow10(exponent as nat),
                    exponent < 0 ==> r@ == old_r * pow10((-exponent) as nat),
                    exponent >= 0 ==> r@ == old_r,
                    exponent < 0 ==> s@ == old_s,
                    old_s > 0,
                    old_r > 0,
                    pow10(if exponent >= 0 { exponent as nat } else { (-exponent) as nat }) > 0,
            ;
        }
        let ghost e0 = exponent;
        proof {
            lemma_pow10_pos(0);
        }
        while r.compare(&s) == Comparison::Less
            invariant
                r.wf(),
                s.wf(),
                s@ > 0,
                r@ > 0,
                -400 <= e0 <= 400,
                exponent <= e0,
                e0 - 8192 <= exponent,
                r@ >= pow10((e0 - exponent) as nat),
                r@ * scaled_den(value, exponent as int) == s@ * scaled_num(value, exponent as int),
            decreases if r@ < s@ {
                s@ - r@
            } else {
                0
            },
        {
            let ghost before = r@;
            r.try_mul_small(10)?;
            proof {
                lemma_track_down(before, s@, value, exponent as int);
                let j = (e0 - exponent + 1) as nat;
                assert(pow10(j) == 10 * pow10((e0 - exponent) as nat));
                lemma_pow2_le_pow10(j);
                r.lemma_wf_bound();
                if j >= 8192 {
                    if j > 8192 {
                        vstd::arithmetic::power2::lemma_pow2_strictly_increases(8192, j);
                    }
                    assert(false);
                }
            }
            exponent = exponent - 1;
        }
        let mut scratch = BigNat::zero();
        let ghost e1 = exponent;
        loop
            invariant
                r.wf(),
                s.wf(),
                scratch.wf(),
                s@ > 0,
                s@ <= r@,
                -400 <= e0,
                e0 - 8192 <= e1 <= e0 <= 400,
                e1 <= exponent,
                exponent <= e1 + 8192,
                s@ >= pow10((exponent - e1) as nat),
                r@ * scaled_den(value, exponent as int) == s@ * scaled_num(value, exponent as int),
            ensures
                r.wf(),
                s.wf(),
                scratch.wf(),
                s@ > 0,
                s@ <= r@,
                r@ < 10 * s@,
                -10000 <= exponent <= 10000,
                r@ * scaled_den(value, exponent as int) == s@ * scaled_num(value, exponent as int),
            decreases r@ - s@,
        {
            scratch.try_clone_from(&s)?;
            scratch.try_mul_small(10)?;
            if r.compare(&scratch) == Comparison::Less {
                break;
            }
            proof {
                lemma_track_up(r@, s@, value, exponent as int);
                let j = (exponent - e1 + 1) as nat;
                assert(pow10(j) == 10 * pow10((exponent - e1) as nat));
                lemma_pow2_le_pow10(j);
                scratch.lemma_wf_bound();
                if j >= 8192 {
                    if j > 8192 {
                        vstd::arithmetic::power2::lemma_pow2_strictly_increases(8192, j);
                    }
                    assert(false);
                }
            }
            core::mem::swap(&mut s, &mut scratch);
            exponent = exponent + 1;
        }
        Ok(Generator { r, s, scratch, exponent })
    }

    /// Takes `count` digits, most significant first, and reports the exact
    /// remainder's relation to one half of the last one's unit.
    fn take(&mut self, count: usize, limits: &FormatLimits) -> (res: Result<
        (Vec<u8>, Half),
        FormatError,
    >)
        requires
            old(self).wf(),
            count >= 1,
        ensures
            count > limits.max_output_bytes ==> res == Err::<(Vec<u8>, Half), FormatError>(
                FormatError::OutputLimit { requested: count, maximum: limits.max_output_bytes },
            ),
            match res {
                Ok((digits, half)) => {
                    &&& final(self).wf()
                    &&& final(self).s@ == old(self).s@
                    &&& final(self).exponent == old(self).exponent
                    &&& digits@.len() == count
                    &&& is_digit_run(digits@)
                    &&& run_value(digits@) * old(self).s@ + final(self).r@ == old(self).r@ * pow10(
                        (count - 1) as nat,
                    )
                    &&& final(self).r@ < old(self).s@
                    &&& half == half_of(compare_values(2 * final(self).r@, old(self).s@))
                },
                Err(e) => e == FormatError::AllocationFailed || (count > limits.max_output_bytes
                    && e == FormatError::OutputLimit {
                    requested: count,
                    maximum: limits.max_output_bytes,
                }),
            },
    {
        let mut digits = digit_vec(count, limits)?;
        let ghost r0 = self.r@;
        let ghost s0 = self.s@;
        let d0 = next_digit(&mut self.r, &self.s);
        digits.push(d0);
        proof {
            reveal_with_fuel(run_value, 2);
            assert(digits@.drop_last() =~= Seq::<u8>::empty());
            assert(pow10(0) == 1);
            assert(run_value(digits@) == d0);
            assert(run_value(digits@) * s0 + self.r@ == r0 * pow10(0)) by (nonlinear_arith)
                requires
                    run_value(digits@) == d0,
                    d0 * s0 + self.r@ == r0,
                    pow10(0) == 1,
            ;
        }
        let mut index: usize = 1;
        while index < count
            invariant
                1 <= index <= count,
                count <= limits.max_output_bytes,
                r0 == old(self).r@,
                s0 == old(self).s@,
                digits@.len() == index,
                is_digit_run(digits@),
                self.r.wf(),
                self.s.wf(),
                self.scratch.wf(),
                self.s@ == s0,
                s0 > 0,
                self.r@ < s0,
                self.exponent == old(self).exponent,
                run_value(digits@) * s0 + self.r@ == r0 * pow10((index - 1) as nat),
            decreases count - index,
        {
            if self.r.is_zero() {
                let ghost head = digits@;
                while digits.len() < count
                    invariant
                        index <= digits@.len() <= count,
                        digits@ == head + zero_run((digits@.len() - index) as nat),
                        head.len() == index,
                    decreases count - digits@.len(),
                {
                    let ghost j = (digits@.len() - index) as nat;
                    digits.push(0);
                    assert(digits@ =~= head + zero_run(j + 1));
                }
                proof {
                    let z = zero_run((count - index) as nat);
                    lemma_run_value_concat(head, z);
                    lemma_zero_run_value(z.len());
                    lemma_pow10_add((index - 1) as nat, (count - index) as nat);
                    assert((index - 1) as nat + (count - index) as nat == (count - 1) as nat);
                    assert(run_value(digits@) * s0 + 0 == r0 * pow10((count - 1) as nat))
                        by (nonlinear_arith)
                        requires
                            run_value(digits@) == run_value(head) * pow10(z.len()) + 0,
                            run_value(head) * s0 + 0 == r0 * pow10((index - 1) as nat),
                            pow10((count - 1) as nat) == pow10((index - 1) as nat) * pow10(
                                z.len(),
                            ),
                    ;
                    assert(is_digit_run(digits@)) by {
                        assert forall|i: int| 0 <= i < digits@.len() implies #[trigger] digits@[i]
                            < 10 by {
                            if i < index {
                                assert(digits@[i] == head[i]);
                            }
                        }
                    }
                }
                return Ok((digits, Half::Below));
            }
            let ghost before_r = self.r@;
            let ghost before_d = digits@;
            self.r.try_mul_small(10)?;
            let d = next_digit(&mut self.r, &self.s);
            digits.push(d);
            proof {
                assert(digits@.drop_last() =~= before_d);
                assert(pow10(index as nat) == 10 * pow10((index - 1) as nat));
                assert(run_value(digits@) * s0 + self.r@ == r0 * pow10(index as nat))
                    by (nonlinear_arith)
                    requires
                        run_value(digits@) == run_value(before_d) * 10 + d,
                        d * s0 + self.r@ == 10 * before_r,
                        run_value(before_d) * s0 + before_r == r0 * pow10((index - 1) as nat),
                        pow10(index as nat) == 10 * pow10((index - 1) as nat),
                ;
                assert(is_digit_run(digits@)) by {
                    assert forall|i: int| 0 <= i < digits@.len() implies #[trigger] digits@[i]
                        < 10 by {
                        if i < index {
                            assert(digits@[i] == before_d[i]);
                        }
                    }
                }
            }
            index = index + 1;
        }
        let half = self.half_against(1)?;
        Ok((digits, half))
    }

    /// The remainder's relation to one half when no digit is retained at all and
    /// the leading digit sits one place below the last retained position.
    fn half_before_first_digit(&mut self) -> (res: Result<Half, FormatError>)
        requires
            old(self).wf(),
        ensures
            match res {
                Ok(h) => final(self).wf() && final(self).r@ == old(self).r@ && final(self).s@
                    == old(self).s@ && h == half_of(
                    compare_values(2 * old(self).r@, 10 * old(self).s@),
                ),
                Err(e) => e == FormatError::AllocationFailed,
            },
    {
        self.half_against(10)
    }

    /// Compares `2 * r` with `factor * s`.
    fn half_against(&mut self, factor: u32) -> (res: Result<Half, FormatError>)
        requires
            old(self).wf(),
        ensures
            match res {
                Ok(h) => {
                    &&& final(self).wf()
                    &&& final(self).r == old(self).r
                    &&& final(self).s == old(self).s
                    &&& final(self).exponent == old(self).exponent
                    &&& h == half_of(compare_values(2 * old(self).r@, (factor as nat) * old(self).s@))
                },
                Err(e) => e == FormatError::AllocationFailed,
            },
    {
        self.scratch.try_clone_from(&self.r)?;
        self.scratch.try_mul_small(2)?;
        let mut bound = BigNat::zero();
        bound.try_clone_from(&self.s)?;
        bound.try_mul_small(factor)?;
        let c = self.scratch.compare(&bound);
        proof {
            assert(2 * self.r@ == self.r@ * 2);
            assert((factor as nat) * self.s@ == self.s@ * factor);
        }
        Ok(
            match c {
                Comparison::Less => Half::Below,
                Comparison::Equal => Half::Exact,
                Comparison::Greater => Half::Above,
            },
        )
    }
}


// ---------------------------------------------------------------------------
// Rendering
// ---------------------------------------------------------------------------

/// The characters a digit run spells.
pub open spec fn digit_chars(d: Seq<u8>) -> Seq<char> {
    Seq::new(d.len(), |i: int| digit_char(d[i] as nat))
}

/// `|e|`.
pub open spec fn abs_int(e: int) -> nat {
    if e < 0 {
        (-e) as nat
    } else {
        e as nat
    }
}

pub open spec fn nan_text() -> Seq<char> {
    seq!['N', 'a', 'N']
}

pub open spec fn infinity_text() -> Seq<char> {
    seq!['I', 'n', 'f', 'i', 'n', 'i', 't', 'y']
}

/// `x < 0.0` for the double the bits spell: negative zero and NaN are not.
pub open spec fn is_negative_bits(bits: u64) -> bool {
    sign_bit(bits) && !is_zero_bits(bits) && !is_nan_bits(bits)
}

/// The minus sign a negative value is written with.
pub open spec fn sign_pieces(bits: u64) -> Seq<Piece> {
    if is_negative_bits(bits) {
        seq![Piece::Text(seq!['-'])]
    } else {
        Seq::empty()
    }
}

/// ECMAScript's exponential layout: one digit, an optional fraction, then `e`, an
/// explicit sign and the unpadded exponent.
pub open spec fn exponential_pieces(d: Seq<u8>, e: int) -> Seq<Piece> {
    seq![Piece::Text(digit_chars(d.take(1)))] + (if d.len() > 1 {
        seq![Piece::Text(seq!['.']), Piece::Text(digit_chars(d.skip(1)))]
    } else {
        Seq::empty()
    }) + seq![
        Piece::Text(if e < 0 { seq!['e', '-'] } else { seq!['e', '+'] }),
        Piece::Text(dec(abs_int(e))),
    ]
}

/// What rounding a window half away from zero gives: the digits unchanged below a
/// half, else one more, with a carry out of the top renormalized to a leading one
/// and the exponent raised.
pub open spec fn rounds_to(d: Seq<u8>, e: int, half: Half, d2: Seq<u8>, e2: int) -> bool {
    &&& d2.len() == d.len()
    &&& is_digit_run(d2)
    &&& if half == Half::Below {
        d2 == d && e2 == e
    } else if run_value(d) + 1 == pow10(d.len()) {
        d2 == leading_one(d.len()) && e2 == e + 1
    } else {
        run_value(d2) == run_value(d) + 1 && e2 == e
    }
}

/// The characters of a string outcome.
pub open spec fn text_of(res: Result<String, FormatError>) -> Result<Seq<char>, FormatError> {
    match res {
        Ok(s) => Ok(s@),
        Err(e) => Err(e),
    }
}

/// The outcome of a write that left `out` in the buffer.
pub open spec fn written(r: Result<(), FormatError>, out: Seq<char>) -> Result<Seq<char>, FormatError> {
    match r {
        Ok(()) => Ok(out),
        Err(e) => Err(e),
    }
}

/// `res` reports the outcome `out` of writing a run of pieces.
pub open spec fn reports(res: Result<String, FormatError>, out: Result<Seq<char>, FormatError>) -> bool {
    match res {
        Ok(s) => out == Ok::<Seq<char>, FormatError>(s@),
        Err(e) => out == Err::<Seq<char>, FormatError>(e),
    }
}

fn digit_text(d: &Vec<u8>, from: usize, to: usize) -> (v: Vec<char>)
    requires
        from <= to <= d@.len(),
        is_digit_run(d@),
    ensures
        v@ == digit_chars(d@.subrange(from as int, to as int)),
{
    let mut v: Vec<char> = Vec::new();
    let mut i = from;
    while i < to
        invariant
            from <= i <= to,
            to <= d@.len(),
            is_digit_run(d@),
            v@ == digit_chars(d@.subrange(from as int, i as int)),
        decreases to - i,
    {
        let c = char_of_digit(d[i] as u32);
        v.push(c);
        i = i + 1;
        assert(v@ =~= digit_chars(d@.subrange(from as int, i as int)));
    }
    v
}

fn text_part(chars: Vec<char>) -> (p: Part)
    ensures
        part_view(p) == Piece::Text(chars@),
{
    Part::Text(chars)
}

proof fn lemma_parts_push(ps: Seq<Part>, p: Part)
    ensures
        parts_view(ps.push(p)) == parts_view(ps).push(part_view(p)),
{
    assert(parts_view(ps.push(p)) =~= parts_view(ps).push(part_view(p)));
}

/// Appends the exponential layout of `d` and `e`.
fn push_exponential(parts: &mut Vec<Part>, d: &Vec<u8>, e: i32)
    requires
        d@.len() >= 1,
        is_digit_run(d@),
    ensures
        parts_view(final(parts)@) == parts_view(old(parts)@) + exponential_pieces(d@, e as int),
{
    let ghost start = parts_view(parts@);
    let first = digit_text(d, 0, 1);
    assert(d@.subrange(0, 1) =~= d@.take(1));
    push_part(parts, Part::Text(first));
    let ghost mid = parts_view(parts@);
    assert(mid == start + seq![Piece::Text(digit_chars(d@.take(1)))]);
    if d.len() > 1 {
        let rest = digit_text(d, 1, d.len());
        assert(d@.subrange(1, d@.len() as int) =~= d@.skip(1));
        let dot = vec!['.'];
        assert(dot@ =~= seq!['.']);
        push_part(parts, Part::Text(dot));
        push_part(parts, Part::Text(rest));
    }
    let ghost body = parts_view(parts@);
    assert(body == start + seq![Piece::Text(digit_chars(d@.take(1)))] + (if d@.len() > 1 {
        seq![Piece::Text(seq!['.']), Piece::Text(digit_chars(d@.skip(1)))]
    } else {
        Seq::empty()
    }));
    let sign = if e < 0 {
        vec!['e', '-']
    } else {
        vec!['e', '+']
    };
    assert(sign@ =~= if e < 0 { seq!['e', '-'] } else { seq!['e', '+'] });
    push_part(parts, Part::Text(sign));
    let mut magnitude: Vec<char> = Vec::new();
    let m: u64 = if e < 0 {
        (-(e as i64)) as u64
    } else {
        e as u64
    };
    push_decimal(&mut magnitude, m);
    assert(magnitude@ =~= dec(abs_int(e as int)));
    push_part(parts, Part::Text(magnitude));
    assert(parts_view(parts@) =~= start + exponential_pieces(d@, e as int));
}

fn push_part(parts: &mut Vec<Part>, p: Part)
    ensures
        parts_view(final(parts)@) == parts_view(old(parts)@).push(part_view(p)),
{
    proof {
        lemma_parts_push(parts@, p);
    }
    parts.push(p);
}


// ---------------------------------------------------------------------------
// Reading the bits
// ---------------------------------------------------------------------------

/// Whether the bits spell a NaN.
pub fn is_nan_exec(bits: u64) -> (b: bool)
    ensures
        b == is_nan_bits(bits),
{
    nan_bits(bits)
}

fn nan_bits(bits: u64) -> (b: bool)
    ensures
        b == is_nan_bits(bits),
{
    (bits / 0x10_0000_0000_0000) % 2048 == 2047 && bits % 0x10_0000_0000_0000 != 0
}

fn infinite_bits(bits: u64) -> (b: bool)
    ensures
        b == is_infinite_bits(bits),
{
    (bits / 0x10_0000_0000_0000) % 2048 == 2047 && bits % 0x10_0000_0000_0000 == 0
}

fn negative_bits(bits: u64) -> (b: bool)
    ensures
        b == is_negative_bits(bits),
{
    let zero = (bits / 0x10_0000_0000_0000) % 2048 == 0 && bits % 0x10_0000_0000_0000 == 0;
    bits >= 0x8000_0000_0000_0000 && !zero && !nan_bits(bits)
}

/// Writes one text under the byte limit.
fn write_one(out: &mut Vec<char>, text: Vec<char>, max: usize) -> (r: Result<(), FormatError>)
    requires
        utf8_len(old(out)@) <= usize::MAX,
    ensures
        match r {
            Ok(()) => run_pieces(old(out)@, seq![Piece::Text(text@)], max) == Ok::<
                Seq<char>,
                FormatError,
            >(final(out)@),
            Err(e) => run_pieces(old(out)@, seq![Piece::Text(text@)], max) == Err::<
                Seq<char>,
                FormatError,
            >(e),
        },
{
    let mut parts: Vec<Part> = Vec::new();
    push_part(&mut parts, Part::Text(text));
    assert(parts_view(parts@) =~= seq![Piece::Text(text@)]);
    run_parts_from(out, &parts, max)
}

/// Writes the minus sign of a negative value; the spec's `sign_pieces`.
fn write_sign(out: &mut Vec<char>, bits: u64, max: usize) -> (r: Result<(), FormatError>)
    requires
        old(out)@ == Seq::<char>::empty(),
    ensures
        match r {
            Ok(()) => run_pieces(Seq::empty(), sign_pieces(bits), max) == Ok::<
                Seq<char>,
                FormatError,
            >(final(out)@) && utf8_len(final(out)@) <= max,
            Err(e) => run_pieces(Seq::empty(), sign_pieces(bits), max) == Err::<
                Seq<char>,
                FormatError,
            >(e),
        },
{
    proof {
        reveal_with_fuel(utf8_len, 1);
        lemma_run_pieces_within(Seq::empty(), sign_pieces(bits), max);
    }
    if negative_bits(bits) {
        let minus = vec!['-'];
        assert(minus@ =~= seq!['-']);
        write_one(out, minus, max)
    } else {
        Ok(())
    }
}

fn nan_chars() -> (v: Vec<char>)
    ensures
        v@ == nan_text(),
{
    let v = vec!['N', 'a', 'N'];
    assert(v@ =~= nan_text());
    v
}

fn infinity_chars() -> (v: Vec<char>)
    ensures
        v@ == infinity_text(),
{
    let v = vec!['I', 'n', 'f', 'i', 'n', 'i', 't', 'y'];
    assert(v@ =~= infinity_text());
    v
}

// ---------------------------------------------------------------------------
// toPrecision and significant digits
// ---------------------------------------------------------------------------

/// The digits `count` asks for: at least one.
pub open spec fn window_len(count: u32) -> nat {
    if count == 0 {
        1
    } else {
        count as nat
    }
}

/// Exactly `count` significant digits of `|x|` (at least one), rounded half away
/// from zero... by the caller: this returns the exact window, the decimal place
/// value of its first digit, and how the discarded remainder compares with half
/// a unit. `None` when `x` is zero or not finite.
pub fn significant_digits(bits: u64, count: u32, limits: &FormatLimits) -> (res: Result<
    Option<(Vec<u8>, i32, Half)>,
    FormatError,
>)
    ensures
        split_of(bits) is None ==> res == Ok::<Option<(Vec<u8>, i32, Half)>, FormatError>(None),
        split_of(bits) is Some && window_len(count) > limits.max_output_bytes ==> res is Err,
        match res {
            Ok(Some((d, e, h))) => split_of(bits) is Some && d@.len() == window_len(count)
                && is_window(split_of(bits).unwrap(), d@, e as int, h),
            Ok(None) => split_of(bits) is None,
            Err(e) => split_of(bits) is Some && (e == FormatError::AllocationFailed || (
            window_len(count) > limits.max_output_bytes && e == FormatError::OutputLimit {
                requested: window_len(count) as usize,
                maximum: limits.max_output_bytes,
            })),
        },
{
    let value = match split(bits) {
        None => {
            return Ok(None);
        },
        Some(value) => value,
    };
    let mut generator = Generator::new(value)?;
    let ghost r0 = generator.r@;
    let ghost s0 = generator.s@;
    let ghost e0 = generator.exponent;
    let n: usize = if count == 0 {
        1
    } else {
        count as usize
    };
    let (digits, half) = generator.take(n, limits)?;
    proof {
        lemma_window(value, r0, s0, e0 as int, digits@, generator.r@, half);
    }
    Ok(Some((digits, generator.exponent, half)))
}

/// The layout `toPrecision` chooses for rounded digits `d` led by place `e`:
/// exponential outside `[1e-6, 10^n)`, else positional.
pub open spec fn precision_pieces(d: Seq<u8>, e: int) -> Seq<Piece> {
    let n = d.len() as int;
    if e < -6 || e >= n {
        exponential_pieces(d, e)
    } else if e == n - 1 {
        seq![Piece::Text(digit_chars(d))]
    } else if e >= 0 {
        seq![
            Piece::Text(digit_chars(d.take(e + 1))),
            Piece::Text(seq!['.']),
            Piece::Text(digit_chars(d.skip(e + 1))),
        ]
    } else {
        seq![
            Piece::Text(seq!['0', '.']),
            Piece::Fill('0', (-e - 1) as nat),
            Piece::Text(digit_chars(d)),
        ]
    }
}

/// What `toPrecision` reports: `NaN`; otherwise the sign, then `Infinity`, a
/// refused precision, the zero digits, or the exact window of `count` significant
/// digits rounded half away from zero.
pub open spec fn to_precision_outcome(
    bits: u64,
    precision: u32,
    max: usize,
    res: Result<String, FormatError>,
) -> bool {
    let count = window_len(precision);
    if is_nan_bits(bits) {
        reports(res, run_pieces(Seq::empty(), seq![Piece::Text(nan_text())], max))
    } else {
        match run_pieces(Seq::empty(), sign_pieces(bits), max) {
            Err(e) => res == Err::<String, FormatError>(e),
            Ok(pre) => if is_infinite_bits(bits) {
                reports(res, run_pieces(pre, seq![Piece::Text(infinity_text())], max))
            } else if precision as int >= max {
                res == Err::<String, FormatError>(
                    FormatError::OutputLimit { requested: precision as usize, maximum: max },
                )
            } else if is_zero_bits(bits) {
                reports(res, run_pieces(pre, precision_pieces(zero_run(count), 0), max))
            } else {
                res == Err::<String, FormatError>(FormatError::AllocationFailed) || exists|
                    d: Seq<u8>,
                    e: int,
                    h: Half,
                    d2: Seq<u8>,
                    e2: int,
                |
                    #![trigger is_window(split_of(bits).unwrap(), d, e, h), rounds_to(d, e, h, d2, e2)]
                    is_window(split_of(bits).unwrap(), d, e, h) && d.len() == count && rounds_to(
                        d,
                        e,
                        h,
                        d2,
                        e2,
                    ) && reports(res, run_pieces(pre, precision_pieces(d2, e2), max))
            },
        }
    }
}

/// Appends the `toPrecision` layout of `d` and `e`.
fn push_precision_layout(parts: &mut Vec<Part>, d: &Vec<u8>, e: i32)
    requires
        d@.len() >= 1,
        d@.len() <= usize::MAX,
        is_digit_run(d@),
    ensures
        parts_view(final(parts)@) == parts_view(old(parts)@) + precision_pieces(d@, e as int),
{
    let ghost start = parts_view(parts@);
    let n = d.len();
    if e < -6 || (e >= 0 && (e as usize) >= n) {
        push_exponential(parts, d, e);
    } else if e >= 0 && (e as usize) == n - 1 {
        let all = digit_text(d, 0, n);
        assert(d@.subrange(0, n as int) =~= d@);
        push_part(parts, Part::Text(all));
        assert(parts_view(parts@) =~= start + precision_pieces(d@, e as int));
    } else if e >= 0 {
        let whole = (e as usize) + 1;
        let head = digit_text(d, 0, whole);
        let tail = digit_text(d, whole, n);
        assert(d@.subrange(0, whole as int) =~= d@.take(e + 1));
        assert(d@.subrange(whole as int, n as int) =~= d@.skip(e + 1));
        let dot = vec!['.'];
        assert(dot@ =~= seq!['.']);
        push_part(parts, Part::Text(head));
        push_part(parts, Part::Text(dot));
        push_part(parts, Part::Text(tail));
        assert(parts_view(parts@) =~= start + precision_pieces(d@, e as int));
    } else {
        let lead = vec!['0', '.'];
        assert(lead@ =~= seq!['0', '.']);
        let all = digit_text(d, 0, n);
        assert(d@.subrange(0, n as int) =~= d@);
        push_part(parts, Part::Text(lead));
        push_part(parts, Part::Fill('0', (-e - 1) as usize));
        push_part(parts, Part::Text(all));
        assert(parts_view(parts@) =~= start + precision_pieces(d@, e as int));
    }
}

/// The window of `count` significant digits of a finite non-zero value, rounded
/// half away from zero, with the place value of its first digit.
fn rounded_window(value: Split, count: usize, limits: &FormatLimits) -> (res: Result<
    (Vec<u8>, i32),
    FormatError,
>)
    requires
        split_ok(value),
        1 <= count <= limits.max_output_bytes,
    ensures
        match res {
            Ok((d2, e2)) => -10001 <= e2 <= 10001 && exists|d: Seq<u8>, e: int, h: Half|
                #![trigger is_window(value, d, e, h)]
                is_window(value, d, e, h) && d.len() == count && rounds_to(
                    d,
                    e,
                    h,
                    d2@,
                    e2 as int,
                ),
            Err(e) => e == FormatError::AllocationFailed,
        },
{
    let mut generator = Generator::new(value)?;
    let ghost r0 = generator.r@;
    let ghost s0 = generator.s@;
    let ghost e0 = generator.exponent;
    let (mut digits, half) = generator.take(count, limits)?;
    let ghost window = digits@;
    proof {
        lemma_window(value, r0, s0, e0 as int, digits@, generator.r@, half);
    }
    let mut exponent = generator.exponent;
    if round_half_away(digits.as_mut_slice(), half) {
        exponent = exponent + 1;
    }
    proof {
        assert(rounds_to(window, e0 as int, half, digits@, exponent as int));
    }
    Ok((digits, exponent))
}

/// ECMAScript `Number.prototype.toPrecision` on the double `bits` spells.
///
/// Notation is chosen from the exponent *after* rounding, so a value that rounds
/// up across a power of ten switches to exponential form.
pub fn to_precision(bits: u64, precision: u32, limits: &FormatLimits) -> (res: Result<
    String,
    FormatError,
>)
    ensures
        to_precision_outcome(bits, precision, limits.max_output_bytes, res),
{
    let max = limits.max_output_bytes;
    let mut out: Vec<char> = Vec::new();
    proof {
        reveal_with_fuel(utf8_len, 1);
    }
    if nan_bits(bits) {
        write_one(&mut out, nan_chars(), max)?;
        return Ok(string_of(&out));
    }
    write_sign(&mut out, bits, max)?;
    let ghost pre = out@;
    if infinite_bits(bits) {
        write_one(&mut out, infinity_chars(), max)?;
        return Ok(string_of(&out));
    }
    check_precision(precision, limits)?;
    let count: usize = if precision == 0 {
        1
    } else {
        precision as usize
    };
    let (digits, exponent) = match split(bits) {
        None => (zero_digits(count, limits)?, 0i32),
        Some(value) => rounded_window(value, count, limits)?,
    };
    let mut parts: Vec<Part> = Vec::new();
    push_precision_layout(&mut parts, &digits, exponent);
    assert(parts_view(parts@) =~= precision_pieces(digits@, exponent as int));
    run_parts_from(&mut out, &parts, max)?;
    Ok(string_of(&out))
}


// ---------------------------------------------------------------------------
// Shortest round-tripping decimal
// ---------------------------------------------------------------------------

/// The longest shortest form the digit loop will produce; binary64 needs 17.
pub const MAX_SHORTEST_DIGITS: usize = 32;

/// The multiple of `|x|`'s half-gap below that the low margin tracks: the
/// predecessor is half as far at the bottom of a binade (unless it is subnormal).
pub open spec fn low_gap_factor(v: Split) -> nat {
    if v.significand == 0x10_0000_0000_0000 && v.exponent != -1074 {
        4
    } else {
        2
    }
}

/// `w * 10^q` reads back as `|x|`: it lies within half the gap to each
/// neighbouring double, the bound included when the significand is even (where
/// round-half-to-even lands on `x`).
pub open spec fn reads_back_at(v: Split, w: nat, q: int) -> bool {
    let num = scaled_num(v, q);
    let den = scaled_den(v, q);
    let f = v.significand as nat;
    if w * den >= num {
        let over = (w * den - num) as nat;
        if f % 2 == 0 {
            2 * f * over <= num
        } else {
            2 * f * over < num
        }
    } else {
        let under = (num - w * den) as nat;
        if f % 2 == 0 {
            low_gap_factor(v) * f * under <= num
        } else {
            low_gap_factor(v) * f * under < num
        }
    }
}

/// ECMAScript's choice of digits for `Number::toString`: a run of at most
/// [`MAX_SHORTEST_DIGITS`] decimal digits, led by a non-zero digit, whose value
/// placed with its first digit at `e` reads back as `|x|`; no decimal one place
/// coarser reads back (so no shorter run of digits does), and of the decimals on
/// its own grid that read back it is the nearest to `|x|`, the even one on a tie.
pub open spec fn is_shortest_form(v: Split, d: Seq<u8>, e: int) -> bool {
    &&& 1 <= d.len() <= MAX_SHORTEST_DIGITS
    &&& is_digit_run(d)
    &&& d[0] != 0
    &&& -20000 <= e <= 20000
    &&& reads_back_at(v, run_value(d), e - d.len() + 1)
    &&& none_reads_back_at(v, e - d.len() + 2)
    &&& nearest_at(v, run_value(d), e - d.len() + 1)
}

/// Reading back does not depend on how the value is written:
/// `w * 10^j` at place `q` is `w` at place `q + j`.
proof fn lemma_reads_back_shift(v: Split, w: nat, q: int, j: nat)
    requires
        split_ok(v),
    ensures
        reads_back_at(v, w * pow10(j), q) == reads_back_at(v, w, q + j),
{
    lemma_scaled_pos(v, q);
    lemma_scaled_pos(v, q + j);
    lemma_shift10(q, q + j);
    lemma_pow10_pos(j);
    let a = pow2(if v.exponent < 0 { (-v.exponent) as nat } else { 0 });
    let b = v.significand as nat * pow2(if v.exponent >= 0 { v.exponent as nat } else { 0 });
    let p = pow10(j);
    let num1 = scaled_num(v, q);
    let den1 = scaled_den(v, q);
    let num2 = scaled_num(v, q + j);
    let den2 = scaled_den(v, q + j);
    let n1 = neg10(q);
    let n2 = neg10(q + j);
    assert((q + j - q) as nat == j);
    assert(n1 > 0 && n2 > 0) by {
        if q < 0 {
            lemma_pow10_pos((-q) as nat);
        }
        if q + j < 0 {
            lemma_pow10_pos((-(q + j)) as nat);
        }
    }
    // Both comparisons are the same comparison, scaled by `n1` and `n2`.
    assert(den1 * n2 * p == den2 * n1) by (nonlinear_arith)
        requires
            den1 == a * pos10(q),
            den2 == a * pos10(q + j),
            n1 * pos10(q + j) == n2 * pos10(q) * p,
    ;
    assert((w * p) * den1 * n2 == w * (den1 * n2 * p)) by (nonlinear_arith);
    assert(w * den2 * n1 == w * (den2 * n1)) by (nonlinear_arith);
    assert(num1 * n2 == num2 * n1) by (nonlinear_arith)
        requires
            num1 == b * n1,
            num2 == b * n2,
    ;
    let f = v.significand as nat;
    let g = low_gap_factor(v);
    let x1 = (w * p) * den1;
    let x2 = w * den2;
    assert(x1 >= num1 <==> x2 >= num2) by (nonlinear_arith)
        requires
            x1 * n2 == x2 * n1,
            num1 * n2 == num2 * n1,
            n1 > 0,
            n2 > 0,
    ;
    if x1 >= num1 {
        let o1 = (x1 - num1) as nat;
        let o2 = (x2 - num2) as nat;
        assert(o1 * n2 == o2 * n1) by (nonlinear_arith)
            requires
                x1 * n2 == x2 * n1,
                num1 * n2 == num2 * n1,
                o1 == x1 - num1,
                o2 == x2 - num2,
        ;
        assert((2 * f * o1 <= num1 <==> 2 * f * o2 <= num2) && (2 * f * o1 < num1 <==> 2 * f * o2
            < num2)) by (nonlinear_arith)
            requires
                o1 * n2 == o2 * n1,
                num1 * n2 == num2 * n1,
                n1 > 0,
                n2 > 0,
        ;
    } else {
        let u1 = (num1 - x1) as nat;
        let u2 = (num2 - x2) as nat;
        assert(u1 * n2 == u2 * n1) by (nonlinear_arith)
            requires
                x1 * n2 == x2 * n1,
                num1 * n2 == num2 * n1,
                u1 == num1 - x1,
                u2 == num2 - x2,
        ;
        assert((g * f * u1 <= num1 <==> g * f * u2 <= num2) && (g * f * u1 < num1 <==> g * f * u2
            < num2)) by (nonlinear_arith)
            requires
                u1 * n2 == u2 * n1,
                num1 * n2 == num2 * n1,
                n1 > 0,
                n2 > 0,
        ;
    }
}

/// Zero never reads back as a non-zero double.
proof fn lemma_reads_back_positive(v: Split, w: nat, q: int)
    requires
        split_ok(v),
        reads_back_at(v, w, q),
    ensures
        w > 0,
{
    lemma_scaled_pos(v, q);
    if w == 0 {
        let num = scaled_num(v, q);
        let f = v.significand as nat;
        let g = low_gap_factor(v);
        assert(0 * scaled_den(v, q) == 0);
        assert(g * f * num > num) by (nonlinear_arith)
            requires
                g >= 2,
                f >= 1,
                num > 0,
        ;
    }
}

/// Stopping low: the digits so far, `d` at place `q`, are within the low margin.
proof fn lemma_reads_back_low(v: Split, full: nat, s: nat, d: nat, r: nat, minus: nat, q: int)
    requires
        split_ok(v),
        s > 0,
        full * scaled_den(v, q) == s * scaled_num(v, q),
        full == low_gap_factor(v) * (v.significand as nat) * minus,
        r + d * s == full,
        v.significand % 2 == 0 ==> r <= minus,
        v.significand % 2 != 0 ==> r < minus,
    ensures
        reads_back_at(v, d, q),
{
    lemma_scaled_pos(v, q);
    let num = scaled_num(v, q);
    let den = scaled_den(v, q);
    let f = v.significand as nat;
    let g = low_gap_factor(v);
    assert(num * s == full * den) by (nonlinear_arith)
        requires
            full * den == s * num,
    ;
    assert(d * den <= num) by (nonlinear_arith)
        requires
            num * s == full * den,
            r + d * s == full,
            s > 0,
            den > 0,
    ;
    let under = (num - d * den) as nat;
    assert(under * s == r * den) by (nonlinear_arith)
        requires
            num * s == full * den,
            r + d * s == full,
            under == num - d * den,
    ;
    if d * den == num {
        assert(under == 0);
        assert(2 * f * 0 == 0);
        assert(0 <= num);
        if f % 2 != 0 {
            assert(0 < num);
        }
    } else {
        assert(f % 2 == 0 ==> g * f * under <= num) by (nonlinear_arith)
            requires
                under * s == r * den,
                full == g * f * minus,
                num * s == full * den,
                f % 2 == 0 ==> r <= minus,
                s > 0,
                den > 0,
        ;
        assert(f % 2 != 0 ==> g * f * under < num) by (nonlinear_arith)
            requires
                under * s == r * den,
                full == g * f * minus,
                num * s == full * den,
                f % 2 != 0 ==> r < minus,
                g > 0,
                f > 0,
                s > 0,
                den > 0,
        ;
    }
}

/// Stopping high: one more than the digits so far is within the high margin.
proof fn lemma_reads_back_high(v: Split, full: nat, s: nat, d: nat, r: nat, plus: nat, q: int)
    requires
        split_ok(v),
        s > 0,
        full * scaled_den(v, q) == s * scaled_num(v, q),
        full == 2 * (v.significand as nat) * plus,
        r + d * s == full,
        r < s,
        v.significand % 2 == 0 ==> r + plus >= s,
        v.significand % 2 != 0 ==> r + plus > s,
    ensures
        reads_back_at(v, d + 1, q),
{
    lemma_scaled_pos(v, q);
    let num = scaled_num(v, q);
    let den = scaled_den(v, q);
    let f = v.significand as nat;
    assert(num * s == full * den) by (nonlinear_arith)
        requires
            full * den == s * num,
    ;
    assert((d + 1) * den > num) by (nonlinear_arith)
        requires
            num * s == full * den,
            r + d * s == full,
            r < s,
            s > 0,
            den > 0,
    ;
    let over = ((d + 1) * den - num) as nat;
    assert(over * s == (s - r) * den) by (nonlinear_arith)
        requires
            num * s == full * den,
            r + d * s == full,
            over == (d + 1) * den - num,
    ;
    assert(f % 2 == 0 ==> 2 * f * over <= num) by (nonlinear_arith)
        requires
            over * s == (s - r) * den,
            full == 2 * f * plus,
            num * s == full * den,
            f % 2 == 0 ==> r + plus >= s,
            s > 0,
            den > 0,
    ;
    assert(f % 2 != 0 ==> 2 * f * over < num) by (nonlinear_arith)
        requires
            over * s == (s - r) * den,
            full == 2 * f * plus,
            num * s == full * den,
            f % 2 != 0 ==> r + plus > s,
            f > 0,
            s > 0,
            den > 0,
    ;
}

/// No decimal on the grid of `10^q` reads back as `|x|`.
pub open spec fn none_reads_back_at(v: Split, q: int) -> bool {
    forall|w: nat| !#[trigger] reads_back_at(v, w, q)
}

/// How far `w * 10^q` is from `|x|`, in units of `10^q / scaled_den(v, q)`.
pub open spec fn gap_at(v: Split, w: nat, q: int) -> nat {
    let num = scaled_num(v, q);
    let den = scaled_den(v, q);
    if w * den >= num {
        (w * den - num) as nat
    } else {
        (num - w * den) as nat
    }
}

/// Among the decimals on the grid of `10^q` that read back as `|x|`, `d` is the
/// nearest, and the even one where two are equally near.
pub open spec fn nearest_at(v: Split, d: nat, q: int) -> bool {
    forall|w: nat|
        #[trigger] reads_back_at(v, w, q) ==> w == d || gap_at(v, d, q) < gap_at(v, w, q) || (gap_at(
            v,
            d,
            q,
        ) == gap_at(v, w, q) && d % 2 == 0)
}

/// Reading back, restated against the scaled value `full / s` and its margins:
/// `w` reads back exactly when `w * s` is within `plus` above or `minus` below
/// `full` (the bound included for an even significand), and its gap scales the
/// same way.
proof fn lemma_reads_back_scaled(v: Split, w: nat, q: int, full: nat, s: nat, plus: nat, minus: nat)
    requires
        split_ok(v),
        s > 0,
        full * scaled_den(v, q) == s * scaled_num(v, q),
        full == 2 * (v.significand as nat) * plus,
        full == low_gap_factor(v) * (v.significand as nat) * minus,
    ensures
        reads_back_at(v, w, q) == if w * s >= full {
            if v.significand % 2 == 0 {
                w * s - full <= plus
            } else {
                w * s - full < plus
            }
        } else {
            if v.significand % 2 == 0 {
                full - w * s <= minus
            } else {
                full - w * s < minus
            }
        },
        gap_at(v, w, q) * s == (if w * s >= full {
            (w * s - full) as nat
        } else {
            (full - w * s) as nat
        }) * scaled_den(v, q),
{
    lemma_scaled_pos(v, q);
    let num = scaled_num(v, q);
    let den = scaled_den(v, q);
    let f = v.significand as nat;
    let g = low_gap_factor(v);
    assert(num * s == full * den) by (nonlinear_arith)
        requires
            full * den == s * num,
    ;
    assert((w * den >= num) == (w * s >= full)) by (nonlinear_arith)
        requires
            num * s == full * den,
            s > 0,
            den > 0,
    ;
    if w * s >= full {
        let over = (w * den - num) as nat;
        assert(over * s == (w * s - full) * den) by (nonlinear_arith)
            requires
                num * s == full * den,
                over == w * den - num,
        ;
        assert((2 * f * over <= num) == (w * s - full <= plus)) by (nonlinear_arith)
            requires
                over * s == (w * s - full) * den,
                num * s == full * den,
                full == 2 * f * plus,
                f > 0,
                s > 0,
                den > 0,
        ;
        assert((2 * f * over < num) == (w * s - full < plus)) by (nonlinear_arith)
            requires
                over * s == (w * s - full) * den,
                num * s == full * den,
                full == 2 * f * plus,
                f > 0,
                s > 0,
                den > 0,
        ;
    } else {
        let under = (num - w * den) as nat;
        assert(under * s == (full - w * s) * den) by (nonlinear_arith)
            requires
                num * s == full * den,
                under == num - w * den,
        ;
        assert((g * f * under <= num) == (full - w * s <= minus)) by (nonlinear_arith)
            requires
                under * s == (full - w * s) * den,
                num * s == full * den,
                full == g * f * minus,
                g > 0,
                f > 0,
                s > 0,
                den > 0,
        ;
        assert((g * f * under < num) == (full - w * s < minus)) by (nonlinear_arith)
            requires
                under * s == (full - w * s) * den,
                num * s == full * den,
                full == g * f * minus,
                g > 0,
                f > 0,
                s > 0,
                den > 0,
        ;
    }
}

/// One step of the digit generation, on the grid of `10^q`: `d` is the digits so
/// far with `full == d * s + r`, `r < s`. Only `d` and `d + 1` can read back —
/// `d` exactly when the low test passes, `d + 1` exactly when the high one does —
/// and every other decimal on the grid is farther from `|x|` than both.
proof fn lemma_digit_step(v: Split, full: nat, s: nat, d: nat, r: nat, plus: nat, minus: nat, q: int)
    requires
        split_ok(v),
        s > 0,
        full * scaled_den(v, q) == s * scaled_num(v, q),
        full == 2 * (v.significand as nat) * plus,
        full == low_gap_factor(v) * (v.significand as nat) * minus,
        r + d * s == full,
        r < s,
    ensures
        reads_back_at(v, d, q) == (if v.significand % 2 == 0 {
            r <= minus
        } else {
            r < minus
        }),
        reads_back_at(v, d + 1, q) == (if v.significand % 2 == 0 {
            r + plus >= s
        } else {
            r + plus > s
        }),
        forall|w: nat|
            #![trigger reads_back_at(v, w, q)]
            w != d && w != d + 1 && reads_back_at(v, w, q) ==> reads_back_at(v, d, q) || reads_back_at(
                v,
                d + 1,
                q,
            ),
        forall|w: nat|
            #![trigger gap_at(v, w, q)]
            w != d && w != d + 1 ==> gap_at(v, d, q) < gap_at(v, w, q) && (r > 0 ==> gap_at(
                v,
                d + 1,
                q,
            ) < gap_at(v, w, q)),
        gap_at(v, d, q) * s == r * scaled_den(v, q),
        gap_at(v, d + 1, q) * s == (s - r) * scaled_den(v, q),
{
    lemma_scaled_pos(v, q);
    let den = scaled_den(v, q);
    assert(full > 0 && plus > 0 && minus > 0) by (nonlinear_arith)
        requires
            full * den == s * scaled_num(v, q),
            s > 0,
            den > 0,
            scaled_num(v, q) > 0,
            full == 2 * (v.significand as nat) * plus,
            full == low_gap_factor(v) * (v.significand as nat) * minus,
    ;
    lemma_reads_back_scaled(v, d, q, full, s, plus, minus);
    lemma_reads_back_scaled(v, d + 1, q, full, s, plus, minus);
    assert(d * s <= full);
    assert((d + 1) * s > full) by (nonlinear_arith)
        requires
            r + d * s == full,
            r < s,
    ;
    assert((d + 1) * s - full == s - r) by (nonlinear_arith)
        requires
            r + d * s == full,
    ;
    assert forall|w: nat|
        #![trigger reads_back_at(v, w, q)]
        w != d && w != d + 1 && reads_back_at(v, w, q) implies reads_back_at(v, d, q)
            || reads_back_at(v, d + 1, q) by {
        lemma_reads_back_scaled(v, w, q, full, s, plus, minus);
        if w < d {
            assert(w * s + r + s <= full) by (nonlinear_arith)
                requires
                    r + d * s == full,
                    w < d,
            ;
            assert(!(w * s >= full));
            if v.significand % 2 == 0 {
                assert(r <= minus);
            } else {
                assert(r < minus);
            }
        } else {
            assert(w * s >= full + 2 * s - r) by (nonlinear_arith)
                requires
                    r + d * s == full,
                    w > d + 1,
            ;
            if v.significand % 2 == 0 {
                assert(s - r <= plus);
            } else {
                assert(s - r < plus);
            }
        }
    }
    assert forall|w: nat|
        #![trigger gap_at(v, w, q)]
        w != d && w != d + 1 implies gap_at(v, d, q) < gap_at(v, w, q) && (r > 0 ==> gap_at(
            v,
            d + 1,
            q,
        ) < gap_at(v, w, q)) by {
        lemma_reads_back_scaled(v, w, q, full, s, plus, minus);
        let k: nat = if w * s >= full {
            (w * s - full) as nat
        } else {
            (full - w * s) as nat
        };
        if w < d {
            assert(w * s + r + s <= full) by (nonlinear_arith)
                requires
                    r + d * s == full,
                    w < d,
            ;
            assert(k >= r + s);
        } else {
            assert(w * s >= full + 2 * s - r) by (nonlinear_arith)
                requires
                    r + d * s == full,
                    w > d + 1,
            ;
            assert(k >= 2 * s - r);
        }
        assert(k > r);
        assert(r > 0 ==> k > s - r);
        assert(gap_at(v, d, q) < gap_at(v, w, q)) by (nonlinear_arith)
            requires
                gap_at(v, w, q) * s == k * den,
                gap_at(v, d, q) * s == r * den,
                k > r,
                s > 0,
                den > 0,
        ;
        assert(r > 0 ==> gap_at(v, d + 1, q) < gap_at(v, w, q)) by (nonlinear_arith)
            requires
                gap_at(v, w, q) * s == k * den,
                gap_at(v, d + 1, q) * s == (s - r) * den,
                r > 0 ==> k > s - r,
                s > 0,
                den > 0,
        ;
    }
}

/// The stopping choice is the nearest decimal that reads back on the grid: the
/// only candidate that reads back when just one does, otherwise the nearer of
/// the two, and the even one on a tie.
proof fn lemma_nearest_choice(
    v: Split,
    full: nat,
    s: nat,
    prefix: nat,
    d: nat,
    r: nat,
    plus: nat,
    minus: nat,
    q: int,
    digit: u8,
    last: u8,
)
    requires
        split_ok(v),
        s > 0,
        full * scaled_den(v, q) == s * scaled_num(v, q),
        full == 2 * (v.significand as nat) * plus,
        full == low_gap_factor(v) * (v.significand as nat) * minus,
        r + d * s == full,
        r < s,
        digit < 10,
        d == prefix * 10 + digit,
        reads_back_at(v, d, q) || reads_back_at(v, d + 1, q),
        reads_back_at(v, d, q) && !reads_back_at(v, d + 1, q) ==> last == digit,
        !reads_back_at(v, d, q) && reads_back_at(v, d + 1, q) ==> last == digit + 1,
        reads_back_at(v, d, q) && reads_back_at(v, d + 1, q) ==> {
            &&& 2 * r < s ==> last == digit
            &&& 2 * r > s ==> last == digit + 1
            &&& 2 * r == s ==> last == (if digit % 2 == 0 {
                digit
            } else {
                (digit + 1) as u8
            })
        },
    ensures
        nearest_at(
            v,
            if last == digit {
                d
            } else {
                d + 1
            },
            q,
        ),
{
    lemma_digit_step(v, full, s, d, r, plus, minus, q);
    lemma_scaled_pos(v, q);
    let den = scaled_den(v, q);
    let out: nat = if last == digit {
        d
    } else {
        d + 1
    };
    assert(d % 2 == digit % 2) by (nonlinear_arith)
        requires
            d == prefix * 10 + digit,
    ;
    assert(last == digit || last == digit + 1);
    // Where `d` reads back, `r` is within the low margin; where it does not, `r`
    // is positive.
    if !reads_back_at(v, d, q) {
        if r == 0 {
            assert(full > 0 && minus > 0) by (nonlinear_arith)
                requires
                    full * den == s * scaled_num(v, q),
                    s > 0,
                    den > 0,
                    scaled_num(v, q) > 0,
                    full == low_gap_factor(v) * (v.significand as nat) * minus,
            ;
            assert(false);
        }
    }
    let gd = gap_at(v, d, q);
    let gu = gap_at(v, d + 1, q);
    assert((2 * r < s) == (gd < gu)) by (nonlinear_arith)
        requires
            gd * s == r * den,
            gu * s == (s - r) * den,
            r < s,
            s > 0,
            den > 0,
    ;
    assert((2 * r > s) == (gu < gd)) by (nonlinear_arith)
        requires
            gd * s == r * den,
            gu * s == (s - r) * den,
            r < s,
            s > 0,
            den > 0,
    ;
    assert((2 * r == s) == (gu == gd)) by (nonlinear_arith)
        requires
            gd * s == r * den,
            gu * s == (s - r) * den,
            r < s,
            s > 0,
            den > 0,
    ;
    assert(last == digit + 1 ==> r > 0) by {
        if last == digit + 1 && r == 0 {
            assert(gd == 0) by (nonlinear_arith)
                requires
                    gd * s == r * den,
                    r == 0,
                    s > 0,
            ;
        }
    }
    assert forall|w: nat|
        #[trigger] reads_back_at(v, w, q) implies w == out || gap_at(v, out, q) < gap_at(v, w, q)
            || (gap_at(v, out, q) == gap_at(v, w, q) && out % 2 == 0) by {
        if w == out {
        } else if w != d && w != d + 1 {
            assert(gap_at(v, d, q) < gap_at(v, w, q));
            if out == d + 1 {
                assert(r > 0);
                assert(gap_at(v, d + 1, q) < gap_at(v, w, q));
            }
        } else if w == d {
            assert(out == d + 1);
            assert(last == digit + 1);
            assert(reads_back_at(v, d, q));
            if reads_back_at(v, d + 1, q) {
                if 2 * r < s {
                    assert(last == digit);
                } else if 2 * r > s {
                    assert(gu < gd);
                } else {
                    assert(digit % 2 != 0);
                    assert(gu == gd);
                }
            } else {
                assert(last == digit);
            }
        } else {
            assert(w == d + 1);
            assert(out == d);
            assert(last == digit);
            assert(reads_back_at(v, d + 1, q));
            if reads_back_at(v, d, q) {
                if 2 * r < s {
                    assert(gd < gu);
                } else if 2 * r > s {
                    assert(last == digit + 1);
                } else {
                    assert(digit % 2 == 0);
                    assert(gu == gd);
                }
            } else {
                assert(last == digit + 1);
            }
        }
    }
}

/// A run led by a non-zero digit is at least `10^(len - 1)`.
proof fn lemma_run_value_lead(d: Seq<u8>)
    requires
        d.len() >= 1,
        is_digit_run(d),
        d[0] != 0,
    ensures
        run_value(d) >= pow10((d.len() - 1) as nat),
{
    let head = d.take(1);
    let tail = d.skip(1);
    assert(d =~= head + tail);
    lemma_run_value_concat(head, tail);
    assert(head =~= seq![d[0]]);
    lemma_run_value_single(d[0]);
    assert(tail.len() == (d.len() - 1) as nat);
    lemma_pow10_pos(tail.len());
    assert(run_value(d) >= pow10(tail.len())) by (nonlinear_arith)
        requires
            run_value(d) == (d[0] as nat) * pow10(tail.len()) + run_value(tail),
            d[0] >= 1,
    ;
}

/// Two digit runs of one length that spell one number are the same run.
proof fn lemma_run_value_injective(a: Seq<u8>, b: Seq<u8>)
    requires
        a.len() == b.len(),
        is_digit_run(a),
        is_digit_run(b),
        run_value(a) == run_value(b),
    ensures
        a == b,
    decreases a.len(),
{
    if a.len() > 0 {
        let a1 = a.drop_last();
        let b1 = b.drop_last();
        assert(is_digit_run(a1)) by {
            assert forall|i: int| 0 <= i < a1.len() implies #[trigger] a1[i] < 10 by {
                assert(a1[i] == a[i]);
            }
        }
        assert(is_digit_run(b1)) by {
            assert forall|i: int| 0 <= i < b1.len() implies #[trigger] b1[i] < 10 by {
                assert(b1[i] == b[i]);
            }
        }
        assert(a.last() < 10 && b.last() < 10) by {
            assert(a[a.len() - 1] < 10);
            assert(b[b.len() - 1] < 10);
        }
        assert(run_value(a1) == run_value(b1) && a.last() == b.last()) by (nonlinear_arith)
            requires
                run_value(a1) * 10 + a.last() as nat == run_value(b1) * 10 + b.last() as nat,
                a.last() < 10,
                b.last() < 10,
        ;
        lemma_run_value_injective(a1, b1);
        assert(a =~= a1.push(a.last()));
        assert(b =~= b1.push(b.last()));
    }
}

/// On one grid, at most one decimal is the nearest that reads back.
proof fn lemma_nearest_unique(v: Split, w1: nat, w2: nat, q: int)
    requires
        split_ok(v),
        reads_back_at(v, w1, q),
        reads_back_at(v, w2, q),
        nearest_at(v, w1, q),
        nearest_at(v, w2, q),
    ensures
        w1 == w2,
{
    if w1 != w2 {
        lemma_scaled_pos(v, q);
        let num = scaled_num(v, q);
        let den = scaled_den(v, q);
        assert(gap_at(v, w1, q) == gap_at(v, w2, q) && w1 % 2 == 0 && w2 % 2 == 0);
        let (lo, hi) = if w1 < w2 {
            (w1, w2)
        } else {
            (w2, w1)
        };
        // Equal gaps on the two sides put `|x|` at the midpoint, which is on the
        // grid because the two are even, and reads back at no distance at all.
        assert(lo * den <= num && num <= hi * den) by (nonlinear_arith)
            requires
                lo < hi,
                den > 0,
                gap_at(v, lo, q) == gap_at(v, hi, q),
                gap_at(v, lo, q) == (if lo * den >= num {
                    (lo * den - num) as nat
                } else {
                    (num - lo * den) as nat
                }),
                gap_at(v, hi, q) == (if hi * den >= num {
                    (hi * den - num) as nat
                } else {
                    (num - hi * den) as nat
                }),
        ;
        let m: nat = (lo + hi) / 2;
        assert(lo + hi == 2 * m);
        assert(m * den == num) by (nonlinear_arith)
            requires
                num - lo * den == hi * den - num,
                lo + hi == 2 * m,
        ;
        assert(gap_at(v, m, q) == 0);
        assert(reads_back_at(v, m, q));
        assert(lo < m < hi);
        assert(gap_at(v, w1, q) > 0) by (nonlinear_arith)
            requires
                w1 != m,
                m * den == num,
                den > 0,
                gap_at(v, w1, q) == (if w1 * den >= num {
                    (w1 * den - num) as nat
                } else {
                    (num - w1 * den) as nat
                }),
        ;
    }
}

/// The digits `Number::toString` prints are determined: two forms that both meet
/// ECMAScript's choice for the same double are the same digits at the same place.
pub proof fn lemma_shortest_form_is_unique(v: Split, d1: Seq<u8>, e1: int, d2: Seq<u8>, e2: int)
    requires
        split_ok(v),
        is_shortest_form(v, d1, e1),
        is_shortest_form(v, d2, e2),
    ensures
        d1 == d2,
        e1 == e2,
{
    let q1 = e1 - d1.len() + 1;
    let q2 = e2 - d2.len() + 1;
    let w1 = run_value(d1);
    let w2 = run_value(d2);
    // A form on a coarser grid would be a decimal one place coarser than the
    // other that reads back.
    if q1 < q2 {
        let j = (q2 - q1 - 1) as nat;
        lemma_reads_back_shift(v, w2, q1 + 1, j);
        assert(q1 + 1 + j == q2);
        assert(!reads_back_at(v, w2 * pow10(j), q1 + 1));
    }
    if q2 < q1 {
        let j = (q1 - q2 - 1) as nat;
        lemma_reads_back_shift(v, w1, q2 + 1, j);
        assert(q2 + 1 + j == q1);
        assert(!reads_back_at(v, w1 * pow10(j), q2 + 1));
    }
    assert(q1 == q2);
    lemma_nearest_unique(v, w1, w2, q1);
    lemma_run_value_bound(d1);
    lemma_run_value_bound(d2);
    lemma_run_value_lead(d1);
    lemma_run_value_lead(d2);
    if d1.len() < d2.len() {
        let k = (d2.len() - 1 - d1.len()) as nat;
        lemma_pow10_add(d1.len(), k);
        lemma_pow10_pos(k);
        assert(d1.len() + k == (d2.len() - 1) as nat);
        assert(pow10(d1.len()) <= pow10((d2.len() - 1) as nat)) by (nonlinear_arith)
            requires
                pow10((d2.len() - 1) as nat) == pow10(d1.len()) * pow10(k),
                pow10(k) >= 1,
        ;
        assert(false);
    }
    if d2.len() < d1.len() {
        let k = (d1.len() - 1 - d2.len()) as nat;
        lemma_pow10_add(d2.len(), k);
        lemma_pow10_pos(k);
        assert(d2.len() + k == (d1.len() - 1) as nat);
        assert(pow10(d2.len()) <= pow10((d1.len() - 1) as nat)) by (nonlinear_arith)
            requires
                pow10((d1.len() - 1) as nat) == pow10(d2.len()) * pow10(k),
                pow10(k) >= 1,
        ;
        assert(false);
    }
    lemma_run_value_injective(d1, d2);
}

/// The bits of `-x`: the sign bit flipped.
pub open spec fn negated_bits(bits: u64) -> u64 {
    if bits >= 0x8000_0000_0000_0000 {
        (bits - 0x8000_0000_0000_0000) as u64
    } else {
        (bits + 0x8000_0000_0000_0000) as u64
    }
}

/// `x` and `-x` have one magnitude, so the digits and the place ECMAScript
/// chooses for them are the same: the shortest form depends on the magnitude
/// alone.
pub proof fn lemma_shortest_form_ignores_sign(bits: u64)
    ensures
        split_of(negated_bits(bits)) == split_of(bits),
        forall|d: Seq<u8>, e: int|
            #![trigger is_shortest_form(split_of(negated_bits(bits)).unwrap(), d, e)]
            is_shortest_form(split_of(negated_bits(bits)).unwrap(), d, e) == is_shortest_form(
                split_of(bits).unwrap(),
                d,
                e,
            ),
{
    let b = bits as int;
    let nb = negated_bits(bits) as int;
    let unit: int = 0x10_0000_0000_0000;
    let q = b / unit;
    let r = b % unit;
    vstd::arithmetic::div_mod::lemma_fundamental_div_mod(b, unit);
    let q2: int = if bits >= 0x8000_0000_0000_0000 {
        q - 2048
    } else {
        q + 2048
    };
    assert(nb == q2 * unit + r) by (nonlinear_arith)
        requires
            b == unit * q + r,
            unit == 0x10_0000_0000_0000,
            nb == (if b >= 0x8000_0000_0000_0000 {
                b - 0x8000_0000_0000_0000
            } else {
                b + 0x8000_0000_0000_0000
            }),
            q2 == (if b >= 0x8000_0000_0000_0000 {
                q - 2048
            } else {
                q + 2048
            }),
    ;
    vstd::arithmetic::div_mod::lemma_fundamental_div_mod_converse(nb, unit, q2, r);
    assert(q >= 0);
    if bits >= 0x8000_0000_0000_0000 {
        assert(q >= 2048) by (nonlinear_arith)
            requires
                b == unit * q + r,
                0 <= r < unit,
                unit == 0x10_0000_0000_0000,
                b >= 0x8000_0000_0000_0000,
        ;
        vstd::arithmetic::div_mod::lemma_mod_multiples_vanish(1, q2, 2048);
        assert(2048 * 1 + q2 == q);
    } else {
        vstd::arithmetic::div_mod::lemma_mod_multiples_vanish(1, q, 2048);
        assert(2048 * 1 + q == q2);
    }
    assert(exponent_field(negated_bits(bits)) == exponent_field(bits));
    assert(fraction_field(negated_bits(bits)) == fraction_field(bits));
}

/// The shortest digits end in a non-zero digit, unless there is only one: a
/// trailing zero could be dropped for a shorter decimal that reads back alike.
pub proof fn lemma_shortest_form_ends_in_a_non_zero_digit(v: Split, d: Seq<u8>, e: int)
    requires
        split_ok(v),
        is_shortest_form(v, d, e),
    ensures
        d.len() >= 2 ==> d.last() != 0,
{
    if d.len() >= 2 && d.last() == 0 {
        let q = e - d.len() + 1;
        let head = d.drop_last();
        assert(d =~= head + seq![0u8]);
        lemma_run_value_concat(head, seq![0u8]);
        lemma_run_value_single(0u8);
        assert(pow10(1) == 10) by {
            reveal_with_fuel(pow10, 2);
        }
        lemma_reads_back_shift(v, run_value(head), q, 1);
        assert(reads_back_at(v, run_value(head), q + 1));
        assert(q + 1 == e - d.len() + 2);
        assert(false);
    }
}

/// ECMAScript's choice never needs more than seventeen digits: no decimal one
/// place coarser reads back, so that grid is wider than the interval that reads
/// back, and a significand below `2^53` then leaves room for at most seventeen
/// digits.
pub proof fn lemma_shortest_form_has_at_most_17_digits(v: Split, d: Seq<u8>, e: int)
    requires
        split_ok(v),
        is_shortest_form(v, d, e),
    ensures
        d.len() <= 17,
{
    let q = e - d.len() + 1;
    let q1 = q + 1;
    let f = v.significand as nat;
    let g = low_gap_factor(v);
    lemma_scaled_pos(v, q1);
    let num = scaled_num(v, q1);
    let den = scaled_den(v, q1);
    // The grid points of `10^q1` on either side of `|x|` both fail to read back.
    let lo: nat = num / den;
    let hi: nat = lo + 1;
    vstd::arithmetic::div_mod::lemma_fundamental_div_mod(num as int, den as int);
    let rem: nat = num % den;
    assert(num == den * lo + rem);
    assert(!reads_back_at(v, lo, q1));
    assert(!reads_back_at(v, hi, q1));
    assert(lo * den <= num) by (nonlinear_arith)
        requires
            num == den * lo + rem,
    ;
    assert(hi * den > num) by (nonlinear_arith)
        requires
            num == den * lo + rem,
            rem < den,
            hi == lo + 1,
    ;
    let under: nat = (num - lo * den) as nat;
    let over: nat = (hi * den - num) as nat;
    assert(under + over == den) by (nonlinear_arith)
        requires
            under == num - lo * den,
            over == hi * den - num,
            hi == lo + 1,
    ;
    // Failing to read back means each side's gap is at least its margin.
    if lo * den == num {
        assert(2 * f * 0 == 0);
        assert(reads_back_at(v, lo, q1));
    }
    assert(lo * den < num);
    assert(g * f * under >= num);
    assert(2 * f * over >= num);
    // So `num * (g + 2) <= 2 * g * f * den`: `|x| / 10^q1 <= 2 g f / (g + 2)`.
    assert(num * (g + 2) <= 2 * g * f * den) by (nonlinear_arith)
        requires
            g * f * under >= num,
            2 * f * over >= num,
            under + over == den,
    ;
    // The digits, read on the grid of `10^q`, reach `10^(len - 1)` and read back.
    let w = run_value(d);
    lemma_run_value_lead(d);
    lemma_scaled_pos(v, q);
    let num0 = scaled_num(v, q);
    let den0 = scaled_den(v, q);
    lemma_shift10(q, q1);
    assert(reads_back_at(v, w, q));
    // `w` lies within the high margin of `|x|` on the grid of `10^q`.
    assert(2 * f * w * den0 <= (2 * f + 1) * num0) by {
        if w * den0 >= num0 {
            assert(2 * f * ((w * den0 - num0) as nat) <= num0);
            assert(2 * f * w * den0 <= (2 * f + 1) * num0) by (nonlinear_arith)
                requires
                    2 * f * ((w * den0 - num0) as nat) <= num0,
                    w * den0 >= num0,
            ;
        } else {
            assert(2 * f * w * den0 <= (2 * f + 1) * num0) by (nonlinear_arith)
                requires
                    w * den0 < num0,
                    f >= 1,
            ;
        }
    }
    lemma_shortest_digit_bound(v, q, num0, den0, num, den, w, d.len());
}

/// The arithmetic behind the seventeen-digit bound: the two grids, related by
/// a factor of ten, and the significand below `2^53`.
proof fn lemma_shortest_digit_bound(
    v: Split,
    q: int,
    num0: nat,
    den0: nat,
    num: nat,
    den: nat,
    w: nat,
    len: nat,
)
    requires
        split_ok(v),
        len >= 1,
        num0 == scaled_num(v, q),
        den0 == scaled_den(v, q),
        num == scaled_num(v, q + 1),
        den == scaled_den(v, q + 1),
        den0 > 0,
        den > 0,
        w >= pow10((len - 1) as nat),
        2 * (v.significand as nat) * w * den0 <= (2 * (v.significand as nat) + 1) * num0,
        num * (low_gap_factor(v) + 2) <= 2 * low_gap_factor(v) * (v.significand as nat) * den,
    ensures
        len <= 17,
{
    let f = v.significand as nat;
    let g = low_gap_factor(v);
    // `num0 / den0 == 10 * num / den`.
    lemma_grid_ratio(v, q);
    assert(num0 * den == 10 * num * den0);
    if len >= 18 {
        lemma_pow10_add(17, (len - 18) as nat);
        lemma_pow10_pos((len - 18) as nat);
        assert(pow10(17) == 100000000000000000) by {
            reveal_with_fuel(pow10, 18);
        }
        assert(w >= 100000000000000000) by (nonlinear_arith)
            requires
                w >= pow10((len - 1) as nat),
                pow10((len - 1) as nat) == pow10(17) * pow10((len - 18) as nat),
                pow10((len - 18) as nat) >= 1,
                pow10(17) == 100000000000000000,
        ;
        // 2 f w den0 <= (2f+1) num0, and num0 den = 10 num den0 <= 10 den0 * 2gf den / (g+2).
        assert(2 * f * w * den0 * den * (g + 2) <= (2 * f + 1) * num0 * den * (g + 2))
            by (nonlinear_arith)
            requires
                2 * f * w * den0 <= (2 * f + 1) * num0,
        ;
        assert((2 * f + 1) * num0 * den * (g + 2) == (2 * f + 1) * 10 * den0 * (num * (g + 2)))
            by (nonlinear_arith)
            requires
                num0 * den == 10 * num * den0,
        ;
        assert((2 * f + 1) * 10 * den0 * (num * (g + 2)) <= (2 * f + 1) * 10 * den0 * (2 * g * f
            * den)) by (nonlinear_arith)
            requires
                num * (g + 2) <= 2 * g * f * den,
        ;
        // Divide by 2 f den0 den: w (g + 2) <= 10 g (2 f + 1).
        assert(w * (g + 2) <= 10 * g * (2 * f + 1)) by (nonlinear_arith)
            requires
                2 * f * w * den0 * den * (g + 2) <= (2 * f + 1) * 10 * den0 * (2 * g * f * den),
                f > 0,
                den0 > 0,
                den > 0,
        ;
        assert(f < 0x20_0000_0000_0000);
        if g == 2 {
            assert(w * 4 <= 20 * (2 * f + 1));
        } else {
            assert(f == 0x10_0000_0000_0000);
            assert(w * 6 <= 40 * (2 * f + 1));
        }
        assert(false);
    }
}

/// The scaled value on the grid of `10^q` is ten times that on the grid of
/// `10^(q + 1)`.
proof fn lemma_grid_ratio(v: Split, q: int)
    requires
        split_ok(v),
    ensures
        scaled_num(v, q) * scaled_den(v, q + 1) == 10 * scaled_num(v, q + 1) * scaled_den(v, q),
{
    let a = pow2(if v.exponent < 0 { (-v.exponent) as nat } else { 0 });
    let b = v.significand as nat * pow2(if v.exponent >= 0 { v.exponent as nat } else { 0 });
    // neg10(q) * pos10(q + 1) == 10 * neg10(q + 1) * pos10(q)
    assert(neg10(q) * pos10(q + 1) == 10 * neg10(q + 1) * pos10(q)) by {
        if q >= 0 {
            assert(pos10(q + 1) == 10 * pos10(q)) by {
                assert((q + 1) as nat == (q as nat) + 1);
            }
        } else if q == -1 {
            assert(neg10(q) == 10) by {
                reveal_with_fuel(pow10, 2);
            }
            assert(pos10(q + 1) == 1);
        } else {
            assert(neg10(q) == 10 * neg10(q + 1)) by {
                assert((-q) as nat == ((-(q + 1)) as nat) + 1);
            }
        }
    }
    assert(scaled_num(v, q) * scaled_den(v, q + 1) == 10 * scaled_num(v, q + 1) * scaled_den(v, q))
        by (nonlinear_arith)
        requires
            scaled_num(v, q) == b * neg10(q),
            scaled_num(v, q + 1) == b * neg10(q + 1),
            scaled_den(v, q) == a * pos10(q),
            scaled_den(v, q + 1) == a * pos10(q + 1),
            neg10(q) * pos10(q + 1) == 10 * neg10(q + 1) * pos10(q),
    ;
}

fn less_than(a: &BigNat, b: &BigNat) -> (r: bool)
    requires
        a.wf(),
        b.wf(),
    ensures
        r == (a@ < b@),
{
    a.compare(b) == Comparison::Less
}

/// `a + b`, in a fresh value.
fn sum_of(a: &BigNat, b: &BigNat) -> (r: Result<BigNat, FormatError>)
    requires
        a.wf(),
        b.wf(),
    ensures
        match r {
            Ok(x) => x.wf() && x@ == a@ + b@,
            Err(e) => e == FormatError::AllocationFailed,
        },
{
    let mut x = BigNat::zero();
    x.try_clone_from(a)?;
    x.try_add_assign(b)?;
    Ok(x)
}

/// The shortest decimal that reads back as `|x|`, with the place value of its
/// first digit. `None` for zero and the non-finite values.
///
/// This is ECMAScript's `Number::toString` digit selection (Steele and White's
/// free-format algorithm): fewest digits first, then closest to the exact value,
/// and on a tie the candidate whose last digit is even.
#[verifier::rlimit(80)]
#[verifier::spinoff_prover]
pub fn shortest(bits: u64, limits: &FormatLimits) -> (res: Result<Option<(Vec<u8>, i32)>, FormatError>)
    ensures
        split_of(bits) is None ==> res == Ok::<Option<(Vec<u8>, i32)>, FormatError>(None),
        match res {
            Ok(Some((d, e))) => split_of(bits) is Some && is_shortest_form(
                split_of(bits).unwrap(),
                d@,
                e as int,
            ),
            Ok(None) => split_of(bits) is None,
            Err(e) => split_of(bits) is Some && (e == FormatError::AllocationFailed || (
            MAX_SHORTEST_DIGITS > limits.max_output_bytes && e == FormatError::OutputLimit {
                requested: MAX_SHORTEST_DIGITS,
                maximum: limits.max_output_bytes,
            })),
        },
        res matches Ok(Some(_)) ==> MAX_SHORTEST_DIGITS <= limits.max_output_bytes,
{
    let value = match split(bits) {
        None => {
            return Ok(None);
        },
        Some(value) => value,
    };
    let (mut r, mut s, mut plus, mut minus) = shortest_start(value)?;
    let inclusive = value.significand % 2 == 0;
    let ghost f = value.significand as nat;
    let ghost g = low_gap_factor(value);

    let mut bits_len: i32 = 0;
    let mut m: u64 = value.significand;
    proof {
        vstd::arithmetic::power2::lemma2_to64_rest();
    }
    while m > 0
        invariant
            0 <= bits_len <= 53,
            m < pow2((53 - bits_len) as nat),
        decreases m,
    {
        proof {
            vstd::arithmetic::power2::lemma2_to64();
            assert(bits_len < 53);
            vstd::arithmetic::power2::lemma_pow2_unfold((53 - bits_len) as nat);
        }
        m = m / 2;
        bits_len = bits_len + 1;
    }
    let k: i32 = bits_len + value.exponent;
    // `ceil(k * log10(2))`, near enough: the loops below correct it exactly.
    let mut scale: i32 = if k > 0 {
        (k * 1233 + 4095) / 4096
    } else {
        -((-k * 1233) / 4096)
    };
    assert(-400 <= scale <= 400) by (nonlinear_arith)
        requires
            -1100 <= k <= 1100,
            k > 0 ==> scale == (k * 1233 + 4095) / 4096,
            k <= 0 ==> scale == -((-k * 1233) / 4096),
    ;
    let ghost r0 = r@;
    let ghost s0 = s@;
    let ghost p0 = plus@;
    let ghost m0 = minus@;
    proof {
        lemma_track_init(r0, s0, value, scale as int);
    }
    if scale >= 0 {
        s.try_mul_pow10(scale as u32)?;
    } else {
        let factor = (-scale) as u32;
        r.try_mul_pow10(factor)?;
        plus.try_mul_pow10(factor)?;
        minus.try_mul_pow10(factor)?;
        proof {
            let t = pow10(factor as nat);
            assert(r@ == 2 * f * plus@ && r@ == g * f * minus@) by (nonlinear_arith)
                requires
                    r@ == r0 * t,
                    plus@ == p0 * t,
                    minus@ == m0 * t,
                    r0 == 2 * f * p0,
                    r0 == g * f * m0,
            ;
        }
    }
    proof {
        lemma_pow10_pos(if scale >= 0 { scale as nat } else { (-scale) as nat });
        assert(s@ > 0 && plus@ > 0) by (nonlinear_arith)
            requires
                scale >= 0 ==> s@ == s0 * pow10(scale as nat) && plus@ == p0,
                scale < 0 ==> s@ == s0 && plus@ == p0 * pow10((-scale) as nat),
                s0 > 0,
                p0 > 0,
                pow10(if scale >= 0 { scale as nat } else { (-scale) as nat }) > 0,
        ;
    }

    let ghost e0 = scale;
    loop
        invariant
            split_of(bits) == Some(value),
            split_ok(value),
            inclusive == (value.significand % 2 == 0),
            f == value.significand,
            g == low_gap_factor(value),
            r.wf(),
            s.wf(),
            plus.wf(),
            minus.wf(),
            s@ > 0,
            plus@ > 0,
            r@ == 2 * f * plus@,
            r@ == g * f * minus@,
            r@ * scaled_den(value, scale as int) == s@ * scaled_num(value, scale as int),
            -400 <= e0 <= 400,
            e0 <= scale <= e0 + 8192,
            s@ >= pow10((scale - e0) as nat),
        ensures
            r.wf(),
            s.wf(),
            plus.wf(),
            minus.wf(),
            s@ > 0,
            plus@ > 0,
            r@ == 2 * f * plus@,
            r@ == g * f * minus@,
            r@ * scaled_den(value, scale as int) == s@ * scaled_num(value, scale as int),
            e0 <= scale <= e0 + 8192,
            !inclusive ==> r@ + plus@ <= s@,
            inclusive ==> r@ + plus@ < s@,
        decreases if r@ + plus@ >= s@ {
            r@ + plus@ - s@ + 1
        } else {
            0
        },
    {
        let high = sum_of(&r, &plus)?;
        let above_one = if inclusive {
            !less_than(&high, &s)
        } else {
            less_than(&s, &high)
        };
        if !above_one {
            break;
        }
        let ghost before = s@;
        s.try_mul_small(10)?;
        proof {
            lemma_track_up(r@, before, value, scale as int);
            let j = (scale - e0 + 1) as nat;
            assert(pow10(j) == 10 * pow10((scale - e0) as nat));
            lemma_pow2_le_pow10(j);
            s.lemma_wf_bound();
            if j >= 8192 {
                if j > 8192 {
                    vstd::arithmetic::power2::lemma_pow2_strictly_increases(8192, j);
                }
                assert(false);
            }
        }
        scale = scale + 1;
    }
    let ghost e1 = scale;
    loop
        invariant
            split_of(bits) == Some(value),
            split_ok(value),
            inclusive == (value.significand % 2 == 0),
            f == value.significand,
            g == low_gap_factor(value),
            r.wf(),
            s.wf(),
            plus.wf(),
            minus.wf(),
            s@ > 0,
            plus@ > 0,
            r@ == 2 * f * plus@,
            r@ == g * f * minus@,
            r@ * scaled_den(value, scale as int) == s@ * scaled_num(value, scale as int),
            r@ + plus@ <= s@,
            inclusive ==> r@ + plus@ < s@,
            -400 <= e0 <= 400,
            e0 <= e1 <= e0 + 8192,
            e1 - 8192 <= scale <= e1,
            plus@ >= pow10((e1 - scale) as nat),
        ensures
            r.wf(),
            s.wf(),
            plus.wf(),
            minus.wf(),
            s@ > 0,
            plus@ > 0,
            r@ == 2 * f * plus@,
            r@ == g * f * minus@,
            r@ * scaled_den(value, scale as int) == s@ * scaled_num(value, scale as int),
            r@ < s@,
            r@ + plus@ <= s@,
            inclusive ==> r@ + plus@ < s@,
            10 * (r@ + plus@) >= s@,
            -10000 <= scale <= 10000,
        decreases s@ - (r@ + plus@),
    {
        let mut high = sum_of(&r, &plus)?;
        high.try_mul_small(10)?;
        // Stepping down only while `10^(scale - 1)` stays strictly beyond the high
        // margin keeps `10^scale` from reading back at the first digit.
        let below_a_tenth = less_than(&high, &s);
        if !below_a_tenth {
            break;
        }
        let ghost rb = r@;
        let ghost pb = plus@;
        let ghost mb = minus@;
        r.try_mul_small(10)?;
        plus.try_mul_small(10)?;
        minus.try_mul_small(10)?;
        proof {
            lemma_track_down(rb, s@, value, scale as int);
            assert(r@ == 2 * f * plus@ && r@ == g * f * minus@) by (nonlinear_arith)
                requires
                    r@ == rb * 10,
                    plus@ == pb * 10,
                    minus@ == mb * 10,
                    rb == 2 * f * pb,
                    rb == g * f * mb,
            ;
            let j = (e1 - scale + 1) as nat;
            assert(pow10(j) == 10 * pow10((e1 - scale) as nat));
            lemma_pow2_le_pow10(j);
            plus.lemma_wf_bound();
            if j >= 8192 {
                if j > 8192 {
                    vstd::arithmetic::power2::lemma_pow2_strictly_increases(8192, j);
                }
                assert(false);
            }
        }
        scale = scale - 1;
    }

    let mut digits = digit_vec(MAX_SHORTEST_DIGITS, limits)?;
    let mut scratch = BigNat::zero();
    let mut iteration: usize = 0;
    let ghost mut full: nat = r@;
    proof {
        reveal_with_fuel(run_value, 1);
        assert(pow10(0) == 1);
        assert(plus@ * 10 * (2 * f + 1) >= s@ * 1) by (nonlinear_arith)
            requires
                r@ == 2 * f * plus@,
                10 * (r@ + plus@) >= s@,
        ;
        assert(r@ + run_value(digits@) * s@ == full) by {
            assert(digits@.len() == 0);
        }
        // Neither zero nor one reads back on the grid of `10^scale`.
        lemma_scaled_pos(value, scale as int);
        assert(r@ > 0 && minus@ > 0) by (nonlinear_arith)
            requires
                r@ * scaled_den(value, scale as int) == s@ * scaled_num(value, scale as int),
                s@ > 0,
                scaled_den(value, scale as int) > 0,
                scaled_num(value, scale as int) > 0,
                r@ == g * f * minus@,
        ;
        assert(r@ > minus@) by (nonlinear_arith)
            requires
                r@ == g * f * minus@,
                g >= 2,
                f >= 1,
                minus@ > 0,
        ;
        assert(r@ + 0 * s@ == r@);
        lemma_digit_step(value, r@, s@, 0, r@, plus@, minus@, scale as int);
        assert forall|w: nat| !#[trigger] reads_back_at(value, w, scale as int) by {
            if w == 0 {
            } else if w == 1 {
            } else {
            }
        }
        assert(none_reads_back_at(value, scale - iteration));
    }
    while iteration < MAX_SHORTEST_DIGITS
        invariant_except_break
            digits@.len() == iteration,
            iteration <= 18,
            -10000 <= scale <= 10000,
            r@ < s@,
            full == r@ + run_value(digits@) * s@,
            full == 2 * f * plus@,
            full == g * f * minus@,
            full * scaled_den(value, scale - iteration) == s@ * scaled_num(value, scale - iteration),
            plus@ * 10 * (2 * f + 1) >= s@ * pow10(iteration as nat),
            none_reads_back_at(value, scale - iteration),
        invariant
            split_of(bits) == Some(value),
            split_ok(value),
            inclusive == (value.significand % 2 == 0),
            f == value.significand,
            g == low_gap_factor(value),
            r.wf(),
            s.wf(),
            plus.wf(),
            minus.wf(),
            scratch.wf(),
            s@ > 0,
            iteration <= MAX_SHORTEST_DIGITS,
            is_digit_run(digits@),
            -10000 <= scale <= 10001,
        ensures
            1 <= digits@.len() <= MAX_SHORTEST_DIGITS,
            is_digit_run(digits@),
            -10001 <= scale <= 10001,
            reads_back_at(value, run_value(digits@), scale - digits@.len()),
            none_reads_back_at(value, scale - digits@.len() + 1),
            nearest_at(value, run_value(digits@), scale - digits@.len()),
        decreases MAX_SHORTEST_DIGITS - iteration,
    {
        let ghost rb = r@;
        let ghost pb = plus@;
        let ghost mb = minus@;
        let ghost db = digits@;
        let ghost q = scale - iteration;
        r.try_mul_small(10)?;
        plus.try_mul_small(10)?;
        minus.try_mul_small(10)?;
        let digit = next_digit(&mut r, &s);
        proof {
            lemma_track_down(full, s@, value, q);
            full = 10 * full;
            assert(full == 2 * f * plus@ && full == g * f * minus@) by (nonlinear_arith)
                requires
                    full == 10 * (rb + run_value(db) * s@),
                    rb + run_value(db) * s@ == 2 * f * pb,
                    rb + run_value(db) * s@ == g * f * mb,
                    plus@ == pb * 10,
                    minus@ == mb * 10,
            ;
            assert(r@ + (run_value(db) * 10 + digit) * s@ == full) by (nonlinear_arith)
                requires
                    full == 10 * (rb + run_value(db) * s@),
                    digit * s@ + r@ == rb * 10,
            ;
            assert(plus@ * 10 * (2 * f + 1) >= s@ * pow10((iteration + 1) as nat)) by (
            nonlinear_arith)
                requires
                    pb * 10 * (2 * f + 1) >= s@ * pow10(iteration as nat),
                    plus@ == pb * 10,
                    pow10((iteration + 1) as nat) == 10 * pow10(iteration as nat),
            ;
        }
        let ghost dnext: nat = (run_value(db) * 10 + digit) as nat;
        let ghost qn = q - 1;

        let can_stop_low = if inclusive {
            !less_than(&minus, &r)
        } else {
            less_than(&r, &minus)
        };
        scratch.try_clone_from(&r)?;
        scratch.try_add_assign(&plus)?;
        let can_stop_high = if inclusive {
            !less_than(&scratch, &s)
        } else {
            less_than(&s, &scratch)
        };
        proof {
            if iteration + 1 >= 19 {
                // Nineteen digits in, the high margin alone exceeds a unit: the
                // significand has at most 53 bits and `10^18 > 10 * 2^54`.
                lemma_pow10_add(18, (iteration + 1 - 18) as nat);
                lemma_pow10_pos((iteration + 1 - 18) as nat);
                assert(pow10(18) == 1000000000000000000) by {
                    reveal_with_fuel(pow10, 19);
                }
                assert(f < 0x20_0000_0000_0000);
                assert(plus@ > s@) by (nonlinear_arith)
                    requires
                        plus@ * 10 * (2 * f + 1) >= s@ * pow10((iteration + 1) as nat),
                        pow10((iteration + 1) as nat) == pow10(18) * pow10(
                            (iteration + 1 - 18) as nat,
                        ),
                        pow10((iteration + 1 - 18) as nat) >= 1,
                        pow10(18) == 1000000000000000000,
                        f < 0x20_0000_0000_0000,
                        s@ > 0,
                ;
                assert(can_stop_high);
            }
        }

        proof {
            lemma_digit_step(value, full, s@, dnext, r@, plus@, minus@, qn);
        }
        if !can_stop_low && !can_stop_high {
            let ghost before = digits@;
            digits.push(digit);
            proof {
                assert forall|w: nat| !#[trigger] reads_back_at(value, w, qn) by {
                    if w == dnext {
                    } else if w == dnext + 1 {
                    } else {
                    }
                }
                assert(digits@.drop_last() =~= before);
                assert(run_value(digits@) == dnext);
                assert(is_digit_run(digits@)) by {
                    assert forall|i: int| 0 <= i < digits@.len() implies #[trigger] digits@[i]
                        < 10 by {
                        if i < before.len() {
                            assert(digits@[i] == before[i]);
                        }
                    }
                }
                assert(scale - (iteration + 1) == qn);
            }
            iteration = iteration + 1;
            if iteration == MAX_SHORTEST_DIGITS {
                proof {
                    assert(false);
                }
                break;
            }
            continue;
        }
        proof {
            if can_stop_low {
                lemma_reads_back_low(value, full, s@, dnext, r@, minus@, qn);
            }
            if can_stop_high {
                lemma_reads_back_high(value, full, s@, dnext, r@, plus@, qn);
            }
        }
        let last = if can_stop_low && !can_stop_high {
            digit
        } else if can_stop_high && !can_stop_low {
            digit + 1
        } else {
            // Both ends accept: take the candidate closer to the exact value; on an
            // exact tie `Number::toString` chooses the even digit.
            scratch.try_clone_from(&r)?;
            scratch.try_mul_small(2)?;
            let c = scratch.compare(&s);
            match c {
                Comparison::Less => digit,
                Comparison::Greater => digit + 1,
                Comparison::Equal => if digit % 2 == 0 {
                    digit
                } else {
                    digit + 1
                },
            }
        };
        proof {
            assert(last == digit ==> reads_back_at(value, dnext, qn));
            assert(last == digit + 1 ==> reads_back_at(value, (dnext + 1) as nat, qn));
            lemma_nearest_choice(value, full, s@, run_value(db), dnext, r@, plus@, minus@, qn, digit, last);
        }

        if last < 10 {
            let ghost before = digits@;
            digits.push(last);
            proof {
                assert(digits@.drop_last() =~= before);
                assert(run_value(digits@) == run_value(db) * 10 + last);
                assert(is_digit_run(digits@)) by {
                    assert forall|i: int| 0 <= i < digits@.len() implies #[trigger] digits@[i]
                        < 10 by {
                        if i < before.len() {
                            assert(digits@[i] == before[i]);
                        }
                    }
                }
                assert(scale - digits@.len() == qn);
            }
            break;
        }
        // One more than the digits so far would be a decimal one place coarser that
        // reads back, which the previous step (or the choice of `scale`) ruled out:
        // the last digit never carries.
        proof {
            assert(dnext + 1 == (run_value(db) + 1) * 10);
            assert(pow10(1) == 10) by {
                reveal_with_fuel(pow10, 2);
            }
            lemma_reads_back_shift(value, (run_value(db) + 1) as nat, qn, 1);
            assert(reads_back_at(value, (run_value(db) + 1) as nat, qn + 1));
            assert(false);
        }
        break;
    }

    // Only a subnormal with a handful of significant bits can lead with a zero;
    // dropping it is an exact rewrite.
    let mut leading: usize = 0;
    while leading + 1 < digits.len() && digits[leading] == 0
        invariant
            1 <= digits@.len() <= MAX_SHORTEST_DIGITS,
            leading < digits@.len(),
            forall|i: int| 0 <= i < leading ==> #[trigger] digits@[i] == 0,
        decreases digits@.len() - leading,
    {
        leading = leading + 1;
    }
    let mut kept: Vec<u8> = Vec::new();
    let mut i = leading;
    while i < digits.len()
        invariant
            leading <= i <= digits@.len(),
            is_digit_run(digits@),
            kept@ == digits@.subrange(leading as int, i as int),
        decreases digits@.len() - i,
    {
        kept.push(digits[i]);
        i = i + 1;
        assert(kept@ =~= digits@.subrange(leading as int, i as int));
    }
    proof {
        assert(kept@ =~= digits@.skip(leading as int));
        assert(digits@ =~= zero_run(leading as nat) + kept@);
        lemma_run_value_concat(zero_run(leading as nat), kept@);
        lemma_zero_run_value(leading as nat);
        assert(run_value(kept@) == run_value(digits@));
        assert(is_digit_run(kept@)) by {
            assert forall|j: int| 0 <= j < kept@.len() implies #[trigger] kept@[j] < 10 by {
                assert(kept@[j] == digits@[leading + j]);
            }
        }
        lemma_reads_back_positive(value, run_value(digits@), scale - digits@.len());
        if kept@[0] == 0 {
            assert(kept@.len() == 1);
            assert(kept@ =~= seq![0u8]);
            lemma_run_value_single(0u8);
            assert(false);
        }
        assert(scale - 1 - leading - kept@.len() + 1 == scale - digits@.len());
    }
    Ok(Some((kept, scale - 1 - leading as i32)))
}

/// The starting fraction `r / s == |x|` with the margins `plus` and `minus` half
/// the gaps to the neighbouring doubles: `r == 2 f plus == g f minus`.
fn shortest_start(value: Split) -> (res: Result<(BigNat, BigNat, BigNat, BigNat), FormatError>)
    requires
        split_ok(value),
    ensures
        match res {
            Ok((r, s, plus, minus)) => {
                &&& r.wf() && s.wf() && plus.wf() && minus.wf()
                &&& s@ > 0 && plus@ > 0
                &&& r@ == 2 * (value.significand as nat) * plus@
                &&& r@ == low_gap_factor(value) * (value.significand as nat) * minus@
                &&& r@ * scaled_den(value, 0) == s@ * scaled_num(value, 0)
            },
            Err(e) => e == FormatError::AllocationFailed,
        },
{
    let significand = value.significand;
    let binary_exponent = value.exponent;
    // At the bottom of a binade the predecessor is half an ulp closer than the
    // successor, unless the predecessor is subnormal and the spacing is unchanged.
    let narrow_below = significand == 0x10_0000_0000_0000 && binary_exponent != -1074;
    proof {
        vstd::arithmetic::power2::lemma2_to64();
        reveal_with_fuel(pow10, 1);
        assert(pos10(0) == 1 && neg10(0) == 1);
    }
    let ghost fv = significand as nat;
    if binary_exponent >= 0 {
        let shift = binary_exponent as u32;
        let ghost pe = pow2(shift as nat);
        proof {
            vstd::arithmetic::power2::lemma_pow2_unfold((shift + 1) as nat);
            vstd::arithmetic::power2::lemma_pow2_unfold((shift + 2) as nat);
            vstd::arithmetic::power2::lemma_pow2_pos(shift as nat);
        }
        if narrow_below {
            let r = BigNat::try_from_u64_shl(significand, shift + 2)?;
            let s = BigNat::try_from_u64_shl(4, 0)?;
            let plus = BigNat::try_pow2(shift + 1)?;
            let minus = BigNat::try_pow2(shift)?;
            proof {
                assert(r@ == 2 * fv * plus@ && r@ == 4 * fv * minus@ && r@ * (1 * 1) == s@ * (fv
                    * pe * 1)) by (nonlinear_arith)
                    requires
                        r@ == fv * pow2((shift + 2) as nat),
                        pow2((shift + 2) as nat) == 2 * pow2((shift + 1) as nat),
                        pow2((shift + 1) as nat) == 2 * pe,
                        plus@ == pow2((shift + 1) as nat),
                        minus@ == pe,
                        s@ == 4 * 1,
                ;
            }
            Ok((r, s, plus, minus))
        } else {
            let r = BigNat::try_from_u64_shl(significand, shift + 1)?;
            let s = BigNat::try_from_u64_shl(2, 0)?;
            let plus = BigNat::try_pow2(shift)?;
            let minus = BigNat::try_pow2(shift)?;
            proof {
                assert(r@ == 2 * fv * plus@ && r@ == 2 * fv * minus@ && r@ * (1 * 1) == s@ * (fv
                    * pe * 1)) by (nonlinear_arith)
                    requires
                        r@ == fv * pow2((shift + 1) as nat),
                        pow2((shift + 1) as nat) == 2 * pe,
                        plus@ == pe,
                        minus@ == pe,
                        s@ == 2 * 1,
                ;
            }
            Ok((r, s, plus, minus))
        }
    } else {
        let shift = (-binary_exponent) as u32;
        let ghost pe = pow2(shift as nat);
        proof {
            vstd::arithmetic::power2::lemma_pow2_unfold((shift + 1) as nat);
            vstd::arithmetic::power2::lemma_pow2_unfold((shift + 2) as nat);
            vstd::arithmetic::power2::lemma_pow2_pos(shift as nat);
        }
        if narrow_below {
            let r = BigNat::try_from_u64_shl(significand, 2)?;
            let s = BigNat::try_pow2(shift + 2)?;
            let plus = BigNat::try_from_u64_shl(2, 0)?;
            let minus = BigNat::try_from_u64_shl(1, 0)?;
            proof {
                assert(r@ == 2 * fv * plus@ && r@ == 4 * fv * minus@ && r@ * (pe * 1) == s@ * (fv
                    * 1 * 1)) by (nonlinear_arith)
                    requires
                        r@ == fv * 4,
                        s@ == pow2((shift + 2) as nat),
                        pow2((shift + 2) as nat) == 2 * pow2((shift + 1) as nat),
                        pow2((shift + 1) as nat) == 2 * pe,
                        plus@ == 2 * 1,
                        minus@ == 1 * 1,
                ;
            }
            Ok((r, s, plus, minus))
        } else {
            let r = BigNat::try_from_u64_shl(significand, 1)?;
            let s = BigNat::try_pow2(shift + 1)?;
            let plus = BigNat::try_from_u64_shl(1, 0)?;
            let minus = BigNat::try_from_u64_shl(1, 0)?;
            proof {
                assert(r@ == 2 * fv * plus@ && r@ == 2 * fv * minus@ && r@ * (pe * 1) == s@ * (fv
                    * 1 * 1)) by (nonlinear_arith)
                    requires
                        r@ == fv * 2,
                        s@ == pow2((shift + 1) as nat),
                        pow2((shift + 1) as nat) == 2 * pe,
                        plus@ == 1 * 1,
                        minus@ == 1 * 1,
                ;
            }
            Ok((r, s, plus, minus))
        }
    }
}


// ---------------------------------------------------------------------------
// Number::toString and toExponential
// ---------------------------------------------------------------------------

/// Base-10 `Number::toString` layout of shortest digits `d` led by place `e`:
/// positional for `n = e + 1` in `(-6, 21]`, exponential outside.
pub open spec fn number_pieces(d: Seq<u8>, e: int) -> Seq<Piece> {
    let n = e + 1;
    let k = d.len() as int;
    if k <= n && n <= 21 {
        seq![Piece::Text(digit_chars(d)), Piece::Fill('0', (n - k) as nat)]
    } else if 0 < n && n <= 21 {
        seq![
            Piece::Text(digit_chars(d.take(n))),
            Piece::Text(seq!['.']),
            Piece::Text(digit_chars(d.skip(n))),
        ]
    } else if -6 < n && n <= 0 {
        seq![
            Piece::Text(seq!['0', '.']),
            Piece::Fill('0', (-n) as nat),
            Piece::Text(digit_chars(d)),
        ]
    } else {
        exponential_pieces(d, e)
    }
}

/// What writing the unsigned body of `Number::toString` after `pre` reports:
/// `Infinity`, `0`, or the layout of the shortest digits.
pub open spec fn number_outcome(
    bits: u64,
    pre: Seq<char>,
    max: usize,
    res: Result<Seq<char>, FormatError>,
) -> bool {
    if is_infinite_bits(bits) {
        res == run_pieces(pre, seq![Piece::Text(infinity_text())], max)
    } else if split_of(bits) is None {
        res == run_pieces(pre, seq![Piece::Text(seq!['0'])], max)
    } else {
        res == Err::<Seq<char>, FormatError>(FormatError::AllocationFailed) || (MAX_SHORTEST_DIGITS
            > max && res == Err::<Seq<char>, FormatError>(
            FormatError::OutputLimit { requested: MAX_SHORTEST_DIGITS, maximum: max },
        )) || exists|d: Seq<u8>, e: int|
            #![trigger is_shortest_form(split_of(bits).unwrap(), d, e)]
            is_shortest_form(split_of(bits).unwrap(), d, e) && res == run_pieces(
                pre,
                number_pieces(d, e),
                max,
            )
    }
}

/// Appends the `Number::toString` layout of `d` and `e`.
fn push_number_layout(parts: &mut Vec<Part>, d: &Vec<u8>, e: i32)
    requires
        d@.len() >= 1,
        is_digit_run(d@),
        -20000 <= e <= 20000,
    ensures
        parts_view(final(parts)@) == parts_view(old(parts)@) + number_pieces(d@, e as int),
{
    let ghost start = parts_view(parts@);
    let n: i32 = e + 1;
    let k = d.len();
    if n >= 0 && (n as usize) >= k && n <= 21 {
        let all = digit_text(d, 0, k);
        assert(d@.subrange(0, k as int) =~= d@);
        push_part(parts, Part::Text(all));
        push_part(parts, Part::Fill('0', (n as usize) - k));
        assert(parts_view(parts@) =~= start + number_pieces(d@, e as int));
    } else if 0 < n && n <= 21 {
        let whole = n as usize;
        let head = digit_text(d, 0, whole);
        let tail = digit_text(d, whole, k);
        assert(d@.subrange(0, whole as int) =~= d@.take(n as int));
        assert(d@.subrange(whole as int, k as int) =~= d@.skip(n as int));
        let dot = vec!['.'];
        assert(dot@ =~= seq!['.']);
        push_part(parts, Part::Text(head));
        push_part(parts, Part::Text(dot));
        push_part(parts, Part::Text(tail));
        assert(parts_view(parts@) =~= start + number_pieces(d@, e as int));
    } else if -6 < n && n <= 0 {
        let lead = vec!['0', '.'];
        assert(lead@ =~= seq!['0', '.']);
        let all = digit_text(d, 0, k);
        assert(d@.subrange(0, k as int) =~= d@);
        push_part(parts, Part::Text(lead));
        push_part(parts, Part::Fill('0', (-n) as usize));
        push_part(parts, Part::Text(all));
        assert(parts_view(parts@) =~= start + number_pieces(d@, e as int));
    } else {
        push_exponential(parts, d, e);
    }
}

/// The unsigned body of `Number::toString`, shared with `toFixed`'s `1e21`
/// fallback so that the two cannot drift apart.
fn write_number(out: &mut Vec<char>, bits: u64, limits: &FormatLimits) -> (r: Result<
    (),
    FormatError,
>)
    requires
        utf8_len(old(out)@) <= limits.max_output_bytes,
    ensures
        number_outcome(bits, old(out)@, limits.max_output_bytes, written(r, final(out)@)),
{
    let max = limits.max_output_bytes;
    if infinite_bits(bits) {
        return write_one(out, infinity_chars(), max);
    }
    let (digits, exponent) = match shortest(bits, limits)? {
        None => {
            let zero = vec!['0'];
            assert(zero@ =~= seq!['0']);
            return write_one(out, zero, max);
        },
        Some(parts) => parts,
    };
    let mut parts: Vec<Part> = Vec::new();
    push_number_layout(&mut parts, &digits, exponent);
    assert(parts_view(parts@) =~= number_pieces(digits@, exponent as int));
    run_parts_from(out, &parts, max)
}

/// What `Number::toString` reports: `NaN`, or the sign and the body.
pub open spec fn number_to_string_outcome(bits: u64, max: usize, res: Result<String, FormatError>) -> bool {
    if is_nan_bits(bits) {
        reports(res, run_pieces(Seq::empty(), seq![Piece::Text(nan_text())], max))
    } else {
        match run_pieces(Seq::empty(), sign_pieces(bits), max) {
            Err(e) => res == Err::<String, FormatError>(e),
            Ok(pre) => number_outcome(bits, pre, max, text_of(res)),
        }
    }
}

/// Base-10 `Number::toString`: the shortest round-tripping decimal, in fixed
/// notation for magnitudes in `[1e-6, 1e21)` and exponential notation outside it.
pub fn number_to_string(bits: u64, limits: &FormatLimits) -> (res: Result<String, FormatError>)
    ensures
        number_to_string_outcome(bits, limits.max_output_bytes, res),
{
    let max = limits.max_output_bytes;
    let mut out: Vec<char> = Vec::new();
    proof {
        reveal_with_fuel(utf8_len, 1);
    }
    if nan_bits(bits) {
        write_one(&mut out, nan_chars(), max)?;
        return Ok(string_of(&out));
    }
    write_sign(&mut out, bits, max)?;
    let ghost pre = out@;
    let r = write_number(&mut out, bits, limits);
    let ghost body = written(r, out@);
    match r {
        Ok(()) => {
            let s = string_of(&out);
            assert(text_of(Ok(s)) == body);
            Ok(s)
        },
        Err(e) => {
            assert(text_of(Err(e)) == body);
            Err(e)
        },
    }
}

/// What `toExponential` reports: `NaN`; otherwise the sign, then `Infinity`,
/// or for a precision `p` a refused precision, the zero digits, or the exact
/// window of `p + 1` digits rounded half away from zero; without a precision the
/// shortest digits.
pub open spec fn to_exponential_outcome(
    bits: u64,
    precision: Option<u32>,
    max: usize,
    res: Result<String, FormatError>,
) -> bool {
    if is_nan_bits(bits) {
        reports(res, run_pieces(Seq::empty(), seq![Piece::Text(nan_text())], max))
    } else {
        match run_pieces(Seq::empty(), sign_pieces(bits), max) {
            Err(e) => res == Err::<String, FormatError>(e),
            Ok(pre) => if is_infinite_bits(bits) {
                reports(res, run_pieces(pre, seq![Piece::Text(infinity_text())], max))
            } else {
                match precision {
                    Some(p) => if p as int >= max {
                        res == Err::<String, FormatError>(
                            FormatError::OutputLimit { requested: p as usize, maximum: max },
                        )
                    } else if is_zero_bits(bits) {
                        reports(
                            res,
                            run_pieces(pre, exponential_pieces(zero_run(p as nat + 1), 0), max),
                        )
                    } else {
                        res == Err::<String, FormatError>(FormatError::AllocationFailed) || exists|
                            d: Seq<u8>,
                            e: int,
                            h: Half,
                            d2: Seq<u8>,
                            e2: int,
                        |
                            #![trigger is_window(split_of(bits).unwrap(), d, e, h), rounds_to(d, e, h, d2, e2)]
                            is_window(split_of(bits).unwrap(), d, e, h) && d.len() == p as nat + 1
                                && rounds_to(d, e, h, d2, e2) && reports(
                                res,
                                run_pieces(pre, exponential_pieces(d2, e2), max),
                            )
                    },
                    None => if is_zero_bits(bits) {
                        reports(res, run_pieces(pre, exponential_pieces(seq![0u8], 0), max))
                    } else {
                        res == Err::<String, FormatError>(FormatError::AllocationFailed) || (
                        MAX_SHORTEST_DIGITS > max && res == Err::<String, FormatError>(
                            FormatError::OutputLimit { requested: MAX_SHORTEST_DIGITS, maximum: max },
                        )) || exists|d: Seq<u8>, e: int|
                            #![trigger is_shortest_form(split_of(bits).unwrap(), d, e)]
                            is_shortest_form(split_of(bits).unwrap(), d, e) && reports(
                                res,
                                run_pieces(pre, exponential_pieces(d, e), max),
                            )
                    },
                }
            },
        }
    }
}

/// ECMAScript `Number.prototype.toExponential` on the double `bits` spells.
///
/// `None` selects the shortest round-tripping coefficient.
pub fn to_exponential(bits: u64, precision: Option<u32>, limits: &FormatLimits) -> (res: Result<
    String,
    FormatError,
>)
    ensures
        to_exponential_outcome(bits, precision, limits.max_output_bytes, res),
{
    let max = limits.max_output_bytes;
    let mut out: Vec<char> = Vec::new();
    proof {
        reveal_with_fuel(utf8_len, 1);
    }
    if nan_bits(bits) {
        write_one(&mut out, nan_chars(), max)?;
        return Ok(string_of(&out));
    }
    write_sign(&mut out, bits, max)?;
    if infinite_bits(bits) {
        write_one(&mut out, infinity_chars(), max)?;
        return Ok(string_of(&out));
    }
    let (digits, exponent) = match precision {
        Some(precision) => {
            check_precision(precision, limits)?;
            let count = precision as usize + 1;
            match split(bits) {
                None => (zero_digits(count, limits)?, 0i32),
                Some(value) => rounded_window(value, count, limits)?,
            }
        },
        None => match shortest(bits, limits)? {
            None => {
                let zero = vec![0u8];
                assert(zero@ =~= seq![0u8]);
                assert(is_digit_run(zero@)) by {
                    assert(zero@[0] == 0u8);
                }
                (zero, 0i32)
            },
            Some(parts) => parts,
        },
    };
    let mut parts: Vec<Part> = Vec::new();
    push_exponential(&mut parts, &digits, exponent);
    assert(parts_view(parts@) =~= exponential_pieces(digits@, exponent as int));
    run_parts_from(&mut out, &parts, max)?;
    Ok(string_of(&out))
}


// ---------------------------------------------------------------------------
// toFixed
// ---------------------------------------------------------------------------

/// The integer `n` for which `n / 10^p` is closest to `|x|`, an exact tie going
/// to the larger: `floor(|x| * 10^p + 1/2)`.
pub open spec fn fixed_int(v: Split, p: nat) -> nat {
    let num = scaled_num(v, -(p as int));
    let den = scaled_den(v, -(p as int));
    (2 * num + den) / (2 * den)
}

/// Whether `|x| >= 1e21`, where `toFixed` hands over to `Number::toString`.
pub open spec fn at_least_1e21(v: Split) -> bool {
    scaled_num(v, 21) >= scaled_den(v, 21)
}

/// ECMAScript's `toFixed` layout of the digits `t` of `n`: padded with leading
/// zeros to at least `p + 1` digits, with the point before the last `p`.
pub open spec fn fixed_pieces(t: Seq<char>, p: nat) -> Seq<Piece> {
    let len = t.len();
    let whole: nat = if len > p {
        (len - p) as nat
    } else {
        0
    };
    seq![
        Piece::Fill('0', if whole == 0 { 1 } else { 0 }),
        Piece::Text(t.take(whole as int)),
    ] + if p > 0 {
        seq![
            Piece::Text(seq!['.']),
            Piece::Fill('0', if p > len { (p - len) as nat } else { 0 }),
            Piece::Text(t.skip(whole as int)),
        ]
    } else {
        Seq::empty()
    }
}

/// What `toFixed` reports: `NaN`; otherwise the sign, then `Infinity`,
/// `Number::toString` from `1e21` up, a refused precision, or the digits of
/// [`fixed_int`] laid out with `p` fraction digits.
pub open spec fn to_fixed_outcome(
    bits: u64,
    precision: u32,
    max: usize,
    res: Result<String, FormatError>,
) -> bool {
    if is_nan_bits(bits) {
        reports(res, run_pieces(Seq::empty(), seq![Piece::Text(nan_text())], max))
    } else {
        match run_pieces(Seq::empty(), sign_pieces(bits), max) {
            Err(e) => res == Err::<String, FormatError>(e),
            Ok(pre) => if is_infinite_bits(bits) {
                reports(res, run_pieces(pre, seq![Piece::Text(infinity_text())], max))
            } else if split_of(bits) is Some && res == Err::<String, FormatError>(
                FormatError::AllocationFailed,
            ) {
                true
            } else if split_of(bits) is Some && at_least_1e21(split_of(bits).unwrap()) {
                number_outcome(bits, pre, max, text_of(res))
            } else if precision as int >= max {
                res == Err::<String, FormatError>(
                    FormatError::OutputLimit { requested: precision as usize, maximum: max },
                )
            } else if split_of(bits) is None {
                reports(res, run_pieces(pre, fixed_pieces(seq!['0'], precision as nat), max))
            } else {
                let out = run_pieces(
                    pre,
                    fixed_pieces(dec(fixed_int(split_of(bits).unwrap(), precision as nat)), precision as nat),
                    max,
                );
                text_of(res) == out || res == Err::<String, FormatError>(FormatError::AllocationFailed)
                    || (out is Err && refuses_over_budget(res, max))
            },
        }
    }
}

/// The tracked fraction read at another place: `r0 / s0 == |x| / 10^e` gives
/// `|x| / 10^k` for every `k`.
proof fn lemma_track_shift(v: Split, r0: nat, s0: nat, e: int, k: int)
    requires
        split_ok(v),
        s0 > 0,
        r0 * scaled_den(v, e) == s0 * scaled_num(v, e),
    ensures
        k <= e ==> scaled_num(v, k) * s0 == r0 * scaled_den(v, k) * pow10((e - k) as nat),
        k >= e ==> scaled_num(v, k) * s0 * pow10((k - e) as nat) == r0 * scaled_den(v, k),
{
    lemma_scaled_pos(v, e);
    lemma_scaled_pos(v, k);
    let a = pow2(if v.exponent < 0 { (-v.exponent) as nat } else { 0 });
    let b = v.significand as nat * pow2(if v.exponent >= 0 { v.exponent as nat } else { 0 });
    let nume = scaled_num(v, e);
    let dene = scaled_den(v, e);
    let numk = scaled_num(v, k);
    let denk = scaled_den(v, k);
    if k <= e {
        lemma_shift10(k, e);
        let p = pow10((e - k) as nat);
        assert(numk * dene == nume * denk * p) by (nonlinear_arith)
            requires
                numk == b * neg10(k),
                denk == a * pos10(k),
                nume == b * neg10(e),
                dene == a * pos10(e),
                neg10(k) * pos10(e) == neg10(e) * pos10(k) * p,
        ;
        assert(numk * s0 * dene == r0 * denk * p * dene) by (nonlinear_arith)
            requires
                numk * dene == nume * denk * p,
                r0 * dene == s0 * nume,
        ;
        assert(numk * s0 == r0 * denk * p) by (nonlinear_arith)
            requires
                numk * s0 * dene == r0 * denk * p * dene,
                dene > 0,
        ;
    }
    if k >= e {
        lemma_shift10(e, k);
        let p = pow10((k - e) as nat);
        assert(nume * denk == numk * dene * p) by (nonlinear_arith)
            requires
                numk == b * neg10(k),
                denk == a * pos10(k),
                nume == b * neg10(e),
                dene == a * pos10(e),
                neg10(e) * pos10(k) == neg10(k) * pos10(e) * p,
        ;
        assert(numk * s0 * p * dene == r0 * denk * dene) by (nonlinear_arith)
            requires
                nume * denk == numk * dene * p,
                r0 * dene == s0 * nume,
        ;
        assert(numk * s0 * p == r0 * denk) by (nonlinear_arith)
            requires
                numk * s0 * p * dene == r0 * denk * dene,
                dene > 0,
        ;
    }
}

/// Rounding a window half away from zero is `floor(value + 1/2)`.
proof fn lemma_round_int(n: nat, num: nat, den: nat, h: Half)
    requires
        den > 0,
        n * den <= num,
        num < n * den + den,
        h == half_of(compare_values((2 * (num - n * den)) as nat, den)),
    ensures
        (2 * num + den) / (2 * den) == (if h == Half::Below { n } else { n + 1 }),
{
    let x = num - n * den;
    assert(num - n * den < den);
    let q: int = if h == Half::Below { n as int } else { n + 1int };
    assert(q * (2 * den) <= 2 * num + den < (q + 1) * (2 * den)) by (nonlinear_arith)
        requires
            x == num - n * den,
            0 <= x < den,
            h == Half::Below ==> 2 * x < den,
            h != Half::Below ==> 2 * x >= den,
            q == (if h == Half::Below { n as int } else { n + 1int }),
    ;
    vstd::arithmetic::div_mod::lemma_fundamental_div_mod((2 * num + den) as int, (2 * den) as int);
    let d = (2 * num + den) / (2 * den);
    let m = (2 * num + den) % (2 * den);
    assert(d == q) by (nonlinear_arith)
        requires
            2 * num + den == (2 * den) * d + m,
            0 <= m < 2 * den,
            q * (2 * den) <= 2 * num + den < (q + 1) * (2 * den),
    ;
}

/// A digit run whose value reaches `10^(len - 1)` does not lead with a zero.
proof fn lemma_leading_digit(d: Seq<u8>)
    requires
        d.len() >= 1,
        is_digit_run(d),
        run_value(d) >= pow10((d.len() - 1) as nat),
    ensures
        d[0] != 0,
{
    let rest = d.skip(1);
    assert(seq![d[0]] + rest =~= d);
    lemma_run_value_concat(seq![d[0]], rest);
    assert(is_digit_run(rest)) by {
        assert forall|i: int| 0 <= i < rest.len() implies #[trigger] rest[i] < 10 by {
            assert(rest[i] == d[i + 1]);
        }
    }
    lemma_run_value_bound(rest);
    lemma_run_value_single(d[0]);
    if d[0] == 0 {
        assert(run_value(d) == 0 * pow10(rest.len()) + run_value(rest));
    }
}

/// Without a leading zero, the characters of a digit run are the decimal
/// spelling of its value.
proof fn lemma_digit_chars_dec(d: Seq<u8>)
    requires
        d.len() >= 1,
        is_digit_run(d),
        d.len() == 1 || d[0] != 0,
    ensures
        digit_chars(d) == dec(run_value(d)),
    decreases d.len(),
{
    if d.len() == 1 {
        assert(d =~= seq![d[0]]);
        lemma_run_value_single(d[0]);
        assert(run_value(d) == d[0] as nat);
        assert(digit_chars(d) =~= seq![digit_char(d[0] as nat)]);
    } else {
        let d1 = d.drop_last();
        assert(is_digit_run(d1)) by {
            assert forall|i: int| 0 <= i < d1.len() implies #[trigger] d1[i] < 10 by {
                assert(d1[i] == d[i]);
            }
        }
        assert(d1[0] == d[0]);
        lemma_digit_chars_dec(d1);
        // The value reaches ten, so `dec` peels off the last digit.
        let rest = d.skip(1);
        assert(seq![d[0]] + rest =~= d);
        lemma_run_value_concat(seq![d[0]], rest);
        lemma_run_value_single(d[0]);
        lemma_pow10_pos(rest.len());
        assert(rest.len() >= 1);
        assert(pow10(rest.len()) >= 10) by {
            lemma_pow10_pos((rest.len() - 1) as nat);
        }
        assert(run_value(d) >= 10) by (nonlinear_arith)
            requires
                run_value(d) == d[0] * pow10(rest.len()) + run_value(rest),
                d[0] >= 1,
                pow10(rest.len()) >= 10,
        ;
        let n = run_value(d);
        assert(d.last() < 10) by {
            assert(d[d.len() - 1] < 10);
        }
        assert(n / 10 == run_value(d1) && n % 10 == d.last() as nat) by (nonlinear_arith)
            requires
                n == run_value(d1) * 10 + d.last() as nat,
                d.last() < 10,
        ;
        assert(digit_chars(d) =~= digit_chars(d1).push(digit_char(d.last() as nat)));
    }
}

/// `|x| >= 1e21`, decided exactly.
fn at_least_1e21_exec(value: Split) -> (r: Result<bool, FormatError>)
    requires
        split_ok(value),
    ensures
        match r {
            Ok(b) => b == at_least_1e21(value),
            Err(e) => e == FormatError::AllocationFailed,
        },
{
    let up: u32 = if value.exponent >= 0 {
        value.exponent as u32
    } else {
        0
    };
    let down: u32 = if value.exponent < 0 {
        (-value.exponent) as u32
    } else {
        0
    };
    let a = BigNat::try_from_u64_shl(value.significand, up)?;
    let mut b = BigNat::try_pow2(down)?;
    b.try_mul_pow10(21)?;
    proof {
        assert(neg10(21) == 1);
        assert(pos10(21) == pow10(21));
    }
    Ok(!less_than(&a, &b))
}

/// Copies a digit run and appends one zero: ten times its value.
fn times_ten(digits: &Vec<u8>, limits: &FormatLimits) -> (r: Result<Vec<u8>, FormatError>)
    ensures
        digits@.len() + 1 <= limits.max_output_bytes ==> (r matches Ok(v) && v@ == digits@.push(
            0u8,
        )),
        match r {
            Ok(v) => v@ == digits@.push(0u8),
            Err(e) => e == FormatError::AllocationFailed || (digits@.len() + 1
                > limits.max_output_bytes && e == FormatError::OutputLimit {
                requested: (digits@.len() + 1) as usize,
                maximum: limits.max_output_bytes,
            }),
        },
{
    let requested = match digits.len().checked_add(1) {
        Some(n) => n,
        None => {
            return Err(FormatError::AllocationFailed);
        },
    };
    let mut carried = digit_vec(requested, limits)?;
    let mut i: usize = 0;
    while i < digits.len()
        invariant
            i <= digits@.len(),
            carried@ == digits@.take(i as int),
        decreases digits@.len() - i,
    {
        carried.push(digits[i]);
        i = i + 1;
        assert(carried@ =~= digits@.take(i as int));
    }
    carried.push(0);
    assert(carried@ =~= digits@.push(0u8));
    Ok(carried)
}


/// A number of at least `10^m` takes at least `m + 1` digits.
proof fn lemma_dec_len(n: nat, m: nat)
    requires
        n >= pow10(m),
    ensures
        dec(n).len() >= m + 1,
    decreases m,
{
    crate::text::lemma_dec_facts(n);
    if m > 0 {
        lemma_pow10_pos((m - 1) as nat);
        assert(n >= 10);
        assert(n / 10 >= pow10((m - 1) as nat)) by (nonlinear_arith)
            requires
                n >= 10 * pow10((m - 1) as nat),
        ;
        lemma_dec_len(n / 10, (m - 1) as nat);
        assert(dec(n) == dec(n / 10).push(digit_char(n % 10)));
    }
}

/// The digits of [`fixed_int`] for a finite non-zero magnitude below `1e21`,
/// without leading zeros; nothing at all for zero.
fn fixed_digits(value: Split, precision: u32, limits: &FormatLimits) -> (r: Result<
    Vec<u8>,
    FormatError,
>)
    requires
        split_ok(value),
    ensures
        match r {
            Ok(d) => (d@.len() == 0 && fixed_int(value, precision as nat) == 0) || (1 <= d@.len()
                && is_digit_run(d@) && d@[0] != 0 && run_value(d@) == fixed_int(
                value,
                precision as nat,
            )),
            Err(e) => e == FormatError::AllocationFailed || (e matches FormatError::OutputLimit {
                requested,
                maximum,
            } && maximum == limits.max_output_bytes && maximum < requested && requested <= dec(
                fixed_int(value, precision as nat),
            ).len()),
        },
{
    let mut generator = Generator::new(value)?;
    let ghost r0 = generator.r@;
    let ghost s0 = generator.s@;
    let ghost e0 = generator.exponent as int;
    let ghost p = precision as nat;
    let ghost k = -(p as int);
    let ghost num = scaled_num(value, k);
    let ghost den = scaled_den(value, k);
    let ghost n = fixed_int(value, p);
    proof {
        lemma_scaled_pos(value, k);
        lemma_track_shift(value, r0, s0, e0, k);
    }
    let count: i64 = generator.exponent as i64 + precision as i64 + 1;
    if count > 0 {
        if count as u64 >= usize::MAX as u64 {
            return Err(FormatError::AllocationFailed);
        }
        let c = count as usize;
        proof {
            // `|x| * 10^p` is at least `10^(count - 1)`, so its rounding has at least
            // `count` digits.
            let q = pow10((e0 - k) as nat);
            assert((e0 - k) as nat == (c - 1) as nat);
            assert(num >= q * den) by (nonlinear_arith)
                requires
                    num * s0 == r0 * den * q,
                    s0 <= r0,
                    s0 > 0,
            ;
            assert(n >= q) by (nonlinear_arith)
                requires
                    n == (2 * num + den) / (2 * den),
                    num >= q * den,
                    den > 0,
            ;
            lemma_dec_len(n, (c - 1) as nat);
        }
        let (mut digits, half) = generator.take(c, limits)?;
        let ghost window = digits@;
        proof {
            lemma_window(value, r0, s0, e0, digits@, generator.r@, half);
            assert(e0 - digits@.len() + 1 == k);
            let w = run_value(window);
            assert(num < w * den + den) by (nonlinear_arith)
                requires
                    num < (w + 1) * den,
            ;
            lemma_round_int(w, num, den, half);
        }
        if round_half_away(digits.as_mut_slice(), half) {
            proof {
                lemma_dec_len(n, c as nat);
            }
            let carried = times_ten(&digits, limits)?;
            proof {
                assert(carried@ =~= leading_one((c + 1) as nat));
                lemma_leading_one_value((c + 1) as nat);
                assert(is_digit_run(carried@)) by {
                    assert forall|i: int| 0 <= i < carried@.len() implies #[trigger] carried@[i]
                        < 10 by {
                        assert(carried@[i] == leading_one((c + 1) as nat)[i]);
                    }
                }
            }
            return Ok(carried);
        }
        proof {
            if half != Half::Below {
                lemma_leading_digit(digits@);
            } else {
                lemma_leading_digit(digits@);
            }
        }
        return Ok(digits);
    }
    if count == 0 {
        let ghost r1 = generator.r@;
        let half = generator.half_before_first_digit()?;
        proof {
            assert(k == e0 + 1);
            assert(pow10(1) == 10) by {
                reveal_with_fuel(pow10, 2);
            }
            assert(num * s0 * 10 == r0 * den);
            assert(num < den) by (nonlinear_arith)
                requires
                    num * s0 * 10 == r0 * den,
                    r0 < 10 * s0,
                    s0 > 0,
                    den > 0,
            ;
            assert(compare_values(2 * num, den) == compare_values(2 * r0, 10 * s0)) by (
            nonlinear_arith)
                requires
                    num * s0 * 10 == r0 * den,
                    s0 > 0,
                    den > 0,
            ;
            assert(0 * den == 0);
            assert(2 * (num - 0 * den) == 2 * num);
            lemma_round_int(0, num, den, half);
        }
        if half != Half::Below {
            let one = vec![1u8];
            proof {
                assert(one@ =~= seq![1u8]);
                lemma_run_value_single(1u8);
                assert(is_digit_run(one@)) by {
                    assert(one@[0] == 1u8);
                }
            }
            return Ok(one);
        }
        return Ok(Vec::new());
    }
    proof {
        let j = (k - e0) as nat;
        assert(j >= 2);
        lemma_pow10_pos((j - 2) as nat);
        lemma_pow10_add(2, (j - 2) as nat);
        assert(pow10(2) == 100) by {
            reveal_with_fuel(pow10, 3);
        }
        assert(pow10(j) >= 100) by (nonlinear_arith)
            requires
                pow10(j) == pow10(2) * pow10((j - 2) as nat),
                pow10(2) == 100,
                pow10((j - 2) as nat) >= 1,
        ;
        assert(2 * num < den) by (nonlinear_arith)
            requires
                num * s0 * pow10(j) == r0 * den,
                pow10(j) >= 100,
                r0 < 10 * s0,
                s0 > 0,
                den > 0,
        ;
        assert(num < den);
        assert(0 * den == 0);
        assert(2 * (num - 0 * den) == 2 * num);
        assert(compare_values(2 * num, den) == Comparison::Less);
        lemma_round_int(0, num, den, Half::Below);
    }
    Ok(Vec::new())
}


fn copy_chars(t: &Vec<char>, from: usize, to: usize) -> (v: Vec<char>)
    requires
        from <= to <= t@.len(),
    ensures
        v@ == t@.subrange(from as int, to as int),
{
    let mut v: Vec<char> = Vec::new();
    let mut i = from;
    while i < to
        invariant
            from <= i <= to,
            to <= t@.len(),
            v@ == t@.subrange(from as int, i as int),
        decreases to - i,
    {
        v.push(t[i]);
        i = i + 1;
        assert(v@ =~= t@.subrange(from as int, i as int));
    }
    v
}

/// Appends the `toFixed` layout of the digits `t` with `p` fraction digits.
fn push_fixed_layout(parts: &mut Vec<Part>, t: &Vec<char>, p: u32)
    ensures
        parts_view(final(parts)@) == parts_view(old(parts)@) + fixed_pieces(t@, p as nat),
{
    let ghost start = parts_view(parts@);
    let len = t.len();
    let pu = p as usize;
    let whole = if len > pu {
        len - pu
    } else {
        0
    };
    let head = copy_chars(t, 0, whole);
    assert(t@.subrange(0, whole as int) =~= t@.take(whole as int));
    push_part(parts, Part::Fill('0', if whole == 0 { 1 } else { 0 }));
    push_part(parts, Part::Text(head));
    if p > 0 {
        let dot = vec!['.'];
        assert(dot@ =~= seq!['.']);
        let tail = copy_chars(t, whole, len);
        assert(t@.subrange(whole as int, len as int) =~= t@.skip(whole as int));
        push_part(parts, Part::Text(dot));
        push_part(parts, Part::Fill('0', if pu > len { pu - len } else { 0 }));
        push_part(parts, Part::Text(tail));
    }
    assert(parts_view(parts@) =~= start + fixed_pieces(t@, p as nat));
}

/// The `toFixed` layout writes every digit it is given.
proof fn lemma_fixed_text_len(t: Seq<char>, p: nat)
    ensures
        utf8_len(pieces_chars(fixed_pieces(t, p))) >= t.len(),
{
    let len = t.len();
    let whole: nat = if len > p {
        (len - p) as nat
    } else {
        0
    };
    let ps = fixed_pieces(t, p);
    let z1 = piece_chars(ps[0]);
    reveal_with_fuel(pieces_chars, 6);
    lemma_utf8_len_at_least(t);
    if p > 0 {
        assert(ps.skip(1).skip(1).skip(1).skip(1).skip(1) =~= Seq::<Piece>::empty());
        let all = pieces_chars(ps);
        let c2 = piece_chars(ps[1]);
        let c3 = piece_chars(ps[2]);
        let c4 = piece_chars(ps[3]);
        let c5 = piece_chars(ps[4]);
        assert(ps.skip(1)[0] == ps[1]);
        assert(ps.skip(1).skip(1)[0] == ps[2]);
        assert(ps.skip(1).skip(1).skip(1)[0] == ps[3]);
        assert(ps.skip(1).skip(1).skip(1).skip(1)[0] == ps[4]);
        assert(all =~= z1 + (c2 + (c3 + (c4 + (c5 + Seq::empty())))));
        assert(c5 + Seq::<char>::empty() =~= c5);
        lemma_utf8_len_add(z1, c2 + (c3 + (c4 + c5)));
        lemma_utf8_len_add(c2, c3 + (c4 + c5));
        lemma_utf8_len_add(c3, c4 + c5);
        lemma_utf8_len_add(c4, c5);
        assert(t.take(whole as int) + t.skip(whole as int) =~= t);
        lemma_utf8_len_add(t.take(whole as int), t.skip(whole as int));
    } else {
        assert(ps.skip(1).skip(1) =~= Seq::<Piece>::empty());
        let all = pieces_chars(ps);
        let c2 = piece_chars(ps[1]);
        assert(ps.skip(1)[0] == ps[1]);
        assert(all =~= z1 + (c2 + Seq::empty()));
        assert(c2 + Seq::<char>::empty() =~= c2);
        lemma_utf8_len_add(z1, c2);
        assert(t.take(whole as int) =~= t);
    }
}

/// ECMAScript `Number.prototype.toFixed` on the double `bits` spells.
///
/// The `1e21` switch is part of `toFixed` itself: from that magnitude up it
/// returns `Number::toString`.
pub fn to_fixed(bits: u64, precision: u32, limits: &FormatLimits) -> (res: Result<String, FormatError>)
    ensures
        to_fixed_outcome(bits, precision, limits.max_output_bytes, res),
{
    let max = limits.max_output_bytes;
    let mut out: Vec<char> = Vec::new();
    proof {
        reveal_with_fuel(utf8_len, 1);
    }
    if nan_bits(bits) {
        write_one(&mut out, nan_chars(), max)?;
        return Ok(string_of(&out));
    }
    write_sign(&mut out, bits, max)?;
    let ghost pre = out@;
    if infinite_bits(bits) {
        write_one(&mut out, infinity_chars(), max)?;
        return Ok(string_of(&out));
    }
    let magnitude = split(bits);
    if let Some(value) = magnitude {
        if at_least_1e21_exec(value)? {
            let r = write_number(&mut out, bits, limits);
            let ghost body = written(r, out@);
            match r {
                Ok(()) => {
                    let s = string_of(&out);
                    assert(text_of(Ok(s)) == body);
                    return Ok(s);
                },
                Err(e) => {
                    assert(text_of(Err(e)) == body);
                    return Err(e);
                },
            }
        }
    }
    check_precision(precision, limits)?;
    let mut scaled: Vec<u8> = match magnitude {
        None => Vec::new(),
        Some(value) => match fixed_digits(value, precision, limits) {
            Ok(d) => d,
            Err(e) => {
                proof {
                    if e matches FormatError::OutputLimit { .. } {
                        let t = dec(fixed_int(value, precision as nat));
                        let ps = fixed_pieces(t, precision as nat);
                        lemma_run_pieces_ok(pre, ps, max);
                        lemma_run_pieces_within(pre, ps, max);
                        lemma_fixed_text_len(t, precision as nat);
                        if run_pieces(pre, ps, max) is Ok {
                            lemma_utf8_len_add(pre, pieces_chars(ps));
                            assert(false);
                        }
                    }
                }
                return Err(e);
            },
        },
    };
    if scaled.len() == 0 {
        scaled.push(0);
        proof {
            assert(scaled@ =~= seq![0u8]);
            lemma_run_value_single(0u8);
        }
    }
    let ghost n: nat = match magnitude {
        None => 0,
        Some(value) => fixed_int(value, precision as nat),
    };
    proof {
        assert(is_digit_run(scaled@)) by {
            if scaled@ == seq![0u8] {
                assert(scaled@[0] == 0u8);
            }
        }
        lemma_digit_chars_dec(scaled@);
        crate::text::lemma_dec_facts(0);
    }
    let text = digit_text(&scaled, 0, scaled.len());
    assert(scaled@.subrange(0, scaled@.len() as int) =~= scaled@);
    assert(text@ == dec(n));
    let mut parts: Vec<Part> = Vec::new();
    push_fixed_layout(&mut parts, &text, precision);
    assert(parts_view(parts@) =~= fixed_pieces(dec(n), precision as nat));
    run_parts_from(&mut out, &parts, max)?;
    Ok(string_of(&out))
}


// ---------------------------------------------------------------------------
// Radix conversion
// ---------------------------------------------------------------------------

/// The character for digit `d` of a radix up to 36: `0-9`, then `a-z`.
pub open spec fn radix_digit_char(d: nat) -> char {
    if d < 10 {
        digit_char(d)
    } else if d == 10 {
        'a'
    } else if d == 11 {
        'b'
    } else if d == 12 {
        'c'
    } else if d == 13 {
        'd'
    } else if d == 14 {
        'e'
    } else if d == 15 {
        'f'
    } else if d == 16 {
        'g'
    } else if d == 17 {
        'h'
    } else if d == 18 {
        'i'
    } else if d == 19 {
        'j'
    } else if d == 20 {
        'k'
    } else if d == 21 {
        'l'
    } else if d == 22 {
        'm'
    } else if d == 23 {
        'n'
    } else if d == 24 {
        'o'
    } else if d == 25 {
        'p'
    } else if d == 26 {
        'q'
    } else if d == 27 {
        'r'
    } else if d == 28 {
        's'
    } else if d == 29 {
        't'
    } else if d == 30 {
        'u'
    } else if d == 31 {
        'v'
    } else if d == 32 {
        'w'
    } else if d == 33 {
        'x'
    } else if d == 34 {
        'y'
    } else if d == 35 {
        'z'
    } else {
        'z'
    }
}

/// The spelling of `n` in base `radix`, most significant digit first.
pub open spec fn radix_text(n: nat, radix: nat) -> Seq<char>
    recommends
        radix >= 2,
    decreases n,
{
    if radix < 2 || n < radix {
        seq![radix_digit_char(n)]
    } else {
        proof {
            assert(n / radix < n) by (nonlinear_arith)
                requires
                    radix >= 2,
                    n >= radix,
            ;
        }
        radix_text(n / radix, radix).push(radix_digit_char(n % radix))
    }
}

/// The integer part of `|x|`.
pub open spec fn integer_part(v: Split) -> nat {
    if v.exponent >= 0 {
        v.significand as nat * pow2(v.exponent as nat)
    } else {
        v.significand as nat / pow2((-v.exponent) as nat)
    }
}

fn radix_char(d: u32) -> (c: char)
    requires
        d < 36,
    ensures
        c == radix_digit_char(d as nat),
{
    if d < 10 {
        char_of_digit(d)
    } else if d == 10 {
        'a'
    } else if d == 11 {
        'b'
    } else if d == 12 {
        'c'
    } else if d == 13 {
        'd'
    } else if d == 14 {
        'e'
    } else if d == 15 {
        'f'
    } else if d == 16 {
        'g'
    } else if d == 17 {
        'h'
    } else if d == 18 {
        'i'
    } else if d == 19 {
        'j'
    } else if d == 20 {
        'k'
    } else if d == 21 {
        'l'
    } else if d == 22 {
        'm'
    } else if d == 23 {
        'n'
    } else if d == 24 {
        'o'
    } else if d == 25 {
        'p'
    } else if d == 26 {
        'q'
    } else if d == 27 {
        'r'
    } else if d == 28 {
        's'
    } else if d == 29 {
        't'
    } else if d == 30 {
        'u'
    } else if d == 31 {
        'v'
    } else if d == 32 {
        'w'
    } else if d == 33 {
        'x'
    } else if d == 34 {
        'y'
    } else {
        'z'
    }
}

/// What `Math.round(x).toString(radix)` reports, given the bits of the rounded
/// value: `NaN`; otherwise the sign, then `Infinity`, or the integer part in
/// base `radix`, refused when its bit length alone is over the limit.
pub open spec fn radix_outcome(bits: u64, radix: nat, max: usize, res: Result<String, FormatError>) -> bool {
    if is_nan_bits(bits) {
        reports(res, run_pieces(Seq::empty(), seq![Piece::Text(nan_text())], max))
    } else {
        match run_pieces(Seq::empty(), sign_pieces(bits), max) {
            Err(e) => res == Err::<String, FormatError>(e),
            Ok(pre) => if is_infinite_bits(bits) {
                reports(res, run_pieces(pre, seq![Piece::Text(infinity_text())], max))
            } else if split_of(bits) is None {
                reports(res, run_pieces(pre, seq![Piece::Text(seq!['0'])], max))
            } else if integer_part(split_of(bits).unwrap()) == 0 {
                res == Err::<String, FormatError>(FormatError::AllocationFailed) || reports(
                    res,
                    run_pieces(pre, seq![Piece::Text(seq!['0'])], max),
                )
            } else {
                let n = integer_part(split_of(bits).unwrap());
                res == Err::<String, FormatError>(FormatError::AllocationFailed) || (n >= pow2(
                    max as nat,
                ) && refused_bit_length(res, n, max)) || (n < pow2(max as nat) && reports(
                    res,
                    run_pieces(pre, seq![Piece::Text(radix_text(n, radix))], max),
                ))
            },
        }
    }
}

/// `res` is a refusal naming the budget `max` and a size over it.
pub open spec fn refuses_over_budget(res: Result<String, FormatError>, max: usize) -> bool {
    match res {
        Err(FormatError::OutputLimit { requested, maximum }) => maximum == max && requested > max,
        _ => false,
    }
}

/// `res` refuses `n` for its bit length, which is over `max`.
pub open spec fn refused_bit_length(res: Result<String, FormatError>, n: nat, max: usize) -> bool {
    match res {
        Err(FormatError::OutputLimit { requested, maximum }) => maximum == max && requested > max
            && pow2((requested - 1) as nat) <= n < pow2(requested as nat),
        _ => false,
    }
}

proof fn lemma_radix_step(n: nat, radix: nat)
    requires
        radix >= 2,
        n > 0,
    ensures
        n / radix > 0 ==> radix_text(n, radix) == radix_text(n / radix, radix).push(
            radix_digit_char(n % radix),
        ),
        n / radix == 0 ==> radix_text(n, radix) == seq![radix_digit_char(n % radix)],
{
    if n < radix {
        assert(n / radix == 0) by (nonlinear_arith)
            requires
                n < radix,
                radix >= 2,
        ;
        assert(n % radix == n) by (nonlinear_arith)
            requires
                n < radix,
                radix >= 2,
        ;
    } else {
        assert(n / radix > 0) by (nonlinear_arith)
            requires
                n >= radix,
                radix >= 2,
        ;
    }
}

/// The bits a digit of a power-of-two radix carries; zero for other radices.
fn radix_width(radix: u32) -> (w: u32)
    ensures
        w > 0 ==> pow2(w as nat) == radix && w <= 5,
        w == 0 <==> !(radix == 2 || radix == 4 || radix == 8 || radix == 16 || radix == 32),
{
    proof {
        vstd::arithmetic::power2::lemma2_to64();
    }
    if radix == 2 {
        1
    } else if radix == 4 {
        2
    } else if radix == 8 {
        3
    } else if radix == 16 {
        4
    } else if radix == 32 {
        5
    } else {
        0
    }
}

/// `Math.round(x).toString(radix)`.
///
/// The expansion is exact. For the radices d3 reaches (2, 8 and 16) that is
/// also what V8 produces; V8 stops short of the exact digits for other radices.
pub fn round_to_string_radix(bits: u64, radix: u32, limits: &FormatLimits) -> (res: Result<
    String,
    FormatError,
>)
    requires
        2 <= radix <= 36,
    ensures
        radix_outcome(js_round_bits(bits), radix as nat, limits.max_output_bytes, res),
{
    integer_to_string_radix(js_round_nonnegative(bits), radix, limits)
}

/// The integer part of the value `bits` denotes, in `radix`, with the sign and
/// the non-finite spellings of `Number::toString`.
fn integer_to_string_radix(bits: u64, radix: u32, limits: &FormatLimits) -> (res: Result<
    String,
    FormatError,
>)
    requires
        2 <= radix <= 36,
    ensures
        radix_outcome(bits, radix as nat, limits.max_output_bytes, res),
{
    let max = limits.max_output_bytes;
    let mut out: Vec<char> = Vec::new();
    proof {
        reveal_with_fuel(utf8_len, 1);
    }
    if nan_bits(bits) {
        write_one(&mut out, nan_chars(), max)?;
        return Ok(string_of(&out));
    }
    write_sign(&mut out, bits, max)?;
    if infinite_bits(bits) {
        write_one(&mut out, infinity_chars(), max)?;
        return Ok(string_of(&out));
    }
    let zero = vec!['0'];
    assert(zero@ =~= seq!['0']);
    let value = match split(bits) {
        None => {
            write_one(&mut out, zero, max)?;
            return Ok(string_of(&out));
        },
        Some(value) => value,
    };
    let mut integer = if value.exponent >= 0 {
        BigNat::try_from_u64_shl(value.significand, value.exponent as u32)?
    } else {
        let mut shifted = BigNat::try_from_u64_shl(value.significand, 0)?;
        shifted.shr_assign((-value.exponent) as u32);
        shifted
    };
    proof {
        vstd::arithmetic::power2::lemma2_to64();
        assert(integer@ == integer_part(value));
    }
    if integer.is_zero() {
        write_one(&mut out, zero, max)?;
        return Ok(string_of(&out));
    }
    let ghost n0 = integer@;
    let bit_len = integer.bit_len();
    proof {
        if n0 >= pow2(max as nat) {
            if bit_len <= max {
                if bit_len < max {
                    vstd::arithmetic::power2::lemma_pow2_strictly_increases(bit_len as nat, max as nat);
                }
                assert(false);
            }
        } else {
            if bit_len > max {
                if (bit_len - 1) as nat > max {
                    vstd::arithmetic::power2::lemma_pow2_strictly_increases(max as nat, (bit_len - 1) as nat);
                }
                assert(false);
            }
        }
    }
    let _digits = digit_vec(bit_len as usize, limits)?;
    let width = radix_width(radix);
    let mut reversed: Vec<char> = Vec::new();
    while !integer.is_zero()
        invariant
            integer.wf(),
            2 <= radix <= 36,
            width > 0 ==> pow2(width as nat) == radix && width <= 5,
            integer@ > 0 ==> radix_text(n0, radix as nat) == radix_text(integer@, radix as nat)
                + reversed@.reverse(),
            integer@ == 0 ==> radix_text(n0, radix as nat) == reversed@.reverse(),
        decreases integer@,
    {
        let ghost before = integer@;
        let digit: u32 = if width > 0 {
            let d = integer.low_bits(width);
            integer.shr_assign(width);
            proof {
                vstd::arithmetic::power2::lemma2_to64();
            }
            d
        } else {
            integer.divmod_small(radix)
        };
        proof {
            vstd::arithmetic::div_mod::lemma_fundamental_div_mod(before as int, radix as int);
            lemma_radix_step(before, radix as nat);
            assert(digit < radix) by {
                vstd::arithmetic::div_mod::lemma_mod_bound(before as int, radix as int);
            }
            assert(integer@ < before) by (nonlinear_arith)
                requires
                    integer@ == before / (radix as nat),
                    before > 0,
                    radix >= 2,
            ;
        }
        let c = radix_char(digit);
        let ghost old_rev = reversed@;
        reversed.push(c);
        proof {
            assert(reversed@.reverse() =~= seq![c] + old_rev.reverse());
            if integer@ > 0 {
                assert(radix_text(before, radix as nat) == radix_text(integer@, radix as nat).push(c));
                assert(radix_text(integer@, radix as nat) + reversed@.reverse() =~= radix_text(
                    integer@,
                    radix as nat,
                ).push(c) + old_rev.reverse());
            } else {
                assert(radix_text(before, radix as nat) == seq![c]);
            }
        }
    }
    let mut text: Vec<char> = Vec::new();
    let mut i = reversed.len();
    while i > 0
        invariant
            i <= reversed@.len(),
            text@ == reversed@.reverse().take((reversed@.len() - i) as int),
        decreases i,
    {
        i = i - 1;
        text.push(reversed[i]);
        assert(text@ =~= reversed@.reverse().take((reversed@.len() - i) as int));
    }
    assert(text@ =~= radix_text(n0, radix as nat));
    write_one(&mut out, text, max)?;
    Ok(string_of(&out))
}


// ---------------------------------------------------------------------------
// d3's decimal parts, exponent and SI prefix
// ---------------------------------------------------------------------------

/// A run of pieces is only ever refused for allocation or for the limit.
proof fn lemma_run_pieces_refusal(acc: Seq<char>, pieces: Seq<Piece>, max: usize)
    ensures
        run_pieces(acc, pieces, max) matches Err(e) ==> limit_or_allocation(e, max),
    decreases pieces.len(),
{
    if pieces.len() > 0 {
        match crate::layout::sink_step(acc, pieces[0], max) {
            Ok(next) => lemma_run_pieces_refusal(next, pieces.skip(1), max),
            Err(e) => {},
        }
    }
}

/// An allocation failure, or output refused under the limit `max`.
pub open spec fn limit_or_allocation(e: FormatError, max: usize) -> bool {
    match e {
        FormatError::AllocationFailed => true,
        FormatError::OutputLimit { maximum, .. } => maximum == max,
        _ => false,
    }
}

/// The digits d3 slices out of `toExponential`'s coefficient by dropping its
/// second character: all the digits for a non-negative value; for a negative
/// one the sign takes the first digit's place.
pub open spec fn coefficient_digits(negative: bool, d: Seq<u8>) -> Seq<char> {
    if negative {
        seq!['-'] + if d.len() > 1 {
            seq!['.'] + digit_chars(d.skip(1))
        } else {
            Seq::empty()
        }
    } else {
        digit_chars(d)
    }
}

/// The precision d3 hands `toExponential`: a zero precision is falsy and selects
/// the shortest coefficient.
pub open spec fn effective_precision(precision: Option<u32>) -> Option<u32> {
    match precision {
        Some(p) => if p == 0 {
            None
        } else {
            Some(p)
        },
        None => None,
    }
}

/// `t` and `e` are the coefficient digits and exponent of `toExponential` at the
/// effective precision: `p` significant digits rounded half away from zero, or
/// the shortest digits.
pub open spec fn decimal_parts_of(bits: u64, precision: Option<u32>, t: Seq<char>, e: int) -> bool {
    let v = split_of(bits).unwrap();
    let negative = is_negative_bits(bits);
    match effective_precision(precision) {
        Some(p) => exists|d: Seq<u8>, e0: int, h: Half, d2: Seq<u8>|
            #![trigger is_window(v, d, e0, h), rounds_to(d, e0, h, d2, e)]
            is_window(v, d, e0, h) && d.len() == p && rounds_to(d, e0, h, d2, e) && t
                == coefficient_digits(negative, d2),
        None => exists|d: Seq<u8>|
            #![trigger is_shortest_form(v, d, e)]
            is_shortest_form(v, d, e) && t == coefficient_digits(negative, d),
    }
}

/// `src/formatDecimal.js`'s `formatDecimalParts`: the significant digits with the
/// decimal point removed, and the exponent, as d3 slices them out of
/// `toExponential`. `None` for zero and the non-finite values.
pub fn format_decimal_parts(bits: u64, precision: Option<u32>, limits: &FormatLimits) -> (res: Result<
    Option<(String, i32)>,
    FormatError,
>)
    ensures
        split_of(bits) is None ==> res == Ok::<Option<(String, i32)>, FormatError>(None),
        match res {
            Ok(Some((t, e))) => split_of(bits) is Some && decimal_parts_of(
                bits,
                precision,
                t@,
                e as int,
            ) && -20000 <= e <= 20000,
            Ok(None) => split_of(bits) is None,
            Err(e) => split_of(bits) is Some && limit_or_allocation(e, limits.max_output_bytes),
        },
{
    let max = limits.max_output_bytes;
    let value = match split(bits) {
        None => {
            return Ok(None);
        },
        Some(value) => value,
    };
    let mut out: Vec<char> = Vec::new();
    match write_sign(&mut out, bits, max) {
        Ok(()) => {},
        Err(e) => {
            proof {
                lemma_run_pieces_refusal(Seq::empty(), sign_pieces(bits), max);
            }
            return Err(e);
        },
    }
    let negative = negative_bits(bits);
    let (digits, exponent) = match precision {
        Some(p) if p != 0 => {
            check_precision(p - 1, limits)?;
            let (d2, e2) = rounded_window(value, p as usize, limits)?;
            (d2, e2)
        },
        _ => match shortest(bits, limits)? {
            Some(parts) => parts,
            None => {
                return Ok(None);
            },
        },
    };
    // The same output `toExponential` writes, so that the same limits refuse it.
    let mut parts: Vec<Part> = Vec::new();
    push_exponential(&mut parts, &digits, exponent);
    let ghost before = out@;
    proof {
        reveal_with_fuel(utf8_len, 1);
    }
    match run_parts_from(&mut out, &parts, max) {
        Ok(()) => {},
        Err(e) => {
            proof {
                lemma_run_pieces_refusal(before, parts_view(parts@), max);
            }
            return Err(e);
        },
    }
    let mut text: Vec<char> = Vec::new();
    let n = digits.len();
    if negative {
        text.push('-');
        if n > 1 {
            text.push('.');
            let rest = digit_text(&digits, 1, n);
            let mut i: usize = 0;
            let ghost head = text@;
            while i < rest.len()
                invariant
                    i <= rest@.len(),
                    text@ == head + rest@.take(i as int),
                decreases rest@.len() - i,
            {
                text.push(rest[i]);
                i = i + 1;
                assert(text@ =~= head + rest@.take(i as int));
            }
            assert(rest@.take(i as int) =~= rest@);
            assert(digits@.subrange(1, n as int) =~= digits@.skip(1));
        }
        assert(text@ =~= coefficient_digits(true, digits@));
    } else {
        text = digit_text(&digits, 0, n);
        assert(digits@.subrange(0, n as int) =~= digits@);
        assert(text@ =~= coefficient_digits(false, digits@));
    }
    Ok(Some((string_of(&text), exponent)))
}

/// `e` is the place of the leading digit of the shortest form of `|x|`.
pub open spec fn shortest_exponent_is(bits: u64, e: int) -> bool {
    exists|d: Seq<u8>|
        #![trigger is_shortest_form(split_of(bits).unwrap(), d, e)]
        is_shortest_form(split_of(bits).unwrap(), d, e)
}

/// `src/exponent.js`: the decimal exponent of `|x|`, or `None` where d3 yields
/// NaN (zero and the non-finite values). A refused reservation (`Vec::try_reserve`)
/// in the shortest conversion also gives `None`.
pub fn exponent(bits: u64) -> (r: Option<i32>)
    ensures
        split_of(bits) is None ==> r is None,
        r is Some ==> split_of(bits) is Some && shortest_exponent_is(bits, r.unwrap() as int),
{
    let limits = FormatLimits { max_width_utf16: 1_000_000, max_output_bytes: 16777216 };
    match shortest(bits, &limits) {
        Ok(Some((d, e))) => {
            assert(is_shortest_form(split_of(bits).unwrap(), d@, e as int));
            assert(shortest_exponent_is(bits, e as int));
            Some(e)
        },
        _ => None,
    }
}

/// The SI prefix exponent `formatPrefix` derives from its reference value, or
/// `None` where d3's arithmetic yields NaN (or [`exponent`] meets a refused
/// reservation).
pub fn si_prefix_exponent(bits: u64) -> (r: Option<i32>)
    ensures
        split_of(bits) is None ==> r is None,
        r is Some ==> si_prefix_exponent_is(bits, r.unwrap() as int),
{
    match exponent(bits) {
        None => None,
        Some(e) => {
            let p = clamp_si(e);
            assert(shortest_exponent_is(bits, e as int));
            Some(p)
        },
    }
}

/// The bits of `Math.pow(10, -e)` for `formatPrefix`, read from the pinned
/// table; `None` stands for the NaN scale a zero, NaN or infinite reference
/// gives.
pub fn si_prefix_scale(bits: u64) -> (r: Option<u64>)
    ensures
        split_of(bits) is None ==> r is None,
        r matches Some(b) ==> exists|p: int|
            -24 <= p <= 24 && p % 3 == 0 && b == si_scale_table(p / 3 + 8) && si_prefix_exponent_is(
                bits,
                p,
            ),
{
    match si_prefix_exponent(bits) {
        None => None,
        Some(p) => {
            let index = (p / 3 + 8) as usize;
            proof {
                assert(-24 <= p <= 24 && p % 3 == 0);
                assert(si_prefix_exponent_is(bits, p as int));
            }
            si_scale_bits(index)
        },
    }
}

/// `p` is the SI prefix exponent of the reference `bits` spell.
pub open spec fn si_prefix_exponent_is(bits: u64, p: int) -> bool {
    split_of(bits) is Some && exists|e: int|
        #![trigger shortest_exponent_is(bits, e)]
        shortest_exponent_is(bits, e) && p == spec_clamp_si(e)
}


// ---------------------------------------------------------------------------
// Types r and s
// ---------------------------------------------------------------------------

/// `src/formatRounded.js`'s layout of coefficient digits `c` led by place `e`.
pub open spec fn rounded_pieces(c: Seq<char>, e: int) -> Seq<Piece> {
    if e < 0 {
        seq![Piece::Text(seq!['0', '.']), Piece::Fill('0', (-e - 1) as nat), Piece::Text(c)]
    } else if c.len() > e + 1 {
        seq![Piece::Text(c.take(e + 1)), Piece::Text(seq!['.']), Piece::Text(c.skip(e + 1))]
    } else {
        seq![Piece::Text(c), Piece::Fill('0', (e - c.len() + 1) as nat)]
    }
}

/// What type `r` reports: `Number::toString` for zero and the non-finite values,
/// else the `p` significant digits laid out positionally.
pub open spec fn format_rounded_outcome(
    bits: u64,
    precision: u32,
    max: usize,
    res: Result<String, FormatError>,
) -> bool {
    if split_of(bits) is None {
        number_to_string_outcome(bits, max, res)
    } else {
        match res {
            Ok(s) => exists|t: Seq<char>, e: int|
                #![trigger decimal_parts_of(bits, Some(precision), t, e)]
                decimal_parts_of(bits, Some(precision), t, e) && run_pieces(
                    Seq::empty(),
                    rounded_pieces(t, e),
                    max,
                ) == Ok::<Seq<char>, FormatError>(s@),
            Err(e) => limit_or_allocation(e, max),
        }
    }
}

/// `src/formatRounded.js`, the whole of type `r`.
pub fn format_rounded(bits: u64, precision: u32, limits: &FormatLimits) -> (res: Result<
    String,
    FormatError,
>)
    ensures
        format_rounded_outcome(bits, precision, limits.max_output_bytes, res),
{
    let max = limits.max_output_bytes;
    let (coefficient, exponent) = match format_decimal_parts(bits, Some(precision), limits)? {
        None => {
            return number_to_string(bits, limits);
        },
        Some(parts) => parts,
    };
    let ghost t = coefficient@;
    let c = chars_of(coefficient.as_str());
    let length = c.len();
    let mut parts: Vec<Part> = Vec::new();
    if exponent < 0 {
        let lead = vec!['0', '.'];
        assert(lead@ =~= seq!['0', '.']);
        push_part(&mut parts, Part::Text(lead));
        push_part(&mut parts, Part::Fill('0', (-exponent - 1) as usize));
        push_part(&mut parts, Part::Text(c));
    } else if (length as i64) > (exponent as i64) + 1 {
        let whole = (exponent + 1) as usize;
        let head = copy_chars(&c, 0, whole);
        let tail = copy_chars(&c, whole, length);
        assert(c@.subrange(0, whole as int) =~= c@.take(exponent + 1));
        assert(c@.subrange(whole as int, length as int) =~= c@.skip(exponent + 1));
        let dot = vec!['.'];
        assert(dot@ =~= seq!['.']);
        push_part(&mut parts, Part::Text(head));
        push_part(&mut parts, Part::Text(dot));
        push_part(&mut parts, Part::Text(tail));
    } else {
        let zeros = (exponent as usize) + 1 - length;
        push_part(&mut parts, Part::Text(c));
        push_part(&mut parts, Part::Fill('0', zeros));
    }
    assert(parts_view(parts@) =~= rounded_pieces(t, exponent as int));
    let mut out: Vec<char> = Vec::new();
    proof {
        reveal_with_fuel(utf8_len, 1);
    }
    match run_parts_from(&mut out, &parts, max) {
        Ok(()) => {},
        Err(e) => {
            proof {
                lemma_run_pieces_refusal(Seq::empty(), parts_view(parts@), max);
            }
            return Err(e);
        },
    }
    let s = string_of(&out);
    assert(decimal_parts_of(bits, Some(precision), t, exponent as int));
    Ok(s)
}

/// `src/formatPrefixAuto.js`'s layout: the coefficient digits `c` led by place
/// `e`, shifted to the SI prefix's place; below one yocto the digits `inner` of a
/// lower precision follow `0.` and the zeros.
pub open spec fn prefix_pieces(c: Seq<char>, e: int, inner: Seq<char>) -> Seq<Piece> {
    let offset = e - spec_clamp_si(e) + 1;
    let length = c.len() as int;
    if offset == length {
        seq![Piece::Text(c)]
    } else if offset > length {
        seq![Piece::Text(c), Piece::Fill('0', (offset - length) as nat)]
    } else if offset > 0 {
        seq![Piece::Text(c.take(offset)), Piece::Text(seq!['.']), Piece::Text(c.skip(offset))]
    } else {
        seq![Piece::Text(seq!['0', '.']), Piece::Fill('0', (-offset) as nat), Piece::Text(inner)]
    }
}

/// The precision d3 re-derives the coefficient at below one yocto:
/// `Math.max(0, p + offset - 1)`, where zero is falsy and means shortest.
pub open spec fn inner_precision(p: u32, offset: int) -> Option<u32> {
    let inner = p + offset - 1;
    if inner <= 0 {
        None
    } else {
        Some(inner as u32)
    }
}

/// What type `s` reports: `toPrecision` and no prefix for zero and the
/// non-finite values; else the coefficient shifted to its SI prefix, and the
/// prefix exponent.
pub open spec fn format_prefix_auto_outcome(
    bits: u64,
    precision: u32,
    max: usize,
    res: Result<(String, Option<i32>), FormatError>,
) -> bool {
    if split_of(bits) is None {
        match res {
            Ok((s, prefix)) => prefix is None && to_precision_outcome(bits, precision, max, Ok(s)),
            Err(e) => to_precision_outcome(bits, precision, max, Err(e)),
        }
    } else {
        match res {
            Ok((s, prefix)) => exists|t: Seq<char>, e: int, inner: Seq<char>|
                #![trigger decimal_parts_of(bits, Some(precision), t, e), prefix_pieces(t, e, inner)]
                decimal_parts_of(bits, Some(precision), t, e) && prefix == Some(
                    spec_clamp_si(e) as i32,
                ) && (e - spec_clamp_si(e) + 1 > 0 ==> inner == Seq::<char>::empty()) && (e
                    - spec_clamp_si(e) + 1 <= 0 ==> exists|e2: int|
                    #![trigger decimal_parts_of(bits, inner_precision(precision, e - spec_clamp_si(e) + 1), inner, e2)]
                    decimal_parts_of(
                        bits,
                        inner_precision(precision, e - spec_clamp_si(e) + 1),
                        inner,
                        e2,
                    )) && run_pieces(Seq::empty(), prefix_pieces(t, e, inner), max) == Ok::<
                    Seq<char>,
                    FormatError,
                >(s@),
            Err(e) => limit_or_allocation(e, max),
        }
    }
}

/// `src/formatPrefixAuto.js`, the whole of type `s`.
///
/// Returns the coefficient and the SI prefix exponent d3 leaves in its
/// module-level `prefixExponent`; `None` there is d3's `undefined`, which
/// suppresses the suffix.
pub fn format_prefix_auto(bits: u64, precision: u32, limits: &FormatLimits) -> (res: Result<
    (String, Option<i32>),
    FormatError,
>)
    ensures
        format_prefix_auto_outcome(bits, precision, limits.max_output_bytes, res),
{
    let max = limits.max_output_bytes;
    let (coefficient, exponent) = match format_decimal_parts(bits, Some(precision), limits)? {
        None => {
            let text = to_precision(bits, precision, limits)?;
            return Ok((text, None));
        },
        Some(parts) => parts,
    };
    let ghost t = coefficient@;
    let prefix_exponent = clamp_si(exponent);
    let offset: i32 = exponent - prefix_exponent + 1;
    let c = chars_of(coefficient.as_str());
    let length = c.len();
    let mut parts: Vec<Part> = Vec::new();
    let ghost mut inner: Seq<char> = Seq::empty();
    if offset >= 0 && (offset as usize) == length {
        push_part(&mut parts, Part::Text(c));
    } else if offset >= 0 && (offset as usize) > length {
        let zeros = (offset as usize) - length;
        push_part(&mut parts, Part::Text(c));
        push_part(&mut parts, Part::Fill('0', zeros));
    } else if offset > 0 {
        let cut = offset as usize;
        let head = copy_chars(&c, 0, cut);
        let tail = copy_chars(&c, cut, length);
        assert(c@.subrange(0, cut as int) =~= c@.take(offset as int));
        assert(c@.subrange(cut as int, length as int) =~= c@.skip(offset as int));
        let dot = vec!['.'];
        assert(dot@ =~= seq!['.']);
        push_part(&mut parts, Part::Text(head));
        push_part(&mut parts, Part::Text(dot));
        push_part(&mut parts, Part::Text(tail));
    } else {
        // Below one yocto d3 re-derives the coefficient at a lower precision, and
        // `Math.max(0, p + i - 1)` can be zero, which is falsy: shortest.
        let wanted: i64 = precision as i64 + offset as i64 - 1;
        let inner_precision_exec: Option<u32> = if wanted <= 0 {
            None
        } else {
            Some(wanted as u32)
        };
        let digits: String = match format_decimal_parts(bits, inner_precision_exec, limits)? {
            None => String::new(),
            Some((d, e2)) => {
                proof {
                    assert(decimal_parts_of(
                        bits,
                        inner_precision(precision, offset as int),
                        d@,
                        e2 as int,
                    ));
                }
                d
            },
        };
        let lead = vec!['0', '.'];
        assert(lead@ =~= seq!['0', '.']);
        let inner_chars = chars_of(digits.as_str());
        proof {
            inner = inner_chars@;
        }
        push_part(&mut parts, Part::Text(lead));
        push_part(&mut parts, Part::Fill('0', (-offset) as usize));
        push_part(&mut parts, Part::Text(inner_chars));
    }
    assert(parts_view(parts@) =~= prefix_pieces(t, exponent as int, inner));
    let mut out: Vec<char> = Vec::new();
    proof {
        reveal_with_fuel(utf8_len, 1);
    }
    match run_parts_from(&mut out, &parts, max) {
        Ok(()) => {},
        Err(e) => {
            proof {
                lemma_run_pieces_refusal(Seq::empty(), parts_view(parts@), max);
            }
            return Err(e);
        },
    }
    let s = string_of(&out);
    assert(decimal_parts_of(bits, Some(precision), t, exponent as int));
    Ok((s, Some(prefix_exponent)))
}


// ---------------------------------------------------------------------------
// toLocaleString("en") and type d
// ---------------------------------------------------------------------------

/// The fraction digits `Intl.NumberFormat` keeps by default.
pub const LOCALE_MAX_FRACTION_DIGITS: usize = 3;

/// The shortest digits `d` led by place `e`, as thousandths rounded half away
/// from zero: `floor(w * 1000 + 1/2)` for the decimal `w` they spell.
pub open spec fn locale_round(d: Seq<u8>, e: int) -> nat {
    let t = e - d.len() + 4;
    let n = run_value(d);
    if t >= 0 {
        n * pow10(t as nat)
    } else {
        (2 * n + pow10((-t) as nat)) / (2 * pow10((-t) as nat))
    }
}

/// `c` without its trailing zeros.
pub open spec fn trim_zeros(c: Seq<char>) -> Seq<char>
    decreases c.len(),
{
    if c.len() > 0 && c.last() == '0' {
        trim_zeros(c.drop_last())
    } else {
        c
    }
}

/// The three digits of a number of thousandths below a thousand.
pub open spec fn three_digits(x: nat) -> Seq<char> {
    seq![digit_char(x / 100), digit_char((x / 10) % 10), digit_char(x % 10)]
}

/// What `toLocaleString("en")` writes for shortest digits `d` led by place `e`,
/// with the grouping removed: the integer part, and the thousandths without their
/// trailing zeros after a point if any remain.
pub open spec fn locale_pieces(d: Seq<u8>, e: int) -> Seq<Piece> {
    let r = locale_round(d, e);
    if r % 1000 == 0 {
        seq![Piece::Text(dec(r / 1000))]
    } else {
        seq![
            Piece::Text(dec(r / 1000)),
            Piece::Text(seq!['.']),
            Piece::Text(trim_zeros(three_digits(r % 1000))),
        ]
    }
}

/// The digit buffers the positional expansion takes, in the order it takes them:
/// the integer part, then the fraction (zeros included) when there is one.
pub open spec fn locale_buffers(d: Seq<u8>, e: int) -> Seq<int> {
    if e >= 0 {
        if d.len() <= e + 1 {
            seq![e + 1]
        } else {
            seq![e + 1, d.len() - (e + 1)]
        }
    } else {
        seq![1, (-e - 1) + d.len()]
    }
}

/// The first buffer over the limit, if any.
pub open spec fn first_over(b: Seq<int>, max: usize) -> Option<int>
    decreases b.len(),
{
    if b.len() == 0 {
        None
    } else if b[0] > max {
        Some(b[0])
    } else {
        first_over(b.skip(1), max)
    }
}

proof fn lemma_trim_zeros_pad(c: Seq<char>, k: nat)
    ensures
        trim_zeros(c + Seq::new(k, |i: int| '0')) == trim_zeros(c),
    decreases k,
{
    if k > 0 {
        let padded = c + Seq::new(k, |i: int| '0');
        assert(padded.drop_last() =~= c + Seq::new((k - 1) as nat, |i: int| '0'));
        assert(padded.last() == '0');
        lemma_trim_zeros_pad(c, (k - 1) as nat);
    } else {
        assert(c + Seq::new(0, |i: int| '0') =~= c);
    }
}

/// Trimming a digit run's zeros leaves nothing exactly when its value is zero,
/// and otherwise ends on a non-zero digit.
proof fn lemma_trim_digit_chars(fr: Seq<u8>)
    requires
        is_digit_run(fr),
    ensures
        (trim_zeros(digit_chars(fr)).len() == 0) == (run_value(fr) == 0),
    decreases fr.len(),
{
    if fr.len() > 0 {
        let f1 = fr.drop_last();
        assert(is_digit_run(f1)) by {
            assert forall|i: int| 0 <= i < f1.len() implies #[trigger] f1[i] < 10 by {
                assert(f1[i] == fr[i]);
            }
        }
        assert(digit_chars(fr).drop_last() =~= digit_chars(f1));
        assert(fr.last() < 10) by {
            assert(fr[fr.len() - 1] < 10);
        }
        if fr.last() == 0 {
            assert(digit_chars(fr).last() == '0');
            lemma_trim_digit_chars(f1);
        } else {
            assert(digit_chars(fr).last() != '0');
            assert(run_value(fr) > 0);
        }
    } else {
        assert(digit_chars(fr) =~= Seq::<char>::empty());
    }
}

/// Three digits spell their value's `three_digits`.
proof fn lemma_three_digits(fr: Seq<u8>)
    requires
        fr.len() == 3,
        is_digit_run(fr),
    ensures
        three_digits(run_value(fr)) == digit_chars(fr),
        run_value(fr) < 1000,
{
    reveal_with_fuel(run_value, 4);
    assert(fr.drop_last().drop_last().drop_last() =~= Seq::<u8>::empty());
    assert(fr[0] < 10 && fr[1] < 10 && fr[2] < 10);
    assert(fr.drop_last().drop_last().last() == fr[0]);
    assert(fr.drop_last().last() == fr[1]);
    assert(fr.last() == fr[2]);
    let x = run_value(fr);
    assert(x == fr[0] * 100 + fr[1] * 10 + fr[2] as nat);
    assert(x / 100 == fr[0] && (x / 10) % 10 == fr[1] && x % 10 == fr[2] as nat) by (nonlinear_arith)
        requires
            x == fr[0] * 100 + fr[1] * 10 + fr[2] as nat,
            fr[0] < 10,
            fr[1] < 10,
            fr[2] < 10,
    ;
    assert(three_digits(x) =~= digit_chars(fr));
}

/// Rounding thousandths half up against a digit expansion: the fourth fraction
/// digit decides.
proof fn lemma_round_thousandths(a: nat, fr: Seq<u8>)
    requires
        fr.len() > 3,
        is_digit_run(fr),
    ensures
        (2 * (a * pow10(fr.len()) + run_value(fr)) + pow10((fr.len() - 3) as nat)) / (2 * pow10(
            (fr.len() - 3) as nat,
        )) == a * 1000 + run_value(fr.take(3)) + (if fr[3] >= 5 {
            1nat
        } else {
            0nat
        }),
{
    let flen = fr.len();
    let m = (flen - 3) as nat;
    let f3 = fr.take(3);
    let tail = fr.skip(3);
    assert(f3 + tail =~= fr);
    lemma_run_value_concat(f3, tail);
    let p = pow10(m);
    lemma_pow10_pos(m);
    lemma_pow10_add(3, m);
    assert(pow10(3) == 1000) by {
        reveal_with_fuel(pow10, 4);
    }
    assert(3 + m == flen);
    let t = run_value(tail);
    assert(is_digit_run(tail)) by {
        assert forall|i: int| 0 <= i < tail.len() implies #[trigger] tail[i] < 10 by {
            assert(tail[i] == fr[3 + i]);
        }
    }
    assert(is_digit_run(f3)) by {
        assert forall|i: int| 0 <= i < f3.len() implies #[trigger] f3[i] < 10 by {
            assert(f3[i] == fr[i]);
        }
    }
    lemma_run_value_bound(tail);
    lemma_run_value_bound(f3);
    // The tail's first digit decides whether it reaches half its unit.
    let first = tail[0];
    let rest = tail.skip(1);
    assert(seq![first] + rest =~= tail);
    lemma_run_value_concat(seq![first], rest);
    lemma_run_value_single(first);
    assert(is_digit_run(rest)) by {
        assert forall|i: int| 0 <= i < rest.len() implies #[trigger] rest[i] < 10 by {
            assert(rest[i] == tail[1 + i]);
        }
    }
    lemma_run_value_bound(rest);
    let q = pow10(rest.len());
    assert(p == 10 * q) by {
        assert(rest.len() + 1 == m);
    }
    assert(first == fr[3]);
    assert(first < 10);
    let up: nat = if first >= 5 {
        1
    } else {
        0
    };
    assert(up * p <= 2 * t < (up + 1) * p) by (nonlinear_arith)
        requires
            t == first * q + run_value(rest),
            run_value(rest) < q,
            p == 10 * q,
            first < 10,
            first >= 5 ==> up == 1,
            first < 5 ==> up == 0,
    ;
    let f3v = run_value(f3);
    let d = a * pow10(flen) + run_value(fr);
    assert(d == (a * 1000 + f3v) * p + t) by (nonlinear_arith)
        requires
            d == a * pow10(flen) + run_value(fr),
            run_value(fr) == f3v * p + t,
            pow10(flen) == 1000 * p,
    ;
    let target = a * 1000 + f3v + up;
    let base = a * 1000 + f3v;
    assert(2 * d + p == 2 * (base * p) + 2 * t + p) by (nonlinear_arith)
        requires
            d == base * p + t,
    ;
    assert(target * (2 * p) == 2 * (base * p) + 2 * (up * p)) by (nonlinear_arith)
        requires
            target == base + up,
    ;
    assert((target + 1) * (2 * p) == 2 * (base * p) + 2 * (up * p) + 2 * p) by (nonlinear_arith)
        requires
            target == base + up,
    ;
    assert(up * p <= 2 * t);
    assert(2 * t < up * p + p) by (nonlinear_arith)
        requires
            2 * t < (up + 1) * p,
    ;
    assert(2 * (up * p) <= 2 * t + p) by {
        if up == 1 {
            assert(1 * p == p);
        } else {
            assert(up == 0);
            assert(0 * p == 0);
        }
    }
    assert(target * (2 * p) <= 2 * d + p);
    assert(2 * d + p < (target + 1) * (2 * p));
    vstd::arithmetic::div_mod::lemma_fundamental_div_mod((2 * d + p) as int, (2 * p) as int);
    let quotient = (2 * d + p) / (2 * p);
    let remainder = (2 * d + p) % (2 * p);
    assert(quotient == target) by (nonlinear_arith)
        requires
            2 * d + p == (2 * p) * quotient + remainder,
            0 <= remainder < 2 * p,
            target * (2 * p) <= 2 * d + p < (target + 1) * (2 * p),
    ;
}


/// A digit run led by a non-zero digit is worth at least `10^(len - 1)`.
proof fn lemma_leading_value(d: Seq<u8>)
    requires
        d.len() >= 1,
        is_digit_run(d),
        d[0] != 0,
    ensures
        run_value(d) >= pow10((d.len() - 1) as nat),
{
    let rest = d.skip(1);
    assert(seq![d[0]] + rest =~= d);
    lemma_run_value_concat(seq![d[0]], rest);
    lemma_run_value_single(d[0]);
    assert(run_value(d) >= d[0] * pow10(rest.len()));
    assert(d[0] * pow10(rest.len()) >= pow10(rest.len())) by (nonlinear_arith)
        requires
            d[0] >= 1,
    ;
}

fn copy_digits(d: &Vec<u8>, from: usize, to: usize, into: &mut Vec<u8>)
    requires
        from <= to <= d@.len(),
    ensures
        final(into)@ == old(into)@ + d@.subrange(from as int, to as int),
{
    let ghost start = into@;
    let mut i = from;
    while i < to
        invariant
            from <= i <= to,
            to <= d@.len(),
            into@ == start + d@.subrange(from as int, i as int),
        decreases to - i,
    {
        into.push(d[i]);
        i = i + 1;
        assert(into@ =~= start + d@.subrange(from as int, i as int));
    }
}

fn push_zero_digits(into: &mut Vec<u8>, count: usize)
    ensures
        final(into)@ == old(into)@ + zero_run(count as nat),
{
    let ghost start = into@;
    let mut i: usize = 0;
    while i < count
        invariant
            i <= count,
            into@ == start + zero_run(i as nat),
        decreases count - i,
    {
        into.push(0);
        i = i + 1;
        assert(into@ =~= start + zero_run(i as nat));
    }
}

proof fn lemma_digit_run_concat(a: Seq<u8>, b: Seq<u8>)
    requires
        is_digit_run(a),
        is_digit_run(b),
    ensures
        is_digit_run(a + b),
{
    assert forall|i: int| 0 <= i < (a + b).len() implies #[trigger] (a + b)[i] < 10 by {
        if i < a.len() {
            assert((a + b)[i] == a[i]);
        } else {
            assert((a + b)[i] == b[i - a.len()]);
        }
    }
}

proof fn lemma_digit_run_subrange(a: Seq<u8>, from: int, to: int)
    requires
        is_digit_run(a),
        0 <= from <= to <= a.len(),
    ensures
        is_digit_run(a.subrange(from, to)),
{
    assert forall|i: int| 0 <= i < to - from implies #[trigger] a.subrange(from, to)[i] < 10 by {
        assert(a.subrange(from, to)[i] == a[from + i]);
    }
}

proof fn lemma_zero_run_digits(n: nat)
    ensures
        is_digit_run(zero_run(n)),
{
    assert forall|i: int| 0 <= i < n implies #[trigger] zero_run(n)[i] < 10 by {}
}

/// The thousandths a whole part `a` and fraction digits `fr` round to, half away
/// from zero.
pub open spec fn thousandths(a: nat, fr: Seq<u8>) -> nat {
    let fl = fr.len();
    if fl <= 3 {
        a * 1000 + run_value(fr) * pow10((3 - fl) as nat)
    } else {
        (2 * (a * pow10(fl) + run_value(fr)) + pow10((fl - 3) as nat)) / (2 * pow10(
            (fl - 3) as nat,
        ))
    }
}

/// Whether `w` is a digit run with no leading zero (unless it is a lone digit).
pub open spec fn plain_digits(w: Seq<u8>) -> bool {
    &&& w.len() >= 1
    &&& is_digit_run(w)
    &&& (w.len() == 1 || w[0] != 0)
}

/// The positional expansion of shortest digits `d` led by place `e`: integer
/// digits and fraction digits, or the first buffer the limit refuses.
fn locale_expand(d: &Vec<u8>, e: i32, limits: &FormatLimits) -> (res: Result<
    (Vec<u8>, Vec<u8>),
    FormatError,
>)
    requires
        1 <= d@.len() <= MAX_SHORTEST_DIGITS,
        is_digit_run(d@),
        d@[0] != 0,
        -20000 <= e <= 20000,
    ensures
        match first_over(locale_buffers(d@, e as int), limits.max_output_bytes) {
            Some(b) => res == Err::<(Vec<u8>, Vec<u8>), FormatError>(
                FormatError::OutputLimit { requested: b as usize, maximum: limits.max_output_bytes },
            ),
            None => res matches Ok((w, f)) && plain_digits(w@) && is_digit_run(f@) && w@.len()
                <= 20002 && locale_round(d@, e as int) == thousandths(run_value(w@), f@),
        },
{
    let n = d.len();
    let ghost dv = run_value(d@);
    let ghost big_r = locale_round(d@, e as int);
    proof {
        assert(pow10(3) == 1000) by {
            reveal_with_fuel(pow10, 4);
        }
    }
    if e >= 0 {
        let il = e as usize + 1;
        if n <= il {
            proof {
                assert(locale_buffers(d@, e as int) == seq![e + 1]);
                reveal_with_fuel(first_over, 2);
                assert(seq![e + 1].skip(1) =~= Seq::<int>::empty());
            }
            let mut whole = digit_vec(il, limits)?;
            copy_digits(d, 0, n, &mut whole);
            push_zero_digits(&mut whole, il - n);
            proof {
                assert(d@.subrange(0, n as int) =~= d@);
                lemma_zero_run_value((il - n) as nat);
                lemma_run_value_concat(d@, zero_run((il - n) as nat));
                lemma_pow10_add((il - n) as nat, 3);
                assert(e - n + 4 == (il - n) + 3);
                assert(big_r == run_value(whole@) * 1000) by (nonlinear_arith)
                    requires
                        big_r == dv * pow10(((il - n) + 3) as nat),
                        pow10(((il - n) + 3) as nat) == pow10((il - n) as nat) * pow10(3),
                        pow10(3) == 1000,
                        run_value(whole@) == dv * pow10((il - n) as nat) + 0,
                ;
                lemma_zero_run_digits((il - n) as nat);
                lemma_digit_run_concat(d@, zero_run((il - n) as nat));
                assert(whole@[0] == d@[0]);
                let empty = Seq::<u8>::empty();
                assert(run_value(empty) == 0);
                assert(thousandths(run_value(whole@), empty) == run_value(whole@) * 1000 + 0 * pow10(3));
                lemma_zero_run_digits(0);
                assert(empty =~= zero_run(0));
            }
            return Ok((whole, Vec::new()));
        }
        proof {
            assert(locale_buffers(d@, e as int) == seq![e + 1, n - (e + 1)]);
            reveal_with_fuel(first_over, 3);
            assert(seq![e + 1, n - (e + 1)].skip(1) =~= seq![n - (e + 1)]);
            assert(seq![n - (e + 1)].skip(1) =~= Seq::<int>::empty());
        }
        let mut whole = digit_vec(il, limits)?;
        copy_digits(d, 0, il, &mut whole);
        let mut fraction = digit_vec(n - il, limits)?;
        copy_digits(d, il, n, &mut fraction);
        proof {
            assert(whole@ =~= d@.subrange(0, il as int));
            assert(fraction@ =~= d@.subrange(il as int, n as int));
            assert(d@ =~= whole@ + fraction@);
            lemma_run_value_concat(whole@, fraction@);
            lemma_digit_run_subrange(d@, 0, il as int);
            lemma_digit_run_subrange(d@, il as int, n as int);
            assert(whole@[0] == d@[0]);
            let fl = fraction@.len();
            assert(e - n + 4 == 3 - fl);
            if fl <= 3 {
                lemma_pow10_add((3 - fl) as nat, fl);
                assert((3 - fl) as nat + fl == 3);
                let a = run_value(whole@);
                assert(big_r == a * 1000 + run_value(fraction@) * pow10((3 - fl) as nat)) by (
                nonlinear_arith)
                    requires
                        big_r == dv * pow10((3 - fl) as nat),
                        dv == a * pow10(fl) + run_value(fraction@),
                        pow10(3) == pow10((3 - fl) as nat) * pow10(fl),
                        pow10(3) == 1000,
                ;
            }
        }
        Ok((whole, fraction))
    } else {
        let lead = (-e - 1) as usize;
        proof {
            assert(locale_buffers(d@, e as int) == seq![1int, (-e - 1) + n]);
            reveal_with_fuel(first_over, 3);
            assert(seq![1int, (-e - 1) + n].skip(1) =~= seq![(-e - 1) + n]);
            assert(seq![(-e - 1) + n].skip(1) =~= Seq::<int>::empty());
        }
        let mut whole = digit_vec(1, limits)?;
        whole.push(0);
        let mut fraction = digit_vec(lead + n, limits)?;
        push_zero_digits(&mut fraction, lead);
        copy_digits(d, 0, n, &mut fraction);
        proof {
            assert(d@.subrange(0, n as int) =~= d@);
            assert(fraction@ =~= zero_run(lead as nat) + d@);
            lemma_zero_run_value(lead as nat);
            lemma_run_value_concat(zero_run(lead as nat), d@);
            assert(0 * pow10(d@.len()) == 0);
            assert(run_value(fraction@) == 0 * pow10(d@.len()) + dv);
            assert(run_value(fraction@) == dv);
            assert(0 * pow10(fraction@.len()) == 0);
            assert(whole@ =~= seq![0u8]);
            lemma_run_value_single(0u8);
            lemma_zero_run_digits(lead as nat);
            lemma_digit_run_concat(zero_run(lead as nat), d@);
            assert(is_digit_run(whole@)) by {
                assert(whole@[0] == 0u8);
            }
            let fl = fraction@.len();
            assert(dv == 0 * pow10(fl) + run_value(fraction@));
            assert(e - n + 4 == 3 - fl);
            if fl <= 3 {
                lemma_pow10_add((3 - fl) as nat, fl);
                assert((3 - fl) as nat + fl == 3);
                assert(big_r == 0 * 1000 + run_value(fraction@) * pow10((3 - fl) as nat));
            }
        }
        Ok((whole, fraction))
    }
}

/// Rounds the fraction to three digits, half away from zero, carrying into the
/// whole part.
fn locale_round_digits(whole: &mut Vec<u8>, fraction: &mut Vec<u8>)
    requires
        plain_digits(old(whole)@),
        is_digit_run(old(fraction)@),
        old(whole)@.len() <= 20002,
    ensures
        plain_digits(final(whole)@),
        is_digit_run(final(fraction)@),
        final(fraction)@.len() <= 3,
        run_value(final(whole)@) * 1000 + run_value(final(fraction)@) * pow10(
            (3 - final(fraction)@.len()) as nat,
        ) == thousandths(run_value(old(whole)@), old(fraction)@),
{
    let ghost a = run_value(whole@);
    let ghost fr = fraction@;
    let ghost big_r = thousandths(a, fr);
    proof {
        assert(pow10(0) == 1);
    }
    if fraction.len() <= LOCALE_MAX_FRACTION_DIGITS {
        return;
    }
    let round_up = fraction[3] >= 5;
    proof {
        lemma_round_thousandths(a, fr);
    }
    fraction.truncate(3);
    proof {
        assert(fraction@ =~= fr.take(3));
        lemma_digit_run_subrange(fr, 0, 3);
        assert(fr.subrange(0, 3) =~= fr.take(3));
        lemma_run_value_bound(fraction@);
        assert(pow10(3) == 1000) by {
            reveal_with_fuel(pow10, 4);
        }
    }
    let ghost w0 = whole@;
    let ghost f0 = fraction@;
    let ghost f3 = run_value(f0);
    proof {
        assert(big_r == a * 1000 + f3 + (if round_up { 1nat } else { 0nat }));
        assert(pow10((3 - 3) as nat) == 1);
    }
    if round_up {
        if increment(fraction.as_mut_slice()) {
            proof {
                lemma_zero_run_value(3);
                assert(fraction@ =~= zero_run(3));
                assert(f3 + 1 == 1000) by {
                    reveal_with_fuel(pow10, 4);
                }
            }
            if increment(whole.as_mut_slice()) {
                whole.insert(0, 1);
                proof {
                    assert(whole@ =~= seq![1u8] + zero_run(w0.len()));
                    lemma_run_value_concat(seq![1u8], zero_run(w0.len()));
                    lemma_run_value_single(1u8);
                    lemma_zero_run_value(w0.len());
                    lemma_zero_run_digits(w0.len());
                    assert(is_digit_run(seq![1u8])) by {
                        assert(seq![1u8][0] == 1u8);
                    }
                    lemma_digit_run_concat(seq![1u8], zero_run(w0.len()));
                    assert(whole@[0] == 1);
                    assert(run_value(whole@) == a + 1);
                }
            } else {
                proof {
                    if w0.len() > 1 {
                        lemma_leading_value(w0);
                        lemma_leading_digit(whole@);
                    }
                }
            }
            proof {
                assert(run_value(whole@) == a + 1);
                assert(run_value(fraction@) == 0);
                assert(run_value(whole@) * 1000 + 0 * 1 == big_r);
            }
        } else {
            proof {
                assert(run_value(fraction@) == f3 + 1);
                assert(run_value(whole@) * 1000 + run_value(fraction@) * 1 == big_r);
            }
        }
    } else {
        proof {
            assert(run_value(whole@) * 1000 + run_value(fraction@) * 1 == big_r);
        }
    }
}

/// The integer digits and trimmed thousandths `toLocaleString("en")` writes for
/// shortest digits `d` led by place `e`, or the first digit buffer the limit
/// refuses.
fn locale_digits(d: &Vec<u8>, e: i32, limits: &FormatLimits) -> (res: Result<
    (Vec<u8>, Vec<u8>),
    FormatError,
>)
    requires
        1 <= d@.len() <= MAX_SHORTEST_DIGITS,
        is_digit_run(d@),
        d@[0] != 0,
        -20000 <= e <= 20000,
    ensures
        match first_over(locale_buffers(d@, e as int), limits.max_output_bytes) {
            Some(b) => res == Err::<(Vec<u8>, Vec<u8>), FormatError>(
                FormatError::OutputLimit { requested: b as usize, maximum: limits.max_output_bytes },
            ),
            None => res matches Ok((w, f)) && {
                let r = locale_round(d@, e as int);
                &&& is_digit_run(w@)
                &&& is_digit_run(f@)
                &&& digit_chars(w@) == dec(r / 1000)
                &&& (f@.len() == 0) == (r % 1000 == 0)
                &&& digit_chars(f@) == trim_zeros(three_digits(r % 1000))
            },
        },
{
    let ghost big_r = locale_round(d@, e as int);
    let (mut whole, mut fraction) = locale_expand(d, e, limits)?;
    locale_round_digits(&mut whole, &mut fraction);
    let ghost fr = fraction@;
    let ghost a2 = run_value(whole@);
    let ghost padded = fr + zero_run((3 - fr.len()) as nat);
    proof {
        lemma_zero_run_value((3 - fr.len()) as nat);
        lemma_run_value_concat(fr, zero_run((3 - fr.len()) as nat));
        lemma_zero_run_digits((3 - fr.len()) as nat);
        lemma_digit_run_concat(fr, zero_run((3 - fr.len()) as nat));
        lemma_three_digits(padded);
        assert(run_value(padded) == run_value(fr) * pow10((3 - fr.len()) as nat));
        assert(a2 * 1000 + run_value(padded) == big_r);
        assert(big_r / 1000 == a2 && big_r % 1000 == run_value(padded)) by (nonlinear_arith)
            requires
                a2 * 1000 + run_value(padded) == big_r,
                run_value(padded) < 1000,
        ;
        assert(digit_chars(padded) =~= digit_chars(fr) + Seq::new(
            (3 - fr.len()) as nat,
            |i: int| '0',
        ));
        lemma_trim_zeros_pad(digit_chars(fr), (3 - fr.len()) as nat);
        lemma_trim_digit_chars(padded);
    }
    while fraction.len() > 0 && fraction[fraction.len() - 1] == 0
        invariant
            is_digit_run(fraction@),
            trim_zeros(digit_chars(fraction@)) == trim_zeros(digit_chars(fr)),
        decreases fraction@.len(),
    {
        let ghost before = fraction@;
        fraction.pop();
        proof {
            assert(before.drop_last() =~= fraction@);
            assert(digit_chars(before).drop_last() =~= digit_chars(fraction@));
            assert(digit_chars(before).last() == '0');
            assert(is_digit_run(fraction@)) by {
                assert forall|i: int| 0 <= i < fraction@.len() implies #[trigger] fraction@[i]
                    < 10 by {
                    assert(fraction@[i] == before[i]);
                }
            }
        }
    }
    proof {
        if fraction@.len() > 0 {
            assert(digit_chars(fraction@).last() != '0') by {
                assert(fraction@[fraction@.len() - 1] != 0);
                assert(fraction@[fraction@.len() - 1] < 10);
            }
        } else {
            assert(digit_chars(fraction@) =~= Seq::<char>::empty());
        }
        assert(trim_zeros(digit_chars(fraction@)) == digit_chars(fraction@));
        lemma_digit_chars_dec(whole@);
    }
    Ok((whole, fraction))
}


/// The sign `toLocaleString` writes: `x.is_sign_negative()`, so negative zero
/// keeps its minus sign.
pub open spec fn locale_sign_pieces(bits: u64) -> Seq<Piece> {
    if sign_bit(bits) {
        seq![Piece::Text(seq!['-'])]
    } else {
        Seq::empty()
    }
}

/// What the positional expansion of shortest digits `d` led by place `e` reports
/// after `pre`: a refused digit buffer, or the rounded text.
pub open spec fn locale_result(
    d: Seq<u8>,
    e: int,
    pre: Seq<char>,
    max: usize,
    res: Result<String, FormatError>,
) -> bool {
    match first_over(locale_buffers(d, e), max) {
        Some(b) => res == Err::<String, FormatError>(
            FormatError::OutputLimit { requested: b as usize, maximum: max },
        ),
        None => reports(res, run_pieces(pre, locale_pieces(d, e), max)),
    }
}

/// What `x.toLocaleString("en")` without grouping reports: `NaN`; otherwise the
/// sign bit's minus, then `∞`, `0`, or the shortest digits laid out
/// positionally with at most three fraction digits, rounded half away from zero.
pub open spec fn locale_outcome(bits: u64, max: usize, res: Result<String, FormatError>) -> bool {
    if is_nan_bits(bits) {
        reports(res, run_pieces(Seq::empty(), seq![Piece::Text(nan_text())], max))
    } else {
        match run_pieces(Seq::empty(), locale_sign_pieces(bits), max) {
            Err(e) => res == Err::<String, FormatError>(e),
            Ok(pre) => if is_infinite_bits(bits) {
                reports(res, run_pieces(pre, seq![Piece::Text(seq!['\u{221e}'])], max))
            } else if split_of(bits) is None {
                reports(res, run_pieces(pre, seq![Piece::Text(seq!['0'])], max))
            } else {
                res == Err::<String, FormatError>(FormatError::AllocationFailed) || (
                MAX_SHORTEST_DIGITS > max && res == Err::<String, FormatError>(
                    FormatError::OutputLimit { requested: MAX_SHORTEST_DIGITS, maximum: max },
                )) || exists|d: Seq<u8>, e: int|
                    #![trigger is_shortest_form(split_of(bits).unwrap(), d, e)]
                    is_shortest_form(split_of(bits).unwrap(), d, e) && locale_result(
                        d,
                        e,
                        pre,
                        max,
                        res,
                    )
            },
        }
    }
}

/// `x.toLocaleString("en")` with the grouping separators removed, as type `d`
/// consumes it.
///
/// d3 only reaches this with an integral magnitude of at least `1e21`, or with an
/// infinity. The fractional path keeps the default `Intl.NumberFormat` settings:
/// at most three fraction digits, rounded half away from zero, trailing zeros
/// dropped, all applied to the shortest decimal rather than the exact value.
pub fn to_locale_string_en(bits: u64, limits: &FormatLimits) -> (res: Result<String, FormatError>)
    ensures
        locale_outcome(bits, limits.max_output_bytes, res),
{
    let max = limits.max_output_bytes;
    let mut out: Vec<char> = Vec::new();
    proof {
        reveal_with_fuel(utf8_len, 1);
        lemma_run_pieces_within(Seq::empty(), locale_sign_pieces(bits), max);
    }
    if nan_bits(bits) {
        write_one(&mut out, nan_chars(), max)?;
        return Ok(string_of(&out));
    }
    if bits >= 0x8000_0000_0000_0000 {
        let minus = vec!['-'];
        assert(minus@ =~= seq!['-']);
        write_one(&mut out, minus, max)?;
    }
    let ghost pre = out@;
    if infinite_bits(bits) {
        let infinity = vec!['\u{221e}'];
        assert(infinity@ =~= seq!['\u{221e}']);
        write_one(&mut out, infinity, max)?;
        return Ok(string_of(&out));
    }
    let (digits, exponent) = match shortest(bits, limits)? {
        None => {
            let zero = vec!['0'];
            assert(zero@ =~= seq!['0']);
            write_one(&mut out, zero, max)?;
            return Ok(string_of(&out));
        },
        Some(parts) => parts,
    };
    let (whole, fraction) = match locale_digits(&digits, exponent, limits) {
        Ok(parts) => parts,
        Err(e) => {
            assert(locale_result(digits@, exponent as int, pre, max, Err(e)));
            return Err(e);
        },
    };
    let ghost r = locale_round(digits@, exponent as int);
    let mut parts: Vec<Part> = Vec::new();
    let whole_text = digit_text(&whole, 0, whole.len());
    assert(whole@.subrange(0, whole@.len() as int) =~= whole@);
    push_part(&mut parts, Part::Text(whole_text));
    if fraction.len() > 0 {
        let dot = vec!['.'];
        assert(dot@ =~= seq!['.']);
        let fraction_text = digit_text(&fraction, 0, fraction.len());
        assert(fraction@.subrange(0, fraction@.len() as int) =~= fraction@);
        push_part(&mut parts, Part::Text(dot));
        push_part(&mut parts, Part::Text(fraction_text));
    }
    assert(parts_view(parts@) =~= locale_pieces(digits@, exponent as int));
    let written_out = run_parts_from(&mut out, &parts, max);
    let ghost outcome = written(written_out, out@);
    match written_out {
        Ok(()) => {
            let s = string_of(&out);
            assert(locale_result(digits@, exponent as int, pre, max, Ok(s)));
            Ok(s)
        },
        Err(e) => {
            assert(locale_result(digits@, exponent as int, pre, max, Err(e)));
            Err(e)
        },
    }
}

// ---------------------------------------------------------------------------
// Math.round and type d
// ---------------------------------------------------------------------------

/// The number of bits of `n`.
pub open spec fn bit_length(n: nat) -> nat
    decreases n,
{
    if n == 0 {
        0
    } else {
        1 + bit_length(n / 2)
    }
}

/// The bits of the double holding the integer `n` (at most `2^53`) with the given
/// sign.
pub open spec fn integer_bits(n: nat, negative: bool) -> u64 {
    let sign: nat = if negative {
        0x8000_0000_0000_0000
    } else {
        0
    };
    if n == 0 {
        sign as u64
    } else {
        let l = bit_length(n);
        let fraction: int = if l <= 53 {
            n * pow2((53 - l) as nat) - 0x10_0000_0000_0000
        } else {
            n / pow2((l - 53) as nat) - 0x10_0000_0000_0000
        };
        (sign + (1022 + l) * 0x10_0000_0000_0000 + fraction) as u64
    }
}

/// `Math.round(x)` for the double `bits` spells: `floor(x + 1/2)`, which is a
/// negative zero for `x` in `[-1/2, 0)`; NaN, the infinities, the zeros and every
/// integral value come back unchanged.
pub open spec fn js_round_bits(bits: u64) -> u64 {
    match split_of(bits) {
        None => bits,
        Some(v) => if v.exponent >= 0 {
            bits
        } else {
            let num = v.significand as nat;
            let den = pow2((-v.exponent) as nat);
            let negative = sign_bit(bits);
            let n: nat = if !negative {
                (2 * num + den) / (2 * den)
            } else if 2 * num <= den {
                0
            } else {
                ((2 * num + den - 1) as nat) / (2 * den)
            };
            integer_bits(n, negative)
        },
    }
}

/// ECMAScript `Math.round`, on the bits of a double.
///
/// Named for the way d3 reaches it: the integer types take `Math.abs(value)`
/// first and only then round, so every reachable argument is non-negative or
/// NaN. The full semantics are implemented anyway: `Math.round(-2.5)` is `-2`,
/// while rounding the magnitude gives `3`.
pub fn js_round_nonnegative(bits: u64) -> (r: u64)
    ensures
        r == js_round_bits(bits),
{
    let value = match split(bits) {
        None => {
            return bits;
        },
        Some(value) => value,
    };
    if value.exponent >= 0 {
        return bits;
    }
    let negative = bits >= 0x8000_0000_0000_0000;
    let shift = (-value.exponent) as u32;
    let num = value.significand as u128;
    let n: u64 = if shift >= 55 {
        // `|x| < 2^53 * 2^-55`, under a quarter: it rounds to zero.
        proof {
            if shift > 55 {
                vstd::arithmetic::power2::lemma_pow2_strictly_increases(55, shift as nat);
            }
            vstd::arithmetic::power2::lemma2_to64_rest();
            lemma_js_round_small(num as nat, pow2(shift as nat), negative);
        }
        0
    } else {
        proof {
            vstd::arithmetic::power2::lemma2_to64();
            vstd::arithmetic::power2::lemma2_to64_rest();
        }
        let den = pow2_u128(shift);
        let rounded: u128 = if !negative {
            (2 * num + den) / (2 * den)
        } else if 2 * num <= den {
            0
        } else {
            (2 * num + den - 1) / (2 * den)
        };
        proof {
            assert(rounded <= 0x20_0000_0000_0000) by (nonlinear_arith)
                requires
                    num < 0x20_0000_0000_0000,
                    den >= 2,
                    !negative ==> rounded == (2 * num + den) / (2 * den),
                    negative && 2 * num <= den ==> rounded == 0,
                    negative && 2 * num > den ==> rounded == (2 * num + den - 1) / (2 * den),
            ;
        }
        rounded as u64
    };
    integer_bits_exec(n, negative)
}

proof fn lemma_js_round_small(num: nat, den: nat, negative: bool)
    requires
        num < 0x20_0000_0000_0000,
        den >= 0x80_0000_0000_0000,
    ensures
        !negative ==> (2 * num + den) / (2 * den) == 0,
        negative ==> 2 * num <= den,
{
    assert((2 * num + den) / (2 * den) == 0) by (nonlinear_arith)
        requires
            num < 0x20_0000_0000_0000,
            den >= 0x80_0000_0000_0000,
    ;
}

/// `2^k` for `k` below 64.
pub(crate) fn pow2_u128(k: u32) -> (p: u128)
    requires
        k < 64,
    ensures
        p == pow2(k as nat),
        p >= 2 || k == 0,
{
    let mut p: u128 = 1;
    let mut i: u32 = 0;
    proof {
        vstd::arithmetic::power2::lemma2_to64();
    }
    while i < k
        invariant
            i <= k,
            k < 64,
            p == pow2(i as nat),
            p <= 0x1_0000_0000_0000_0000,
        decreases k - i,
    {
        proof {
            vstd::arithmetic::power2::lemma_pow2_unfold((i + 1) as nat);
            vstd::arithmetic::power2::lemma_pow2_strictly_increases((i + 1) as nat, 64);
            vstd::arithmetic::power2::lemma2_to64();
        }
        p = p * 2;
        i = i + 1;
    }
    proof {
        if k > 0 {
            vstd::arithmetic::power2::lemma_pow2_unfold(k as nat);
            vstd::arithmetic::power2::lemma_pow2_pos((k - 1) as nat);
        }
    }
    p
}

/// The bits of the double holding `n` with the given sign.
pub(crate) fn integer_bits_exec(n: u64, negative: bool) -> (r: u64)
    requires
        n <= 0x20_0000_0000_0000,
    ensures
        r == integer_bits(n as nat, negative),
{
    let sign: u64 = if negative {
        0x8000_0000_0000_0000
    } else {
        0
    };
    if n == 0 {
        return sign;
    }
    let mut l: u32 = 0;
    let mut m: u64 = n;
    proof {
        lemma_bit_length_bound(n as nat);
    }
    while m > 0
        invariant
            bit_length(n as nat) == l + bit_length(m as nat),
            bit_length(n as nat) <= 54,
        decreases m,
    {
        proof {
            assert(bit_length(m as nat) == 1 + bit_length((m / 2) as nat));
        }
        m = m / 2;
        l = l + 1;
    }
    proof {
        lemma_bit_length_bound(n as nat);
        vstd::arithmetic::power2::lemma2_to64();
        vstd::arithmetic::power2::lemma2_to64_rest();
    }
    let fraction: u64 = if l <= 53 {
        let p = pow2_u128(53 - l) as u64;
        proof {
            lemma_bit_length_top(n as nat);
            vstd::arithmetic::power2::lemma_pow2_adds((l - 1) as nat, (53 - l) as nat);
            vstd::arithmetic::power2::lemma_pow2_adds(l as nat, (53 - l) as nat);
            assert((l - 1) as nat + (53 - l) as nat == 52);
            assert(l as nat + (53 - l) as nat == 53);
            assert(n * p < 0x20_0000_0000_0000) by (nonlinear_arith)
                requires
                    n < pow2(l as nat),
                    p == pow2((53 - l) as nat),
                    pow2(l as nat) * pow2((53 - l) as nat) == 0x20_0000_0000_0000,
            ;
        }
        assert(n * p >= 0x10_0000_0000_0000) by (nonlinear_arith)
            requires
                n >= pow2((l - 1) as nat),
                p == pow2((53 - l) as nat),
                pow2((l - 1) as nat) * pow2((53 - l) as nat) == 0x10_0000_0000_0000,
        ;
        n * p - 0x10_0000_0000_0000
    } else {
        let p = pow2_u128(l - 53) as u64;
        proof {
            lemma_bit_length_top(n as nat);
            vstd::arithmetic::power2::lemma_pow2_adds(52, (l - 53) as nat);
            assert(52 + (l - 53) as nat == (l - 1) as nat);
            vstd::arithmetic::power2::lemma_pow2_pos((l - 53) as nat);
        }
        assert(n / p >= 0x10_0000_0000_0000) by (nonlinear_arith)
            requires
                n >= pow2((l - 1) as nat),
                p == pow2((l - 53) as nat),
                pow2((l - 1) as nat) == 0x10_0000_0000_0000 * pow2((l - 53) as nat),
                p > 0,
        ;
        n / p - 0x10_0000_0000_0000
    };
    sign + ((1022 + l) as u64) * 0x10_0000_0000_0000 + fraction
}

proof fn lemma_bit_length_bound(n: nat)
    requires
        n <= 0x20_0000_0000_0000,
    ensures
        bit_length(n) <= 54,
{
    lemma_bit_length_pow(n);
    vstd::arithmetic::power2::lemma2_to64_rest();
    if bit_length(n) > 54 {
        assert(n >= pow2((bit_length(n) - 1) as nat));
        vstd::arithmetic::power2::lemma_pow2_strictly_increases(53, (bit_length(n) - 1) as nat);
        if bit_length(n) - 1 == 54 {
            assert(pow2(54) == 2 * pow2(53)) by {
                vstd::arithmetic::power2::lemma_pow2_unfold(54);
            }
        }
        assert(false);
    }
}

proof fn lemma_bit_length_top(n: nat)
    requires
        n > 0,
    ensures
        pow2((bit_length(n) - 1) as nat) <= n < pow2(bit_length(n)),
{
    lemma_bit_length_pow(n);
}

proof fn lemma_bit_length_pow(n: nat)
    ensures
        n > 0 ==> pow2((bit_length(n) - 1) as nat) <= n < pow2(bit_length(n)),
        n == 0 ==> bit_length(n) == 0,
    decreases n,
{
    if n > 0 {
        lemma_bit_length_pow(n / 2);
        vstd::arithmetic::power2::lemma_pow2_unfold(bit_length(n));
        if n / 2 == 0 {
            vstd::arithmetic::power2::lemma2_to64();
            assert(n == 1);
        } else {
            vstd::arithmetic::power2::lemma_pow2_unfold((bit_length(n) - 1) as nat);
        }
    }
}


/// What type `d` reports: the value is rounded with `Math.round`, and from
/// `1e21` in magnitude (infinities included) written with `toLocaleString("en")`,
/// below it with `Number::toString`.
pub open spec fn format_decimal_outcome(bits: u64, max: usize, res: Result<String, FormatError>) -> bool {
    let rounded = js_round_bits(bits);
    if is_infinite_bits(rounded) {
        locale_outcome(rounded, max, res)
    } else if split_of(rounded) is Some {
        res == Err::<String, FormatError>(FormatError::AllocationFailed) || if at_least_1e21(
            split_of(rounded).unwrap(),
        ) {
            locale_outcome(rounded, max, res)
        } else {
            number_to_string_outcome(rounded, max, res)
        }
    } else {
        number_to_string_outcome(rounded, max, res)
    }
}

/// Type `d`: `Math.round`, then `toLocaleString("en")` without grouping from
/// `1e21` up and `Number::toString` below, two separate rules at one threshold.
pub fn format_decimal(bits: u64, limits: &FormatLimits) -> (res: Result<String, FormatError>)
    ensures
        format_decimal_outcome(bits, limits.max_output_bytes, res),
{
    let rounded = js_round_nonnegative(bits);
    if infinite_bits(rounded) {
        return to_locale_string_en(rounded, limits);
    }
    match split(rounded) {
        Some(value) => {
            if at_least_1e21_exec(value)? {
                to_locale_string_en(rounded, limits)
            } else {
                number_to_string(rounded, limits)
            }
        },
        None => number_to_string(rounded, limits),
    }
}


// ---------------------------------------------------------------------------
// The conversion a format type names
// ---------------------------------------------------------------------------

/// ASCII upper case of `c`.
pub open spec fn ascii_upper(c: char) -> char {
    if 'a' <= c <= 'z' {
        ((c as u32) - 32) as char
    } else {
        c
    }
}

/// `s` in ASCII upper case: `toUpperCase` on radix output, which is ASCII.
pub open spec fn upper_text(s: Seq<char>) -> Seq<char> {
    Seq::new(s.len(), |i: int| ascii_upper(s[i]))
}

fn upper_char(c: char) -> (u: char)
    ensures
        u == ascii_upper(c),
{
    if 'a' <= c && c <= 'z' {
        let code = (c as u32) - 32;
        proof {
            assert(0x41 <= code <= 0x5a);
        }
        match crate::text::char_from_u32(code) {
            Some(u) => u,
            None => c,
        }
    } else {
        c
    }
}

/// The conversion's text with no SI exponent.
pub open spec fn plain_outcome(
    res: Result<(String, Option<i32>), FormatError>,
    text: Result<String, FormatError>,
) -> bool {
    match (res, text) {
        (Ok((s, prefix)), Ok(t)) => prefix is None && s@ == t@,
        (Err(a), Err(b)) => a == b,
        _ => false,
    }
}

/// What `formatTypes[type](x, precision)` reports for the conversion input
/// `bits`: the magnitude of the (scaled) value, already multiplied by 100 for
/// `%` and `p`. Only type `s` reports an SI exponent.
pub open spec fn convert_outcome(
    l: Layout,
    bits: u64,
    max: usize,
    res: Result<(String, Option<i32>), FormatError>,
) -> bool {
    let p = l.precision;
    match l.resolved_type {
        FormatType::Percent | FormatType::Fixed => exists|t: Result<String, FormatError>|
            #![trigger to_fixed_outcome(bits, p, max, t)]
            to_fixed_outcome(bits, p, max, t) && plain_outcome(res, t),
        FormatType::Binary => exists|t: Result<String, FormatError>|
            #![trigger radix_outcome(js_round_bits(bits), 2, max, t)]
            radix_outcome(js_round_bits(bits), 2, max, t) && plain_outcome(res, t),
        FormatType::Octal => exists|t: Result<String, FormatError>|
            #![trigger radix_outcome(js_round_bits(bits), 8, max, t)]
            radix_outcome(js_round_bits(bits), 8, max, t) && plain_outcome(res, t),
        FormatType::HexLower => exists|t: Result<String, FormatError>|
            #![trigger radix_outcome(js_round_bits(bits), 16, max, t)]
            radix_outcome(js_round_bits(bits), 16, max, t) && plain_outcome(res, t),
        FormatType::HexUpper => exists|t: Result<String, FormatError>|
            #![trigger radix_outcome(js_round_bits(bits), 16, max, t)]
            radix_outcome(js_round_bits(bits), 16, max, t) && match (res, t) {
                (Ok((s, prefix)), Ok(u)) => prefix is None && s@ == upper_text(u@),
                (Err(a), Err(b)) => a == b,
                _ => false,
            },
        FormatType::Decimal => exists|t: Result<String, FormatError>|
            #![trigger format_decimal_outcome(bits, max, t)]
            format_decimal_outcome(bits, max, t) && plain_outcome(res, t),
        FormatType::Exponent => exists|t: Result<String, FormatError>|
            #![trigger to_exponential_outcome(bits, Some(p), max, t)]
            to_exponential_outcome(bits, Some(p), max, t) && plain_outcome(res, t),
        FormatType::RoundedPercent | FormatType::Rounded => exists|t: Result<String, FormatError>|
            #![trigger format_rounded_outcome(bits, p, max, t)]
            format_rounded_outcome(bits, p, max, t) && plain_outcome(res, t),
        FormatType::SiPrefix => format_prefix_auto_outcome(bits, p, max, res),
        FormatType::Character => exists|t: Result<String, FormatError>|
            #![trigger number_to_string_outcome(bits, max, t)]
            number_to_string_outcome(bits, max, t) && plain_outcome(res, t),
        _ => exists|t: Result<String, FormatError>|
            #![trigger to_precision_outcome(bits, p, max, t)]
            to_precision_outcome(bits, p, max, t) && plain_outcome(res, t),
    }
}

/// Type `p` converts as type `r` does: a percentage rounded to significant
/// digits. On the same conversion input (the magnitude already multiplied by 100)
/// and the same precision, the two conversions allow exactly the same outcomes;
/// only the `%` the layout appends sets them apart.
pub proof fn lemma_rounded_percent_converts_as_rounded(
    percent: Layout,
    rounded: Layout,
    bits: u64,
    max: usize,
    res: Result<(String, Option<i32>), FormatError>,
)
    requires
        percent.resolved_type == FormatType::RoundedPercent,
        rounded.resolved_type == FormatType::Rounded,
        percent.precision == rounded.precision,
    ensures
        convert_outcome(percent, bits, max, res) == convert_outcome(rounded, bits, max, res),
{
}

fn plain(t: Result<String, FormatError>) -> (res: Result<(String, Option<i32>), FormatError>)
    ensures
        plain_outcome(res, t),
{
    match t {
        Ok(s) => Ok((s, None)),
        Err(e) => Err(e),
    }
}

impl Layout {
    /// `formatTypes[type](x, precision)` on the conversion input `bits`: the
    /// magnitude of the (scaled) value, already multiplied by 100 for `%` and
    /// `p`. The second half of the answer is type `s`'s SI exponent, which d3
    /// leaves in a module-level variable.
    pub fn convert(&self, bits: u64, limits: &FormatLimits) -> (res: Result<
        (String, Option<i32>),
        FormatError,
    >)
        requires
            self.precision <= 21,
        ensures
            convert_outcome(*self, bits, limits.max_output_bytes, res),
    {
        let p = self.precision;
        let max = limits.max_output_bytes;
        match self.resolved_type {
            FormatType::Percent | FormatType::Fixed => {
                let t = to_fixed(bits, p, limits);
                let ghost g = t;
                let r = plain(t);
                assert(to_fixed_outcome(bits, p, max, g) && plain_outcome(r, g));
                r
            },
            FormatType::Binary => {
                let t = round_to_string_radix(bits, 2, limits);
                let ghost g = t;
                let r = plain(t);
                assert(radix_outcome(js_round_bits(bits), 2, max, g) && plain_outcome(r, g));
                r
            },
            FormatType::Octal => {
                let t = round_to_string_radix(bits, 8, limits);
                let ghost g = t;
                let r = plain(t);
                assert(radix_outcome(js_round_bits(bits), 8, max, g) && plain_outcome(r, g));
                r
            },
            FormatType::HexLower => {
                let t = round_to_string_radix(bits, 16, limits);
                let ghost g = t;
                let r = plain(t);
                assert(radix_outcome(js_round_bits(bits), 16, max, g) && plain_outcome(r, g));
                r
            },
            FormatType::HexUpper => {
                // `toUpperCase` on ASCII output, "Infinity" included; the `0x` the
                // `#` symbol adds stays lower case.
                let t = round_to_string_radix(bits, 16, limits);
                let ghost g = t;
                match t {
                    Ok(text) => {
                        let chars = chars_of(text.as_str());
                        let mut upper: Vec<char> = Vec::new();
                        let mut i: usize = 0;
                        while i < chars.len()
                            invariant
                                i <= chars@.len(),
                                upper@ == upper_text(chars@.take(i as int)),
                            decreases chars@.len() - i,
                        {
                            upper.push(upper_char(chars[i]));
                            i = i + 1;
                            assert(upper@ =~= upper_text(chars@.take(i as int)));
                        }
                        assert(chars@.take(i as int) =~= chars@);
                        let s = string_of(&upper);
                        let r: Result<(String, Option<i32>), FormatError> = Ok((s, None));
                        assert(radix_outcome(js_round_bits(bits), 16, max, g));
                        r
                    },
                    Err(e) => {
                        let r: Result<(String, Option<i32>), FormatError> = Err(e);
                        assert(radix_outcome(js_round_bits(bits), 16, max, g));
                        r
                    },
                }
            },
            FormatType::Decimal => {
                let t = format_decimal(bits, limits);
                let ghost g = t;
                let r = plain(t);
                assert(format_decimal_outcome(bits, max, g) && plain_outcome(r, g));
                r
            },
            FormatType::Exponent => {
                let t = to_exponential(bits, Some(p), limits);
                let ghost g = t;
                let r = plain(t);
                assert(to_exponential_outcome(bits, Some(p), max, g) && plain_outcome(r, g));
                r
            },
            FormatType::RoundedPercent | FormatType::Rounded => {
                let t = format_rounded(bits, p, limits);
                let ghost g = t;
                let r = plain(t);
                assert(format_rounded_outcome(bits, p, max, g) && plain_outcome(r, g));
                r
            },
            FormatType::SiPrefix => format_prefix_auto(bits, p, limits),
            FormatType::Character => {
                let t = number_to_string(bits, limits);
                let ghost g = t;
                let r = plain(t);
                assert(number_to_string_outcome(bits, max, g) && plain_outcome(r, g));
                r
            },
            // `n`, the empty type and an unknown letter resolve to `g`, and the
            // input-kind gate keeps `c` off the numeric path; each arm is the
            // conversion its type resolves to.
            _ => {
                let t = to_precision(bits, p, limits);
                let ghost g = t;
                let r = plain(t);
                assert(to_precision_outcome(bits, p, max, g) && plain_outcome(r, g));
                r
            },
        }
    }
}

} // verus!
