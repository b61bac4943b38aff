//! The three precision suggestions (`precisionFixed`, `precisionRound`,
//! `precisionPrefix`) and the step from a suggestion to a specifier's precision.
//!
//! d3 answers in doubles, and a NaN where there is no exponent to work from, so
//! these answer with the bits of a double. Every NaN they give passes through
//! `Math.max`, which answers with one fixed NaN whatever its operands are.
use vstd::arithmetic::power2::pow2;
use vstd::prelude::*;

use crate::decimal::{
    exponent, integer_bits, integer_bits_exec, is_zero_bits, pow2_u128, shortest_exponent_is,
    si_prefix_exponent, si_prefix_exponent_is, sign_bit, split, split_of,
};

verus! {

/// The NaN `Math.max` and `Math.min` answer with: the negative quiet NaN, not
/// the positive one Rust spells `f64::NAN`.
pub const MATH_NAN_BITS: u64 = 0xFFF8_0000_0000_0000;

/// `Math.max(0, x)` for an integer `x`.
pub open spec fn at_least_zero(x: int) -> nat {
    if x < 0 {
        0
    } else {
        x as nat
    }
}

/// `Math.max(0, d)` for the integer `d`, as the bits of a double.
fn nonnegative_bits(d: i64) -> (r: u64)
    requires
        d <= 0x20_0000_0000_0000,
    ensures
        r == integer_bits(at_least_zero(d as int), false),
{
    if d < 0 {
        integer_bits_exec(0, false)
    } else {
        integer_bits_exec(d as u64, false)
    }
}

/// The number of fixed-point decimal digits needed to show `step`:
/// `Math.max(0, -exponent(Math.abs(step)))`, on the bits of `step`.
///
/// [`MATH_NAN_BITS`] for a zero or non-finite step.
pub fn precision_fixed(step: u64) -> (r: u64)
    ensures
        split_of(step) is None ==> r == MATH_NAN_BITS,
        r == MATH_NAN_BITS || exists|e: int|
            #![trigger shortest_exponent_is(step, e)]
            shortest_exponent_is(step, e) && r == integer_bits(at_least_zero(-e), false),
{
    match exponent(step) {
        None => MATH_NAN_BITS,
        Some(e) => {
            let r = nonnegative_bits(-(e as i64));
            assert(shortest_exponent_is(step, e as int));
            r
        },
    }
}

/// The number of significant digits needed to tell `max` from `max - step`:
/// `1 + Math.max(0, exponent(Math.abs(max) - Math.abs(step)) -
/// exponent(Math.abs(step)))`.
///
/// The subtraction is an ordinary double one, and its rounding is part of the
/// answer, so it arrives done: `reduced_max` is the bits of
/// `Math.abs(max) - Math.abs(step)`. [`MATH_NAN_BITS`] where either operand has
/// no exponent.
pub fn precision_round(step: u64, reduced_max: u64) -> (r: u64)
    ensures
        split_of(step) is None || split_of(reduced_max) is None ==> r == MATH_NAN_BITS,
        r == MATH_NAN_BITS || exists|es: int, em: int|
            #![trigger shortest_exponent_is(step, es), shortest_exponent_is(reduced_max, em)]
            shortest_exponent_is(step, es) && shortest_exponent_is(reduced_max, em) && r
                == integer_bits(at_least_zero(em - es) + 1, false),
{
    match (exponent(step), exponent(reduced_max)) {
        (Some(es), Some(em)) => {
            let d = em as i64 - es as i64;
            let n: u64 = if d < 0 {
                1
            } else {
                d as u64 + 1
            };
            assert(n == at_least_zero(em - es) + 1);
            let r = integer_bits_exec(n, false);
            assert(shortest_exponent_is(step, es as int) && shortest_exponent_is(
                reduced_max,
                em as int,
            ));
            r
        },
        _ => MATH_NAN_BITS,
    }
}

/// The number of digits needed to show `step` under the SI prefix `value`
/// selects: `Math.max(0, Math.max(-8, Math.min(8, Math.floor(exponent(value) /
/// 3))) * 3 - exponent(Math.abs(step)))`. The bucket is the one `formatPrefix`
/// uses. [`MATH_NAN_BITS`] where either has no exponent.
pub fn precision_prefix(step: u64, value: u64) -> (r: u64)
    ensures
        split_of(step) is None || split_of(value) is None ==> r == MATH_NAN_BITS,
        r == MATH_NAN_BITS || exists|es: int, p: int|
            #![trigger shortest_exponent_is(step, es), si_prefix_exponent_is(value, p)]
            shortest_exponent_is(step, es) && si_prefix_exponent_is(value, p) && r == integer_bits(
                at_least_zero(p - es),
                false,
            ),
{
    match (si_prefix_exponent(value), exponent(step)) {
        (Some(p), Some(es)) => {
            let r = nonnegative_bits(p as i64 - es as i64);
            assert(shortest_exponent_is(step, es as int) && si_prefix_exponent_is(value, p as int));
            r
        },
        _ => MATH_NAN_BITS,
    }
}

/// The whole non-negative number a double denotes, if it denotes one: zero for
/// either zero; `None` for a negative, a fraction, an infinity or a NaN.
pub open spec fn whole_value(bits: u64) -> Option<nat> {
    if is_zero_bits(bits) {
        Some(0)
    } else {
        match split_of(bits) {
            None => None,
            Some(v) => if sign_bit(bits) {
                None
            } else if v.exponent >= 0 {
                Some(v.significand as nat * pow2(v.exponent as nat))
            } else if (v.significand as nat) % pow2((-v.exponent) as nat) == 0 {
                Some((v.significand as nat) / pow2((-v.exponent) as nat))
            } else {
                None
            },
        }
    }
}

/// The `u32` precision a suggestion denotes, or `None` if it denotes none: a
/// NaN, a negative, a fraction or a value past `u32::MAX` is `None`.
pub fn as_precision(value: u64) -> (r: Option<u32>)
    ensures
        r == (match whole_value(value) {
            Some(n) => if n <= u32::MAX {
                Some(n as u32)
            } else {
                None::<u32>
            },
            None => None,
        }),
{
    let biased = (value / 0x10_0000_0000_0000) % 2048;
    let fraction = value % 0x10_0000_0000_0000;
    if biased == 0 && fraction == 0 {
        return Some(0);
    }
    let v = match split(value) {
        None => return None,
        Some(v) => v,
    };
    if value >= 0x8000_0000_0000_0000 {
        return None;
    }
    proof {
        vstd::arithmetic::power2::lemma2_to64();
        vstd::arithmetic::power2::lemma2_to64_rest();
    }
    if v.exponent >= 0 {
        if v.exponent >= 32 {
            proof {
                if v.exponent > 32 {
                    vstd::arithmetic::power2::lemma_pow2_strictly_increases(32, v.exponent as nat);
                }
                assert(v.significand as nat * pow2(v.exponent as nat) >= pow2(v.exponent as nat))
                    by (nonlinear_arith)
                    requires
                        v.significand >= 1,
                        pow2(v.exponent as nat) > 0,
                ;
            }
            return None;
        }
        let p = pow2_u128(v.exponent as u32);
        proof {
            vstd::arithmetic::power2::lemma_pow2_adds(53, v.exponent as nat);
            vstd::arithmetic::power2::lemma_pow2_strictly_increases((53 + v.exponent) as nat, 127);
            assert((v.significand as u128) * p < pow2(53) * pow2(v.exponent as nat))
                by (nonlinear_arith)
                requires
                    v.significand < pow2(53),
                    p == pow2(v.exponent as nat),
                    p > 0,
            ;
            assert(pow2(127) < 0x1_0000_0000_0000_0000_0000_0000_0000_0000) by {
                vstd::arithmetic::power2::lemma_pow2_adds(64, 63);
            }
        }
        let n = (v.significand as u128) * p;
        if n <= 0xFFFF_FFFF {
            Some(n as u32)
        } else {
            None
        }
    } else {
        let shift = (-v.exponent) as u32;
        if shift >= 64 {
            proof {
                vstd::arithmetic::power2::lemma_pow2_strictly_increases(53, shift as nat);
                vstd::arithmetic::div_mod::lemma_small_mod(
                    v.significand as nat,
                    pow2(shift as nat),
                );
            }
            return None;
        }
        let p = pow2_u128(shift);
        proof {
            vstd::arithmetic::power2::lemma_pow2_strictly_increases(shift as nat, 64);
        }
        let d = p as u64;
        if v.significand % d != 0 {
            return None;
        }
        let q = v.significand / d;
        if q <= 0xFFFF_FFFF {
            Some(q as u32)
        } else {
            None
        }
    }
}

} // verus!
