//! The precision suggestions, on the bits of doubles.

use d3_format::precision::{
    as_precision, precision_fixed, precision_prefix, precision_round, MATH_NAN_BITS,
};

fn b(x: f64) -> u64 {
    x.to_bits()
}

fn val(bits: u64) -> f64 {
    f64::from_bits(bits)
}

/// `precision_round` with the double subtraction its caller makes.
fn round(step: f64, max: f64) -> f64 {
    val(precision_round(b(step), b(max.abs() - step.abs())))
}

/// Every NaN the three helpers can answer with, by bit pattern.
fn assert_math_nan(value: u64, what: &str) {
    assert_eq!(
        format!("{:016X}", value),
        "FFF8000000000000",
        "{what} must be the NaN Math.max answers with"
    );
}

#[test]
fn math_nan_is_the_negative_quiet_nan_the_oracle_returns() {
    assert_math_nan(MATH_NAN_BITS, "MATH_NAN");
    assert!(val(MATH_NAN_BITS).is_nan() && val(MATH_NAN_BITS).is_sign_negative());
    assert_eq!(format!("{:016X}", f64::NAN.to_bits()), "7FF8000000000000");
}

#[test]
fn precision_fixed_matches_the_oracle_assertions() {
    assert_eq!(val(precision_fixed(b(8.9))), 0.0);
    assert_eq!(val(precision_fixed(b(1.1))), 0.0);
    assert_eq!(val(precision_fixed(b(0.89))), 1.0);
    assert_eq!(val(precision_fixed(b(0.11))), 1.0);
    assert_eq!(val(precision_fixed(b(0.089))), 2.0);
    assert_eq!(val(precision_fixed(b(0.011))), 2.0);
    assert_eq!(precision_fixed(b(8.9)), 0.0_f64.to_bits());
}

#[test]
fn precision_fixed_is_nan_where_there_is_no_exponent() {
    for step in [0.0, -0.0, f64::NAN, f64::INFINITY, f64::NEG_INFINITY] {
        assert_math_nan(precision_fixed(b(step)), &format!("precisionFixed({step})"));
    }
}

#[test]
fn precision_round_matches_the_oracle_assertions() {
    assert_eq!(round(0.1, 1.1), 2.0);
    assert_eq!(round(0.01, 0.99), 2.0);
    assert_eq!(round(0.01, 1.00), 2.0);
    assert_eq!(round(0.01, 1.01), 3.0);
}

#[test]
fn precision_round_is_nan_where_there_is_no_exponent() {
    for step in [0.0, f64::NAN, f64::INFINITY, f64::NEG_INFINITY] {
        let reduced = 1.0_f64 - step.abs();
        assert_math_nan(
            precision_round(b(step), b(reduced)),
            &format!("precisionRound({step}, 1)"),
        );
    }
}

#[test]
fn precision_round_uses_ordinary_f64_subtraction() {
    // Exactly, 1.0000000000000002 - 2.5e-16 is just below one; the double
    // subtraction rounds it to one, and the answer follows the rounded value.
    assert_eq!(1.0000000000000002_f64 - 2.5e-16, 1.0);
    assert_eq!(round(2.5e-16, 1.0000000000000002), 17.0);
}

#[test]
fn precision_prefix_returns_zero_when_step_shares_the_values_units() {
    let mut bucket = -24;
    while bucket <= 24 {
        for exponent in bucket..bucket + 3 {
            let step = format!("1e{bucket}").parse::<f64>().expect("finite");
            let value = format!("1e{exponent}").parse::<f64>().expect("finite");
            assert_eq!(
                val(precision_prefix(b(step), b(value))),
                0.0,
                "1e{bucket}, 1e{exponent}"
            );
        }
        bucket += 3;
    }
}

#[test]
fn precision_prefix_counts_the_fractional_digits_a_step_needs() {
    let mut bucket = -24;
    while bucket <= 24 {
        for exponent in bucket - 4..bucket {
            let step = format!("1e{exponent}").parse::<f64>().expect("finite");
            let value = format!("1e{bucket}").parse::<f64>().expect("finite");
            assert_eq!(
                val(precision_prefix(b(step), b(value))),
                f64::from(bucket - exponent),
                "1e{exponent}, 1e{bucket}"
            );
        }
        bucket += 3;
    }
}

#[test]
fn precision_prefix_saturates_at_the_yocto_and_yotta_buckets() {
    let prefix = |step: f64, value: f64| val(precision_prefix(b(step), b(value)));
    assert_eq!(prefix(1e-24, 1e-24), 0.0);
    assert_eq!(prefix(1e-25, 1e-25), 1.0);
    assert_eq!(prefix(1e-26, 1e-26), 2.0);
    assert_eq!(prefix(1e-27, 1e-27), 3.0);
    assert_eq!(prefix(1e-28, 1e-28), 4.0);
    assert_eq!(prefix(1e24, 1e24), 0.0);
    assert_eq!(prefix(1e24, 1e25), 0.0);
    assert_eq!(prefix(1e24, 1e26), 0.0);
    assert_eq!(prefix(1e24, 1e27), 0.0);
    assert_eq!(prefix(1e23, 1e27), 1.0);
}

#[test]
fn precision_prefix_is_nan_where_there_is_no_exponent() {
    for step in [0.0, f64::NAN, f64::INFINITY, f64::NEG_INFINITY] {
        assert_math_nan(
            precision_prefix(b(step), b(1.0)),
            &format!("precisionPrefix({step}, 1)"),
        );
    }
    for value in [0.0, f64::NAN, f64::INFINITY] {
        assert_math_nan(
            precision_prefix(b(1.0), b(value)),
            &format!("precisionPrefix(1, {value})"),
        );
    }
}

#[test]
fn as_precision_accepts_only_whole_non_negative_values_in_range() {
    assert_eq!(as_precision(b(0.0)), Some(0));
    assert_eq!(as_precision(b(-0.0)), Some(0));
    assert_eq!(as_precision(b(21.0)), Some(21));
    assert_eq!(as_precision(b(f64::from(u32::MAX))), Some(u32::MAX));
    assert_eq!(as_precision(b(f64::NAN)), None);
    assert_eq!(as_precision(b(f64::INFINITY)), None);
    assert_eq!(as_precision(b(-1.0)), None);
    assert_eq!(as_precision(b(2.5)), None);
    assert_eq!(as_precision(b(f64::from(u32::MAX) + 1.0)), None);
}

#[test]
fn the_suggestions_feed_a_specifier_precision() {
    assert_eq!(as_precision(precision_fixed(b(0.089))), Some(2));
    assert_eq!(as_precision(precision_fixed(b(0.0))), None);
    assert_eq!(as_precision(b(0.5)), None);
    assert_eq!(as_precision(b(1e300)), None);
    assert_eq!(as_precision(b(4096.0)), Some(4096));
}
