//! The numeric contract, exercised from outside the crate. Values travel as the
//! bits of a double; `f64` appears here only to spell those bits.

use d3_format::decimal::{
    exponent, format_decimal, format_decimal_parts, format_prefix_auto, format_rounded,
    js_round_nonnegative, number_to_string, round_to_string_radix, shortest,
    si_prefix_exponent, si_prefix_scale, si_scale_bits, significant_digits, split,
    to_exponential, to_fixed, to_locale_string_en, to_precision, Half, Split,
};
use d3_format::limits::{DEFAULT_MAX_OUTPUT_BYTES, DEFAULT_MAX_WIDTH_UTF16};
use d3_format::{FormatError, FormatLimits};

const LIMITS: FormatLimits = FormatLimits {
    max_width_utf16: DEFAULT_MAX_WIDTH_UTF16,
    max_output_bytes: DEFAULT_MAX_OUTPUT_BYTES,
};

fn limits() -> FormatLimits {
    LIMITS
}

fn b(x: f64) -> u64 {
    x.to_bits()
}

/// The `f64` one unit in the last place above `x`, for `x` finite and positive.
fn next_up(x: f64) -> f64 {
    f64::from_bits(x.to_bits() + 1)
}

/// The `f64` one unit in the last place below `x`, for `x` finite and positive.
fn next_down(x: f64) -> f64 {
    f64::from_bits(x.to_bits() - 1)
}

/// `si_prefix_scale` as a double, with d3's NaN for a degenerate reference.
fn scale_of(reference: f64) -> f64 {
    match si_prefix_scale(b(reference)) {
        Some(bits) => f64::from_bits(bits),
        None => f64::NAN,
    }
}

#[test]
fn si_scale_table_matches_its_decimal_literals() {
    let literals: [f64; 17] = [
        1e24, 1e21, 1e18, 1e15, 1e12, 1e9, 1e6, 1e3, 1e0, 1e-3, 1e-6, 1e-9, 1e-12, 1e-15,
        1e-18, 1e-21, 1e-24,
    ];
    for (index, literal) in literals.iter().enumerate() {
        assert_eq!(
            f64::from_bits(si_scale_bits(index).unwrap()).to_bits(),
            literal.to_bits(),
            "SI scale {index}"
        );
    }
    assert_eq!(si_scale_bits(17), None);
}

#[test]
fn splits_the_extremes_exactly() {
    assert_eq!(split(b(0.0)), None);
    assert_eq!(split(b(-0.0)), None);
    assert_eq!(split(b(f64::NAN)), None);
    assert_eq!(split(b(f64::INFINITY)), None);
    assert_eq!(
        split(b(1.0)),
        Some(Split {
            significand: 1 << 52,
            exponent: -52
        })
    );
    assert_eq!(
        split(1),
        Some(Split {
            significand: 1,
            exponent: -1074
        })
    );
    assert_eq!(
        split(b(f64::MAX)),
        Some(Split {
            significand: (1 << 53) - 1,
            exponent: 971
        })
    );
}

#[test]
fn the_two_tie_rules_are_different_rules() {
    // 2^50 + 1/4: both spellings below are 17 significant digits and both read
    // back as this value; `Number::toString` keeps the even one, `toFixed` the
    // larger one.
    let value = 1_125_899_906_842_624.0_f64 + 0.25;
    assert_eq!(
        number_to_string(b(value), &limits()).unwrap(),
        "1125899906842624.2"
    );
    assert_eq!(
        to_fixed(b(value), 1, &limits()).unwrap(),
        "1125899906842624.3"
    );
    assert_eq!(
        to_precision(b(value), 17, &limits()).unwrap(),
        "1125899906842624.3"
    );
}

#[test]
fn shortest_reproduces_the_ecmascript_spellings() {
    let cases: [(f64, &str, i32); 8] = [
        (1.0, "1", 0),
        (1.5, "15", 0),
        (0.1, "1", -1),
        (1e21, "1", 21),
        (f64::MAX, "17976931348623157", 308),
        (f64::from_bits(1), "5", -324),
        (f64::MIN_POSITIVE, "22250738585072014", -308),
        (1.29e-30, "129", -30),
    ];
    for (value, digits, exponent) in cases {
        let (actual, actual_exponent) = shortest(b(value), &limits()).unwrap().unwrap();
        let rendered: String = actual.iter().map(|d| (b'0' + d) as char).collect();
        assert_eq!(
            (rendered.as_str(), actual_exponent),
            (digits, exponent),
            "{value}"
        );
    }
    assert_eq!(shortest(b(0.0), &limits()).unwrap(), None);
    assert_eq!(shortest(b(f64::NAN), &limits()).unwrap(), None);
}

#[test]
fn rounding_is_half_away_from_zero_not_half_even() {
    assert_eq!(to_precision(b(2.5), 1, &limits()).unwrap(), "3");
    assert_eq!(to_precision(b(0.125), 2, &limits()).unwrap(), "0.13");
    assert_eq!(to_fixed(b(0.125), 2, &limits()).unwrap(), "0.13");
    assert_eq!(to_fixed(b(2.5), 0, &limits()).unwrap(), "3");

    let (_, _, half) = significant_digits(b(0.125), 2, &limits())
        .unwrap()
        .unwrap();
    assert_eq!(half, Half::Exact, "0.125 is an exact tie at two digits");
}

#[test]
fn the_1e21_threshold_is_two_separate_rules() {
    assert_eq!(to_fixed(b(1e21), 2, &limits()).unwrap(), "1e+21");
    assert_eq!(
        format_decimal(b(1e21), &limits()).unwrap(),
        "1000000000000000000000"
    );
}

#[test]
fn negative_zero_keeps_ecmascripts_sign_policy() {
    assert_eq!(number_to_string(b(-0.0), &limits()).unwrap(), "0");
    assert_eq!(to_fixed(b(-0.0), 2, &limits()).unwrap(), "0.00");
    assert_eq!(to_fixed(b(-0.0001), 2, &limits()).unwrap(), "-0.00");
    assert_eq!(
        to_exponential(b(-0.0), Some(2), &limits()).unwrap(),
        "0.00e+0"
    );
    assert_eq!(js_round_nonnegative(b(-0.4)), (-0.0f64).to_bits());
}

#[test]
fn radix_output_reaches_the_1024_bit_representation_of_f64_max() {
    let binary = round_to_string_radix(b(f64::MAX), 2, &limits()).unwrap();
    assert_eq!(binary.len(), 1024);
    assert!(binary.starts_with("1111111111111111111111111111111111111111111111111111"));
    assert!(binary.ends_with('0'));
    assert_eq!(
        round_to_string_radix(b(f64::MAX), 16, &limits())
            .unwrap()
            .len(),
        256
    );
}

#[test]
fn a_nan_reference_never_indexes_the_prefix_table() {
    for reference in [0.0, -0.0, f64::NAN, f64::INFINITY, f64::NEG_INFINITY] {
        assert!(scale_of(reference).is_nan(), "{reference}");
        assert_eq!(si_prefix_exponent(b(reference)), None);
    }
    assert_eq!(scale_of(-1.5e-7).to_bits(), 1e9f64.to_bits());
    assert_eq!(si_prefix_exponent(b(-1.5e-7)), Some(-9));
}

#[test]
fn output_limits_are_enforced_rather_than_allocated() {
    let tight = FormatLimits {
        max_width_utf16: 1,
        max_output_bytes: 4,
    };
    assert!(matches!(
        to_fixed(b(1.0), 20, &tight),
        Err(FormatError::OutputLimit { .. })
    ));
    assert_eq!(to_fixed(b(1.0), 2, &tight).unwrap(), "1.00");
}

/// Each value is an exact binary tie at the requested precision, so half away
/// from zero and half to even give different answers.
#[test]
fn ties_round_away_from_zero_where_half_even_would_round_down() {
    // value, precision, ECMAScript, what half-to-even would have said
    let fixed: [(f64, u32, &str, &str); 9] = [
        (0.5, 0, "1", "0"),
        (2.5, 0, "3", "2"),
        (4.5, 0, "5", "4"),
        (0.125, 2, "0.13", "0.12"),
        (0.375, 2, "0.38", "0.38"),
        (1.0625, 3, "1.063", "1.062"),
        (0.015625, 5, "0.01563", "0.01562"),
        (8.5, 0, "9", "8"),
        (16.5, 0, "17", "16"),
    ];
    for (value, precision, ecmascript, half_even) in fixed {
        let actual = to_fixed(b(value), precision, &LIMITS).unwrap();
        assert_eq!(actual, ecmascript, "toFixed({value}, {precision})");
        if ecmascript != half_even {
            assert_ne!(
                actual, half_even,
                "toFixed({value}, {precision}) rounded to even"
            );
        }
    }

    assert_eq!(to_precision(b(2.5), 1, &LIMITS).unwrap(), "3");
    assert_eq!(to_exponential(b(2.5), Some(0), &LIMITS).unwrap(), "3e+0");
    assert_eq!(format!("{:.0}", 2.5_f64), "2");
    assert_eq!(format!("{:.2}", 0.125_f64), "0.12");
}

/// The rounding decision is made against the exact value of the bits.
#[test]
fn near_ties_are_decided_by_the_exact_binary_value() {
    assert_eq!(to_fixed(b(1.005), 2, &LIMITS).unwrap(), "1.00");
    assert_eq!(to_fixed(b(1.015), 2, &LIMITS).unwrap(), "1.01");
    assert_eq!(to_fixed(b(1.045), 2, &LIMITS).unwrap(), "1.04");
    assert_eq!(to_fixed(b(2.675), 2, &LIMITS).unwrap(), "2.67");
    assert_eq!(to_fixed(b(9.995), 2, &LIMITS).unwrap(), "9.99");
    assert_eq!(to_fixed(b(8.535), 2, &LIMITS).unwrap(), "8.54");
    assert_eq!(to_fixed(b(2.345), 2, &LIMITS).unwrap(), "2.35");
    assert_eq!(to_fixed(b(4.355), 2, &LIMITS).unwrap(), "4.36");
}

#[test]
fn the_shortest_conversion_breaks_exact_ties_toward_even() {
    let value = 1_125_899_906_842_624.0_f64 + 0.25;
    assert_eq!(
        number_to_string(b(value), &LIMITS).unwrap(),
        "1125899906842624.2"
    );
    assert_eq!(to_fixed(b(value), 1, &LIMITS).unwrap(), "1125899906842624.3");
    assert_eq!(
        to_precision(b(value), 17, &LIMITS).unwrap(),
        "1125899906842624.3"
    );
}

#[test]
fn the_1e21_threshold_is_two_independent_rules() {
    // value, toFixed(0), toFixed(2), type `d`
    let cases: [(f64, &str, &str, &str); 4] = [
        (
            next_down(1e21),
            "999999999999999868928",
            "999999999999999868928.00",
            "999999999999999900000",
        ),
        (1e21, "1e+21", "1e+21", "1000000000000000000000"),
        (
            next_up(1e21),
            "1.0000000000000001e+21",
            "1.0000000000000001e+21",
            "1000000000000000100000",
        ),
        (
            next_up(1e20),
            "100000000000000016384",
            "100000000000000016384.00",
            "100000000000000020000",
        ),
    ];
    for (value, fixed0, fixed2, decimal) in cases {
        let bits = value.to_bits();
        assert_eq!(
            to_fixed(bits, 0, &LIMITS).unwrap(),
            fixed0,
            "toFixed({bits:x}, 0)"
        );
        assert_eq!(
            to_fixed(bits, 2, &LIMITS).unwrap(),
            fixed2,
            "toFixed({bits:x}, 2)"
        );
        assert_eq!(
            format_decimal(bits, &LIMITS).unwrap(),
            decimal,
            "type d {bits:x}"
        );
    }

    assert_eq!(
        to_fixed(b(1e20), 2, &LIMITS).unwrap(),
        "100000000000000000000.00"
    );
    assert_eq!(
        format_decimal(b(1e20), &LIMITS).unwrap(),
        "100000000000000000000"
    );
    assert_eq!(
        format_decimal(b(9.999999999999998e21), &LIMITS).unwrap(),
        "9999999999999998000000"
    );
    assert_eq!(
        format_decimal(b(f64::MAX), &LIMITS).unwrap(),
        "17976931348623157".to_string() + &"0".repeat(292)
    );
    assert_eq!(
        to_fixed(b(f64::MAX), 2, &LIMITS).unwrap(),
        "1.7976931348623157e+308"
    );
}

/// Type `d` rounds the magnitude first; `Math.round` on the signed value would
/// answer differently at every negative tie.
#[test]
fn integer_types_take_the_magnitude_before_rounding() {
    assert_eq!(js_round_nonnegative(b(-2.5)), b(-2.0));
    assert_eq!(js_round_nonnegative(b(2.5)), b(3.0));
    assert_eq!(format_decimal(b((-2.5_f64).abs()), &LIMITS).unwrap(), "3");
    assert_eq!(format_decimal(b(-2.5_f64), &LIMITS).unwrap(), "-2");
    assert_eq!(round_to_string_radix(b(2.5), 2, &LIMITS).unwrap(), "11");
    assert_eq!(round_to_string_radix(b(0.5), 2, &LIMITS).unwrap(), "1");
}

/// The switch is decided on the exponent after rounding.
#[test]
fn to_precision_selects_notation_after_rounding() {
    assert_eq!(to_precision(b(999.9), 3, &LIMITS).unwrap(), "1.00e+3");
    assert_eq!(to_precision(b(999.4), 3, &LIMITS).unwrap(), "999");
    assert_eq!(to_precision(b(9.999e-7), 3, &LIMITS).unwrap(), "0.00000100");
    assert_eq!(to_precision(b(9.99e-7), 2, &LIMITS).unwrap(), "0.0000010");
    assert_eq!(to_precision(b(9.99e-8), 2, &LIMITS).unwrap(), "1.0e-7");
    assert_eq!(to_precision(b(1e-6), 3, &LIMITS).unwrap(), "0.00000100");
    assert_eq!(to_precision(b(1e-7), 3, &LIMITS).unwrap(), "1.00e-7");
    assert_eq!(to_precision(b(1e21), 3, &LIMITS).unwrap(), "1.00e+21");
}

#[test]
fn the_non_finite_and_signed_zero_spellings_match_ecmascript() {
    assert_eq!(number_to_string(b(f64::NAN), &LIMITS).unwrap(), "NaN");
    let negative_nan = f64::from_bits(f64::NAN.to_bits() | 0x8000_0000_0000_0000);
    assert!(negative_nan.is_sign_negative() && negative_nan.is_nan());
    assert_eq!(number_to_string(b(negative_nan), &LIMITS).unwrap(), "NaN");
    assert_eq!(to_fixed(b(negative_nan), 2, &LIMITS).unwrap(), "NaN");
    assert_eq!(format_decimal(b(negative_nan), &LIMITS).unwrap(), "NaN");
    assert_eq!(
        round_to_string_radix(b(negative_nan), 16, &LIMITS).unwrap(),
        "NaN"
    );

    assert_eq!(
        number_to_string(b(f64::INFINITY), &LIMITS).unwrap(),
        "Infinity"
    );
    assert_eq!(
        number_to_string(b(f64::NEG_INFINITY), &LIMITS).unwrap(),
        "-Infinity"
    );
    assert_eq!(
        to_fixed(b(f64::NEG_INFINITY), 4, &LIMITS).unwrap(),
        "-Infinity"
    );
    assert_eq!(
        to_locale_string_en(b(f64::INFINITY), &LIMITS).unwrap(),
        "\u{221e}"
    );

    assert_eq!(number_to_string(b(-0.0), &LIMITS).unwrap(), "0");
    assert_eq!(to_fixed(b(-0.0), 2, &LIMITS).unwrap(), "0.00");
    assert_eq!(to_fixed(b(-1e-9), 2, &LIMITS).unwrap(), "-0.00");
    assert_eq!(
        to_exponential(b(-0.0), Some(3), &LIMITS).unwrap(),
        "0.000e+0"
    );
    assert_eq!(format_decimal(b(-0.0), &LIMITS).unwrap(), "0");
    assert_eq!(round_to_string_radix(b(-0.0), 2, &LIMITS).unwrap(), "0");
}

#[test]
fn the_representable_extremes_round_trip() {
    let min_subnormal = f64::from_bits(1);
    assert_eq!(
        number_to_string(b(min_subnormal), &LIMITS).unwrap(),
        "5e-324"
    );
    assert_eq!(
        number_to_string(b(next_up(min_subnormal)), &LIMITS).unwrap(),
        "1e-323"
    );
    assert_eq!(
        number_to_string(b(f64::MIN_POSITIVE), &LIMITS).unwrap(),
        "2.2250738585072014e-308"
    );
    assert_eq!(
        number_to_string(b(next_down(f64::MIN_POSITIVE)), &LIMITS).unwrap(),
        "2.225073858507201e-308"
    );
    assert_eq!(
        number_to_string(b(f64::MAX), &LIMITS).unwrap(),
        "1.7976931348623157e+308"
    );
    assert_eq!(number_to_string(b(1e-6), &LIMITS).unwrap(), "0.000001");
    assert_eq!(number_to_string(b(1e-7), &LIMITS).unwrap(), "1e-7");
    assert_eq!(
        number_to_string(b(next_down(1e-6)), &LIMITS).unwrap(),
        "9.999999999999997e-7"
    );
    assert_eq!(
        number_to_string(b(next_up(1e-7)), &LIMITS).unwrap(),
        "1.0000000000000001e-7"
    );

    assert_eq!(
        to_fixed(b(min_subnormal), 100, &LIMITS).unwrap(),
        format!("0.{}", "0".repeat(100))
    );
    assert_eq!(
        to_exponential(b(min_subnormal), Some(20), &LIMITS).unwrap(),
        "4.94065645841246544177e-324"
    );
}

#[test]
fn radix_output_reaches_the_full_1024_bit_expansion() {
    let binary = round_to_string_radix(b(f64::MAX), 2, &LIMITS).unwrap();
    assert_eq!(binary.len(), 1024);
    assert_eq!(&binary[..53], "1".repeat(53));
    assert_eq!(&binary[53..], "0".repeat(971));

    assert_eq!(
        round_to_string_radix(b(f64::MAX), 16, &LIMITS)
            .unwrap()
            .len(),
        256
    );
    assert_eq!(round_to_string_radix(b(255.0), 16, &LIMITS).unwrap(), "ff");
    assert_eq!(round_to_string_radix(b(255.0), 8, &LIMITS).unwrap(), "377");
    assert_eq!(
        round_to_string_radix(b(-255.6), 16, &LIMITS).unwrap(),
        "-100"
    );
    assert_eq!(
        round_to_string_radix(b(1e21), 4, &LIMITS).unwrap(),
        "31203113021223130113132220000000000"
    );
    assert_eq!(
        round_to_string_radix(b(1e21), 6, &LIMITS).unwrap(),
        "551013104230421441113341344"
    );
    assert_eq!(
        round_to_string_radix(b(1e21), 36, &LIMITS).unwrap(),
        "5v1j4f4ds79m9s"
    );
}

/// Percent scaling is one ordinary multiplication, so it inherits its rounding
/// error, and the digits are those of the product.
#[test]
fn percent_scaling_is_a_plain_multiplication() {
    let percent_scaled = |x: f64| x * 100.0;
    assert_eq!(
        percent_scaled(0.07).to_bits(),
        7.000000000000001_f64.to_bits()
    );
    assert_ne!(percent_scaled(0.07).to_bits(), 7.0_f64.to_bits());
    assert_eq!(
        percent_scaled(0.29).to_bits(),
        28.999999999999996_f64.to_bits()
    );
    assert_eq!(
        number_to_string(b(percent_scaled(0.07)), &LIMITS).unwrap(),
        "7.000000000000001"
    );
}

/// `formatPrefix` multiplies by a pinned constant rather than dividing.
#[test]
fn prefix_scaling_multiplies_by_a_pinned_constant() {
    assert_eq!(scale_of(1e9).to_bits(), 1e-9_f64.to_bits());
    let scaled = scale_of(1e9) * 12_345_678_900.0;
    assert_eq!(scaled.to_bits(), 12.345678900000001_f64.to_bits());
    assert_ne!(scaled.to_bits(), (12_345_678_900.0_f64 / 1e9).to_bits());

    let exponents: [(f64, i32); 7] = [
        (1e-30, -24),
        (1e-24, -24),
        (1e-3, -3),
        (1.0, 0),
        (1e3, 3),
        (1e24, 24),
        (1e30, 24),
    ];
    for (reference, expected) in exponents {
        assert_eq!(
            si_prefix_exponent(b(reference)),
            Some(expected),
            "{reference}"
        );
    }
    assert_eq!(si_prefix_exponent(b(1e-1)), Some(-3));
    assert_eq!(si_prefix_exponent(b(1e-2)), Some(-3));
    assert_eq!(si_prefix_exponent(b(1e-4)), Some(-6));
}

#[test]
fn a_degenerate_prefix_reference_yields_a_nan_scale() {
    for reference in [0.0, -0.0, f64::NAN, f64::INFINITY, f64::NEG_INFINITY] {
        assert_eq!(si_prefix_exponent(b(reference)), None, "{reference}");
        assert_eq!(si_prefix_scale(b(reference)), None, "{reference}");
        assert!(scale_of(reference).is_nan(), "{reference}");
        assert!((scale_of(reference) * 1.0).is_nan(), "{reference}");
        assert_eq!(exponent(b(reference)), None, "{reference}");
    }
    assert_eq!(si_prefix_exponent(b(-1.5e-7)), Some(-9));
    assert_eq!(si_prefix_exponent(b(-1e6)), Some(6));
    assert_eq!(scale_of(-1e6).to_bits(), 1e-6_f64.to_bits());
    assert!(number_to_string(b(scale_of(f64::NAN) * 42.0), &LIMITS)
        .unwrap()
        .eq("NaN"));
}

/// `exponent` comes from the shortest-decimal computation, not a logarithm.
#[test]
fn the_decimal_exponent_is_not_a_logarithm() {
    let cases: [(f64, i32); 8] = [
        (1e23, 23),
        (1e-7, -7),
        (1e22, 22),
        (999.9, 2),
        (1.0, 0),
        (0.1, -1),
        (f64::MAX, 308),
        (f64::from_bits(1), -324),
    ];
    for (value, expected) in cases {
        assert_eq!(exponent(b(value)), Some(expected), "{value}");
        assert_eq!(exponent(b(-value)), Some(expected), "-{value}");
    }
    assert_eq!(exponent(b(0.0)), None);
}

/// A zero precision reaches `toExponential` as "no argument".
#[test]
fn a_zero_precision_means_shortest_not_minus_one() {
    let (digits, exp) = format_decimal_parts(b(1.2345), Some(0), &LIMITS)
        .unwrap()
        .unwrap();
    assert_eq!((digits.as_str(), exp), ("12345", 0));
    let (digits, exp) = format_decimal_parts(b(1.2345), None, &LIMITS)
        .unwrap()
        .unwrap();
    assert_eq!((digits.as_str(), exp), ("12345", 0));
    let (digits, exp) = format_decimal_parts(b(1.2345), Some(3), &LIMITS)
        .unwrap()
        .unwrap();
    assert_eq!((digits.as_str(), exp), ("123", 0));

    assert_eq!(
        format_decimal_parts(b(0.0), Some(3), &LIMITS).unwrap(),
        None
    );
    assert_eq!(
        format_decimal_parts(b(f64::NAN), Some(3), &LIMITS).unwrap(),
        None
    );
    assert_eq!(
        format_decimal_parts(b(f64::INFINITY), None, &LIMITS).unwrap(),
        None
    );

    let (text, prefix) = format_prefix_auto(b(1e-30), 1, &LIMITS).unwrap();
    assert_eq!((text.as_str(), prefix), ("0.000001", Some(-24)));
}

#[test]
fn the_type_r_and_type_s_layouts_match_d3() {
    assert_eq!(format_rounded(b(123.456), 4, &LIMITS).unwrap(), "123.5");
    assert_eq!(
        format_rounded(b(0.000123456), 4, &LIMITS).unwrap(),
        "0.0001235"
    );
    assert_eq!(
        format_rounded(b(1234567.0), 3, &LIMITS).unwrap(),
        "1230000"
    );
    assert_eq!(format_rounded(b(0.0), 3, &LIMITS).unwrap(), "0");

    let (text, prefix) = format_prefix_auto(b(1500.0), 3, &LIMITS).unwrap();
    assert_eq!((text.as_str(), prefix), ("1.50", Some(3)));
    let (text, prefix) = format_prefix_auto(b(999_999.0), 3, &LIMITS).unwrap();
    assert_eq!((text.as_str(), prefix), ("1.00", Some(6)));
    let (text, prefix) = format_prefix_auto(b(0.0), 3, &LIMITS).unwrap();
    assert_eq!((text.as_str(), prefix), ("0.00", None));
    let (text, prefix) = format_prefix_auto(b(f64::NAN), 3, &LIMITS).unwrap();
    assert_eq!((text.as_str(), prefix), ("NaN", None));
}

/// The engine reports the limit rather than allocating past it.
#[test]
fn output_limits_are_reported_not_allocated() {
    let tight = FormatLimits {
        max_width_utf16: 16,
        max_output_bytes: 8,
    };
    assert!(matches!(
        to_fixed(b(1.0), 100, &tight),
        Err(FormatError::OutputLimit { .. })
    ));
    assert!(matches!(
        round_to_string_radix(b(f64::MAX), 2, &tight),
        Err(FormatError::OutputLimit { .. })
    ));
    assert!(matches!(
        format_decimal(b(f64::MAX), &tight),
        Err(FormatError::OutputLimit { .. })
    ));
    assert_eq!(to_fixed(b(1.0), 2, &tight).unwrap(), "1.00");

    match to_fixed(b(1.0), 100, &tight) {
        Err(FormatError::OutputLimit { requested, maximum }) => {
            assert!(requested > maximum);
            assert_eq!(maximum, 8);
        }
        other => panic!("expected an output limit, got {other:?}"),
    }
}

#[test]
fn any_u32_precision_is_accepted_and_refused_over_the_budget() {
    let defaults = FormatLimits::default();
    assert_eq!(
        to_fixed(b(1.0), u32::MAX, &defaults),
        Err(FormatError::OutputLimit {
            requested: u32::MAX as usize,
            maximum: defaults.max_output_bytes,
        })
    );
    assert_eq!(
        to_fixed(b(-2.5), 0x8000_0000, &defaults),
        Err(FormatError::OutputLimit {
            requested: 0x8000_0000,
            maximum: defaults.max_output_bytes,
        })
    );
}

#[test]
fn shortest_digits_end_in_a_non_zero_digit_and_ignore_the_sign() {
    for value in [0.1, 100.0, 1e21, 5e-324, 1.7976931348623157e308, 123456.0, 0.3, 2.5e-7, 10.0] {
        let (digits, exponent) = shortest(b(value), &limits()).unwrap().unwrap();
        assert!(digits.len() <= 17, "{value}");
        assert!(digits.len() == 1 || *digits.last().unwrap() != 0, "{value}: {digits:?}");
        assert_eq!(shortest(b(-value), &limits()).unwrap(), Some((digits, exponent)));
    }
}
