use d3_format::layout::{group_units, si_prefix_of, trim_insignificant, utf16_len, utf16_units};
use d3_format::number_text::formats_as_zero;
use d3_format::{Align, FormatError, FormatLimits, FormatType, Formatter, Locale};

#[test]
fn utf16_length_is_neither_bytes_nor_chars() {
    assert_eq!("\u{1f600}".len(), 4);
    assert_eq!("\u{1f600}".chars().count(), 1);
    assert_eq!(utf16_len("\u{1f600}"), 2);
    assert_eq!(utf16_len("\u{2212}"), 1);
    assert_eq!(utf16_len("abc"), 3);
    assert_eq!(utf16_len(""), 0);
}

#[test]
fn trim_follows_format_trims_two_position_scan() {
    let trim = |text: &str| trim_insignificant(text).unwrap_or_else(|| text.to_owned());
    assert_eq!(trim("1.20000"), "1.2");
    assert_eq!(trim("1.000"), "1");
    assert_eq!(trim("100.00"), "100");
    assert_eq!(trim("0.500"), "0.5");
    assert_eq!(trim("10000"), "10000");
    assert_eq!(trim("1.20e+21"), "1.2e+21");
    assert_eq!(trim("1.2e+21"), "1.2e+21");
    assert_eq!(trim("Infinity"), "Infinity");
    assert_eq!(trim("NaN"), "NaN");
    assert_eq!(trim("\u{221e}"), "\u{221e}");
    assert_eq!(trim(""), "");
    assert_eq!(trim("0"), "0");
    assert_eq!(trim("0.0"), "0");
}

#[test]
fn grouping_is_d3s_substring_walk() {
    let limits = FormatLimits::default();
    let group = |text: &str, sizes: &[u32], width: Option<i64>| {
        group_units(
            &utf16_units(text, &limits).unwrap(),
            sizes,
            ",",
            width,
            &limits,
        )
        .unwrap()
    };
    assert_eq!(group("1234567", &[3], None), "1,234,567");
    assert_eq!(group("12", &[3], None), "12");
    assert_eq!(group("", &[3], None), "");
    assert_eq!(group("1234567", &[3, 2], None), "12,34,567");
    assert_eq!(group("1234567890", &[3, 2], None), "12,345,67,890");
    assert_eq!(group("123456789", &[2, 3], None), "12,34,567,89");
    assert_eq!(group("00001234", &[3], Some(8)), "0,001,234");
}

#[test]
fn the_si_prefix_index_uses_floor_division() {
    assert_eq!(si_prefix_of(-24), "y");
    assert_eq!(si_prefix_of(-6), "\u{b5}");
    assert_eq!(si_prefix_of(0), "");
    assert_eq!(si_prefix_of(3), "k");
    assert_eq!(si_prefix_of(24), "Y");
    assert_eq!(si_prefix_of(27), "");
    assert_eq!(si_prefix_of(-27), "");
}

#[test]
fn the_zero_test_reads_the_formatted_string_not_the_value() {
    assert_eq!(formats_as_zero("0"), Some(true));
    assert_eq!(formats_as_zero("0.00"), Some(true));
    assert_eq!(formats_as_zero("0.000e+0"), Some(true));
    assert_eq!(formats_as_zero("0e-7"), Some(true));
    assert_eq!(formats_as_zero(""), Some(true));
    assert_eq!(formats_as_zero("-0"), Some(true));
    assert_eq!(formats_as_zero("0.01"), Some(false));
    assert_eq!(formats_as_zero("NaN"), Some(false));
    assert_eq!(formats_as_zero("Infinity"), Some(false));
    // Type `d`'s infinity, and a hexadecimal digit run.
    assert_eq!(formats_as_zero("\u{221e}"), Some(false));
    assert_eq!(formats_as_zero("deadbeef"), Some(false));
    // `Number` accepts the radix prefixes and rejects a bare letter.
    assert_eq!(formats_as_zero("0x0"), Some(true));
    assert_eq!(formats_as_zero("0x10"), Some(false));
    assert_eq!(formats_as_zero("b"), Some(false));
}

#[test]
fn the_zero_test_follows_ecmascript_to_number() {
    // Spellings Rust's float parser accepts and `Number` does not: all NaN.
    assert_eq!(formats_as_zero("inf"), Some(false));
    assert_eq!(formats_as_zero("infinity"), Some(false));
    assert_eq!(formats_as_zero("-Infinity"), Some(false));
    // Blank text is zero; a bare point, a dangling exponent or an underscore is NaN.
    assert_eq!(formats_as_zero(" \t\n "), Some(true));
    assert_eq!(formats_as_zero("1."), Some(false));
    assert_eq!(formats_as_zero(".5"), Some(false));
    assert_eq!(formats_as_zero("1e"), Some(false));
    assert_eq!(formats_as_zero("1e+"), Some(false));
    assert_eq!(formats_as_zero("."), Some(false));
    assert_eq!(formats_as_zero("1_0"), Some(false));
    assert_eq!(formats_as_zero("0b0"), Some(true));
    assert_eq!(formats_as_zero("0o17"), Some(false));
    // Far below the smallest subnormal the literal reads as zero; well above it,
    // as a number; near it, as the digits compare with half the smallest
    // subnormal, 2^-1075.
    assert_eq!(formats_as_zero("1e-400"), Some(true));
    assert_eq!(formats_as_zero("4.94e-300"), Some(false));
    assert_eq!(formats_as_zero("4.94e-324"), Some(false));
    assert_eq!(formats_as_zero("2.47e-324"), Some(true));
    assert_eq!(formats_as_zero("-0.000247e-320"), Some(true));
    assert_eq!(formats_as_zero("2.4703282292062328e-324"), Some(false));
    assert_eq!(formats_as_zero("9e-324"), Some(false));
}

#[test]
fn half_the_smallest_subnormal_reads_as_zero_and_anything_above_it_does_not() {
    // 2^-1075 written out in full: a tie, which goes to the even neighbour, zero.
    let tie = "2.4703282292062327208828439643411068618252990130716238221279284125033775363510437593264991818081799618989828234772285886546332835517796989819938739800539093906315035659515570226392290858392449105184435931802849936536152500319370457678249219365623669863658480757001585769269903706311928279558551332927834338409351978015531246597263579574622766465272827220056374006485499977096599470454020828166226237857393450736339007967761930577506740176324673600968951340535537458516661134223766678604162159680461914467291840300530057530849048765391711386591646239524912623653881879636239373280423891018672348497668235089863388587925628302755995657524455507255189313690836254779186948667994968324049705821028513185451396213837722826145437693412532098591327667236328125e-324";
    assert_eq!(formats_as_zero(tie), Some(true));
    assert_eq!(tie.parse::<f64>().unwrap(), 0.0);
    // One more digit past the tie: above it, so the smallest subnormal.
    let above = tie.replace("e-324", "1e-324");
    assert_eq!(formats_as_zero(&above), Some(false));
    assert_eq!(above.parse::<f64>().unwrap(), f64::from_bits(1));
    // Hundreds of digits below the tie, with a non-zero digit far out.
    let long_below = format!("2.{}1e-324", "0".repeat(800));
    assert_eq!(formats_as_zero(&long_below), Some(true));
    assert_eq!(long_below.parse::<f64>().unwrap(), 0.0);
    // The tie's digits with a zero tail, then a non-zero digit far out.
    let long_above = tie.replace("e-324", &format!("{}1e-324", "0".repeat(100)));
    assert_eq!(formats_as_zero(&long_above), Some(false));
    assert_eq!(long_above.parse::<f64>().unwrap(), f64::from_bits(1));
}

/// `format(value)` for a number: the two double multiplications d3 performs
/// (the fixed prefix's scale, then 100 for `%` and `p`), then the library.
fn format_value(f: &Formatter, value: f64) -> Result<String, FormatError> {
    let scaled = match f.layout().prefix_scale {
        Some(bits) => f64::from_bits(bits) * value,
        None => value,
    };
    let magnitude = scaled.abs();
    let conversion = if f.scales_by_hundred() {
        magnitude * 100.0
    } else {
        magnitude
    };
    f.format_scaled_number(scaled.to_bits(), conversion.to_bits())
}

/// `format(spec)(value)` in the default locale.
fn fmt(spec: &str, value: f64) -> String {
    let f = Locale::en_us()
        .formatter(spec)
        .unwrap_or_else(|error| panic!("{spec:?}: {}", error.to_string()));
    format_value(&f, value).unwrap_or_else(|error| panic!("{spec:?}: {}", error.to_string()))
}

/// `formatPrefix(spec, reference)(value)` in the default locale.
fn prefixed(spec: &str, reference: f64, value: f64) -> String {
    let f = Locale::en_us()
        .prefix_formatter(spec, reference.to_bits())
        .unwrap_or_else(|error| panic!("{spec:?} @ {reference}: {}", error.to_string()));
    format_value(&f, value)
        .unwrap_or_else(|error| panic!("{spec:?} @ {reference}: {}", error.to_string()))
}

/// The `ar-001` numerals, which make numeral substitution visible.
fn arabic() -> Locale {
    Locale::builder()
        .decimal("\u{66b}")
        .thousands("\u{66c}")
        .grouping([3])
        .currency("", "")
        .numerals([
            "\u{660}".to_owned(),
            "\u{661}".to_owned(),
            "\u{662}".to_owned(),
            "\u{663}".to_owned(),
            "\u{664}".to_owned(),
            "\u{665}".to_owned(),
            "\u{666}".to_owned(),
            "\u{667}".to_owned(),
            "\u{668}".to_owned(),
            "\u{669}".to_owned(),
        ])
        .build()
        .expect("valid")
}

/// Post-rounding notation and SI exponent selection.
///
/// The SI prefix is chosen from the exponent of the *rounded* digits, not of the
/// input. `999999` at three significant digits rounds to `1.00`, which is a
/// megabyte's worth of exponent even though the input's own exponent is `10^5`; a
/// layout that picked the bucket first would print `1000k`.
#[test]
fn the_si_bucket_follows_the_rounded_digits_not_the_input() {
    assert_eq!(fmt(".3s", 999_999.0), "1.00M");
    assert_eq!(fmt(".3s", 999_500.0), "1.00M");
    // One unit below the tie stays in the smaller bucket, which is the pair that
    // makes this a rounding question rather than a threshold.
    assert_eq!(fmt(".3s", 999_499.0), "999k");
    assert_eq!(fmt(".2s", 999.0), "1.0k");
    assert_eq!(fmt(".2s", 995.0), "1.0k");
    assert_eq!(fmt(".4s", 999_999.0), "1.000M");
    assert_eq!(fmt(".3s", 0.000_999_5), "999\u{b5}");

    // The same question for the non-SI types, which choose notation rather than a
    // bucket but choose it from the same rounded digits.
    assert_eq!(fmt(".2r", 999.0), "1000");
    assert_eq!(fmt(".3g", 999_999.0), "1.00e+6");
    assert_eq!(fmt(".2e", 999.0), "9.99e+2");

    // Past the ends of the table the bucket stops moving and the digits absorb it.
    assert_eq!(fmt("s", 1e24), "1.00000Y");
    assert_eq!(fmt("s", 1.5e24), "1.50000Y");
    assert_eq!(fmt(".3s", 1e-25), "0.10y");
}

/// Floor division via `div_euclid(3)`.
///
/// The SI table is indexed by `8 + e / 3`, and in JavaScript that division is
/// followed by an implicit floor for every negative exponent. Rust's `/` truncates
/// towards zero instead, so `-1 / 3` is `0` where `(-1).div_euclid(3)` is `-1`: the
/// whole small half of the table lands one bucket too high without it.
#[test]
fn the_si_table_index_floors_rather_than_truncates() {
    // Each decade from milli down to yocto, so every negative index is visited and
    // every one of them is a case truncation would move.
    assert_eq!(fmt(".3s", 0.1), "100m");
    assert_eq!(fmt(".3s", 0.01), "10.0m");
    assert_eq!(fmt(".3s", 0.001), "1.00m");
    assert_eq!(fmt(".3s", 0.000_1), "100\u{b5}");
    assert_eq!(fmt(".3s", 0.000_01), "10.0\u{b5}");
    assert_eq!(fmt(".3s", 0.000_001), "1.00\u{b5}");
    assert_eq!(fmt(".3s", 1e-7), "100n");
    assert_eq!(fmt(".3s", 1e-8), "10.0n");
    assert_eq!(fmt(".3s", 1e-9), "1.00n");
    assert_eq!(fmt(".3s", 1e-22), "100y");
    assert_eq!(fmt(".3s", 1e-23), "10.0y");
    assert_eq!(fmt(".3s", 1e-24), "1.00y");
}

/// Abs-before-`Math.round` ordering for the integer types.
///
/// `Math.round` breaks ties towards positive infinity, so its answer for a negative
/// tie depends on whether the magnitude was taken first. d3 takes it first, which
/// makes every integer type round halves away from zero.
#[test]
fn integer_types_round_the_magnitude_not_the_signed_value() {
    // Rounding the signed value would give −2, −1 and −0 for these three.
    assert_eq!(fmt("d", -2.5), "\u{2212}3");
    assert_eq!(fmt("d", -1.5), "\u{2212}2");
    assert_eq!(fmt("d", -0.5), "\u{2212}1");
    assert_eq!(fmt("d", 2.5), "3");
    assert_eq!(fmt("d", 1.5), "2");
    assert_eq!(fmt("d", 0.5), "1");

    // The radix types round through the same helper, so they inherit the ordering.
    assert_eq!(fmt("b", -2.5), "\u{2212}11");
    assert_eq!(fmt("o", -2.5), "\u{2212}3");
    assert_eq!(fmt("x", -2.5), "\u{2212}3");
    assert_eq!(fmt("X", -2.5), "\u{2212}3");
}

/// The negative-zero and negative-NaN sign policy.
///
/// `valueNegative = value < 0 || 1 / value < 0`. The second test is the only thing
/// that sees negative zero, and *neither* test sees a NaN's sign bit, because every
/// comparison against a NaN is false. So `-0` is negative and `-NaN` is not.
#[test]
fn negative_zero_is_negative_and_a_negative_nan_is_not() {
    // Negative zero formats as zero, so the sign is then suppressed -- except under
    // sign `+`, which the suppression rule exempts.
    assert_eq!(fmt("f", -0.0), "0.000000");
    assert_eq!(fmt("(f", -0.0), "0.000000");
    assert_eq!(fmt("+f", -0.0), "\u{2212}0.000000");
    assert_eq!(fmt("+.2s", -0.0), "\u{2212}0.0");
    assert_eq!(fmt("d", -0.0), "0");
    assert_eq!(fmt("x", -0.0), "0");
    assert_eq!(fmt("$,.2f", -0.0), "$0.00");

    // Both NaN sign bits, through all three sign modes. A `+` prepends its plus
    // because the value is not negative, and `(` never wraps a NaN in parentheses.
    for nan in [f64::NAN, -f64::NAN] {
        let bits = nan.to_bits();
        assert_eq!(fmt("f", nan), "NaN", "{bits:016X}");
        assert_eq!(fmt("+f", nan), "+NaN", "{bits:016X}");
        assert_eq!(fmt("(f", nan), "NaN", "{bits:016X}");
    }
    // The sign bit really did differ, so the loop above compared two values.
    assert!(!f64::NAN.is_sign_negative());
    assert!((-f64::NAN).is_sign_negative());
}

/// Formatted-string zero suppression.
///
/// `if (valueNegative && +value === 0 && sign !== "+") valueNegative = false`. The
/// subject is the string the conversion produced, not the value, so the same input
/// keeps or loses its sign depending on the precision it was rendered at.
#[test]
fn a_value_that_rendered_as_zero_loses_its_sign() {
    // The same input at two precisions: rounded away at 2, still there at 6.
    assert_eq!(fmt(".2f", -0.0001), "0.00");
    assert_eq!(fmt(".6f", -0.0001), "\u{2212}0.000100");

    // Sign `+` is exempt; sign `(` is not, so it also drops its parentheses.
    assert_eq!(fmt("+.2f", -0.0001), "\u{2212}0.00");
    assert_eq!(fmt("(.2f", -0.0001), "0.00");

    // The test parses the string, so an exponent or a suffix that keeps it non-zero
    // keeps the sign, and the affixes -- added after -- do not enter into it.
    assert_eq!(fmt(".2e", -0.0001), "\u{2212}1.00e-4");
    assert_eq!(fmt(".1s", -1e-7), "\u{2212}100n");
    assert_eq!(fmt("d", -0.4), "0");
    assert_eq!(fmt("$.2f", -0.001), "$0.00");
    assert_eq!(fmt(".2%", -0.000_01), "0.00%");
}

/// Width is measured in UTF-16 code units.
///
/// Neither bytes nor `char`s. An astral character is one `char`, four bytes and two
/// code units, so the three measures disagree by two on a single emoji -- and the
/// locale's own text is measured the same way, since d3 counts the assembled
/// prefixes and suffixes with `String.prototype.length` too.
#[test]
fn width_counts_utf16_code_units() {
    let locale = Locale::en_us();
    let pad = |spec: &str, text: &str| {
        locale
            .formatter(spec)
            .expect("valid")
            .format_text(text)
            .expect("valid")
    };

    // U+1F600 is two code units, so eight fill characters, not nine.
    assert_eq!(pad(">10c", "\u{1f600}"), "        \u{1f600}");
    assert_eq!(pad("<10c", "\u{1f600}"), "\u{1f600}        ");
    assert_eq!(pad("^10c", "\u{1f600}"), "    \u{1f600}    ");
    // A combining mark is a code unit of its own, so "e" plus U+0301 is two.
    assert_eq!(pad(">10c", "e\u{301}"), "        e\u{301}");

    // The locale's affixes are measured too, and an astral one costs two.
    let astral = |field: Locale, spec: &str, value: f64| {
        format_value(&field.formatter(spec).expect("valid"), value)
    };
    let minus = Locale::builder()
        .decimal(".")
        .minus("\u{1f600}")
        .build()
        .expect("valid");
    assert_eq!(
        astral(minus, "8.2f", -1.0).expect("valid"),
        "  \u{1f600}1.00"
    );
    let nan = Locale::builder()
        .decimal(".")
        .nan("\u{1f600}")
        .build()
        .expect("valid");
    assert_eq!(
        astral(nan, "8.2f", f64::NAN).expect("valid"),
        "      \u{1f600}"
    );
    let currency = Locale::builder()
        .decimal(".")
        .currency("\u{1f600}", "")
        .build()
        .expect("valid");
    assert_eq!(
        astral(currency, "$8.2f", 1.0).expect("valid"),
        "  \u{1f600}1.00"
    );
}

/// Trim before grouping.
///
/// `formatTrim` runs on the converted value before `group` sees it, so the separators
/// are placed in the shortened digits. Grouping first would leave a separator in a
/// position the trimmed string no longer has.
#[test]
fn trimming_happens_before_grouping() {
    assert_eq!(fmt("$,~f", 1234.5), "$1,234.5");
    assert_eq!(fmt(",~g", 1_234_567.0), "1.23457e+6");
    // The trim reaches only the insignificant tail; a fraction that survives it is
    // grouped around, never through.
    assert_eq!(fmt(",.10~f", 1_234_567.1), "1,234,567.1000000001");
}

/// Numeral substitution is last.
///
/// `formatNumerals` runs over the whole assembled string -- fill, sign, separators,
/// affixes and digits alike -- so it reaches an ASCII digit anywhere in the result,
/// including one that is not part of the number.
#[test]
fn numerals_are_substituted_over_the_assembled_string() {
    let arabic = arabic();
    let fmt = |spec: &str, value: f64| {
        format_value(&arabic.formatter(spec).expect("valid"), value).expect("valid")
    };

    // The `0` fill is substituted, which only happens because the pass runs after
    // padding: the fill character itself is an ASCII digit here.
    assert_eq!(
        fmt("0>12,.2f", -1234.56),
        "\u{660}\u{660}\u{660}\u{2212}\u{661}\u{66c}\u{662}\u{663}\u{664}\u{66b}\u{665}\u{666}"
    );
    // Zero-fill grouping, where the padding is grouped in with the digits and then
    // every one of them is substituted.
    assert_eq!(
        fmt("020,.2f", 1234.56),
        "\u{660}\u{66c}\u{660}\u{660}\u{660}\u{66c}\u{660}\u{660}\u{660}\u{66c}\
         \u{660}\u{660}\u{661}\u{66c}\u{662}\u{663}\u{664}\u{66b}\u{665}\u{666}"
    );
    // The SI suffix is not a digit and survives; the digits before it do not.
    assert_eq!(fmt(".3s", 1.3e6), "\u{661}\u{66b}\u{663}\u{660}M");
    // And the sharpest case: the `0` of the `0x` base prefix is substituted while
    // the hexadecimal digits, which are not ASCII `0`-`9`, are left alone.
    assert_eq!(fmt("#x", 48879.0), "\u{660}xbeef");
}

/// The `0x` prefix stays lowercase for type `X`.
///
/// D3 uppercases the digits with `toUpperCase()` and adds the prefix afterwards, so
/// `#X` really does produce a lowercase `x` in front of uppercase digits.
#[test]
fn the_base_prefix_is_lowercase_even_for_uppercase_hex() {
    assert_eq!(fmt("#X", 48879.0), "0xBEEF");
    assert_eq!(fmt("#x", 48879.0), "0xbeef");
    assert_eq!(fmt("#X", 0.0), "0x0");
    assert_eq!(fmt("#08X", 48879.0), "0x00BEEF");
    // The prefix is not grouped, which is the other half of it being a prefix.
    assert_eq!(fmt("#,X", 1e9), "0x3B,9AC,A00");
    // The other two bases, for contrast: their letters were never uppercase.
    assert_eq!(fmt("#b", 5.0), "0b101");
    assert_eq!(fmt("#o", 8.0), "0o10");
}

/// Type `d` renders an infinity as `∞`.
///
/// `formatDecimal` returns `undefined` for a non-finite value and d3's `format`
/// answers `"∞"`, where every other type reports the ECMAScript spelling
/// `"Infinity"`. The magnitude is taken first, so the sign is the locale's minus.
#[test]
fn type_d_spells_infinity_with_the_symbol() {
    assert_eq!(fmt("d", f64::INFINITY), "\u{221e}");
    assert_eq!(fmt("d", f64::NEG_INFINITY), "\u{2212}\u{221e}");
    assert_eq!(fmt("+d", f64::INFINITY), "+\u{221e}");
    // One code unit, so it pads to nine and not to three.
    assert_eq!(fmt("10d", f64::INFINITY), "         \u{221e}");

    // Every other type keeps `Infinity`, including the radix types, whose conversion
    // also goes through `Number.prototype.toString`.
    for spec in ["f", "e", "s", "x", "b", "o", "g", "r"] {
        assert_eq!(fmt(spec, f64::INFINITY), "Infinity", "{spec:?}");
    }
    assert_eq!(fmt("%", f64::INFINITY), "Infinity%");

    // A finite value type `d` can still print in full, which is the boundary the
    // `1e21` switch sits on.
    assert_eq!(fmt(",d", 1e21), "1,000,000,000,000,000,000,000");
}

/// A `formatPrefix` reference with no decimal exponent.
///
/// `si_prefix_exponent` is `undefined` for zero, NaN and the infinities, so d3's
/// scale is `Math.pow(10, -undefined)`, which is NaN, and its suffix is
/// `prefixes[undefined]`, which is absent. Every value then formats as the locale's
/// NaN with no SI suffix. Nothing here may index the prefix table with a NaN.
#[test]
fn a_degenerate_prefix_reference_formats_everything_as_nan() {
    for reference in [
        0.0,
        -0.0,
        f64::NAN,
        -f64::NAN,
        f64::INFINITY,
        f64::NEG_INFINITY,
    ] {
        let bits = reference.to_bits();
        for value in [1e6, -1e6, 0.0, f64::NAN, f64::INFINITY] {
            assert_eq!(prefixed(",.0", reference, value), "NaN", "{bits:016X}");
        }
    }

    // The type is forced to `f` even for a reference that cannot be bucketed, so the
    // formatter is a well-formed numeric one that simply always answers NaN. A formatter
    // that fell back to type `s` here would start choosing a bucket per value.
    let degenerate = Locale::en_us().prefix_formatter("s", 0.0_f64.to_bits()).expect("valid");
    assert_eq!(degenerate.specifier().format_type(), FormatType::Fixed);
}

/// A negative `formatPrefix` reference buckets by magnitude.
///
/// `si_prefix_exponent` takes `Math.abs(reference)` first, so `-1e6` and `1e6` pick
/// the same prefix. The scale is a bit-pinned `Math.pow(10, -e)` and is applied by
/// multiplication, never by dividing by `10^e`.
#[test]
fn a_negative_prefix_reference_selects_its_bucket_from_the_magnitude() {
    for reference in [1e6, -1e6] {
        assert_eq!(prefixed(",.2", reference, 1e6), "1.00M", "{reference}");
        assert_eq!(
            prefixed(",.2", reference, -1e6),
            "\u{2212}1.00M",
            "{reference}"
        );
        // The suffix is fixed by the reference, so even zero carries it.
        assert_eq!(prefixed(",.2", reference, 0.0), "0.00M", "{reference}");
    }
    for reference in [1e-6, -1e-6] {
        assert_eq!(
            prefixed(",.2", reference, 1e6),
            "1,000,000,000,000.00\u{b5}",
            "{reference}"
        );
        assert_eq!(prefixed(",.2", reference, 0.0), "0.00\u{b5}", "{reference}");
    }
    // Exponent zero: a real bucket with an empty suffix, not an absent one.
    assert_eq!(prefixed(",.2", -1.0, 1e6), "1,000,000.00");
    assert_eq!(prefixed(".3", 1e-6, 0.000_042), "42.000\u{b5}");
    assert_eq!(prefixed("$,.2", 1e6, 1.3e6), "$1.30M");
}

#[test]
fn a_pathological_width_still_produces_the_right_string() {
    let formatter = Locale::en_us().formatter("*^999999.2f").expect("valid");
    let formatted = format_value(&formatter, -1.5).expect("valid");
    assert_eq!(formatted.chars().count(), 999_999);
    assert_eq!(formatted.matches('*').count(), 999_994);
    assert!(formatted.contains("\u{2212}1.50"));

    // And one code unit further is refused rather than truncated or aborted.
    let over = Locale::en_us().formatter_with_limits(
        "999999f",
        FormatLimits {
            max_width_utf16: 999_998,
            max_output_bytes: 1 << 20,
        },
    );
    assert!(matches!(over, Err(FormatError::WidthLimit { .. })));
}

#[test]
fn the_readme_examples_format_as_documented() {
    let locale = Locale::en_us();
    let money = locale.formatter("$,.2f").expect("a valid specifier");
    assert_eq!(format_value(&money, 1234.5).expect("in range"), "$1,234.50");
    assert_eq!(
        format_value(&money, -1234.5).expect("in range"),
        "\u{2212}$1,234.50"
    );

    let cases = [
        (".1%", 0.123, "12.3%"),
        ("+.2e", 1234.5, "+1.23e+3"),
        (".3s", 1.3e6, "1.30M"),
        (",d", 1234567.0, "1,234,567"),
        ("08.2f", -3.5, "\u{2212}0003.50"),
        ("#x", 48879.0, "0xbeef"),
    ];
    for (specifier, value, expected) in cases {
        let formatter = locale.formatter(specifier).expect("a valid specifier");
        assert_eq!(format_value(&formatter, value).expect("in range"), expected);
    }
}

#[test]
fn the_readme_locale_examples_format_as_documented() {
    let euro = Locale::builder()
        .decimal(",")
        .thousands(".")
        .grouping([3])
        .currency("", "\u{a0}\u{20ac}")
        .build()
        .expect("a valid definition");
    let money = euro.formatter("$,.2f").expect("a valid specifier");
    assert_eq!(
        format_value(&money, 1234.5).expect("in range"),
        "1.234,50\u{a0}\u{20ac}"
    );

    let cycling = Locale::builder()
        .thousands(",")
        .grouping([3, 2])
        .build()
        .expect("a valid definition");
    let grouped = cycling.formatter(",d").expect("a valid specifier");
    assert_eq!(
        format_value(&grouped, 1234567890.0).expect("in range"),
        "12,345,67,890"
    );
}

#[test]
fn the_readme_specifier_and_prefix_examples_format_as_documented() {
    let specifier: d3_format::FormatSpecifier = "$,.2f".parse().expect("a valid specifier");
    let wider = specifier
        .to_builder()
        .precision(4u32)
        .build()
        .expect("still valid");
    let money = Locale::en_us().formatter_for(&wider).expect("a valid specifier");
    assert_eq!(format_value(&money, 1234.5).expect("in range"), "$1,234.5000");

    let (step, value) = (1e-6_f64, 1.3e-3_f64);
    let digits = d3_format::as_precision(d3_format::precision_prefix(step.to_bits(), value.to_bits()))
        .expect("a finite step has a precision");
    assert_eq!(digits, 3);
    let formatter = Locale::en_us()
        .formatter(&format!(".{digits}s"))
        .expect("a valid specifier");
    assert_eq!(format_value(&formatter, value).expect("in range"), "1.30m");

    let micro = Locale::en_us()
        .prefix_formatter(",.0", 1e-6_f64.to_bits())
        .expect("a valid specifier");
    assert_eq!(format_value(&micro, 0.00042).expect("in range"), "420\u{b5}");
    assert_eq!(format_value(&micro, 0.0042).expect("in range"), "4,200\u{b5}");
}

#[test]
fn zero_fill_grouped_with_a_separator_still_reaches_the_width() {
    // The budget for the groups is the width; the last group is cut short to fit,
    // and the separators only add to the length.
    assert_eq!(fmt("08,d", 1234.0), "0,001,234");
    for width in 1..=20usize {
        for value in [0.0, 7.0, -42.0, 1234.0, 98765.4321, -1e9] {
            let spec = format!("0{width},.2f");
            let out = fmt(&spec, value);
            assert!(out.encode_utf16().count() >= width, "{spec} {value}: {out}");
        }
    }
}

#[test]
fn numerals_longer_than_one_unit_only_widen_the_output() {
    let decorated = Locale::builder()
        .numerals(std::array::from_fn(|digit| format!("<{digit}>")))
        .build()
        .expect("valid");
    let f = decorated.formatter("8d").expect("valid");
    let out = format_value(&f, 42.0).expect("valid");
    assert_eq!(out, "      <4><2>");
    assert!(out.encode_utf16().count() >= 8);
}

#[test]
fn a_cloned_formatter_formats_the_same() {
    let f = Locale::en_us().formatter("*^+$014,.2f").expect("valid");
    let g = f.clone();
    assert_eq!(f.specifier(), g.specifier());
    assert_eq!(f.layout(), g.layout());
    for value in [0.0, -1234.5678, 1e9, f64::NAN] {
        assert_eq!(format_value(&f, value), format_value(&g, value));
    }
}

#[test]
fn a_width_pads_the_same_formatting_without_it() {
    let locale = Locale::en_us();
    for spec in ["*<9d", "*>9d", "*^9d", "*=+9d", "09.2f", "+012.1f", "$^12,.2f", "x^7s", "(8d"] {
        let with = locale.formatter(spec).expect("valid");
        let plain_spec = with.specifier().to_builder().width(None).build().expect("valid");
        let without = locale.formatter_for(&plain_spec).expect("valid");
        let width = with.specifier().width().expect("a width") as usize;
        let fill = with.layout().fill.to_string();
        for value in [0.0, -42.5, 1234.0, 1e6] {
            let padded = format_value(&with, value).expect("valid");
            let natural = format_value(&without, value).expect("valid");
            let k = width.saturating_sub(natural.encode_utf16().count());
            let expected = match with.layout().align {
                Align::Left => format!("{natural}{}", fill.repeat(k)),
                Align::Right => format!("{}{natural}", fill.repeat(k)),
                Align::Center => format!("{}{natural}{}", fill.repeat(k / 2), fill.repeat(k - k / 2)),
                Align::AfterSign => {
                    let lead = natural.chars().take_while(|c| !c.is_ascii_digit()).count();
                    let (head, rest): (String, String) = (
                        natural.chars().take(lead).collect(),
                        natural.chars().skip(lead).collect(),
                    );
                    format!("{head}{}{rest}", fill.repeat(k))
                }
            };
            assert_eq!(padded, expected, "{spec} {value}");
        }
    }
}
