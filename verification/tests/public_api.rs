//! The public surface, exercised the way a dependent would.

use std::collections::TryReserveError;

use d3_format::limits::{DEFAULT_MAX_OUTPUT_BYTES, DEFAULT_MAX_WIDTH_UTF16};
use d3_format::precision::{as_precision, precision_fixed, precision_prefix, precision_round};
use d3_format::{
    Formatter,
    Align, FormatError, FormatLimits, FormatSpecifier, FormatSpecifierBuilder, FormatType,
    InputKind, Locale, LocaleBuilder, LocaleDefinition, LocaleError, ParseErrorKind, Sign, Symbol,
};


#[test]
fn cloning_a_locale_shares_it_rather_than_copying_it() {
    let locale = Locale::en_us();
    let clone = locale.clone();
    assert_eq!(locale, clone);

    let other = Locale::builder().decimal(",").build().expect("valid");
    assert_ne!(locale, other);
    assert_eq!(
        locale.decimal(),
        ".",
        "building another locale changed en-US"
    );
}

#[test]
fn parsing_fills_in_every_default_and_display_spells_them_all() {
    let specifier: FormatSpecifier = "".parse().expect("the empty specifier is valid");
    assert_eq!(specifier.fill(), ' ');
    assert_eq!(specifier.align(), Align::Right);
    assert_eq!(specifier.sign(), Sign::Minus);
    assert_eq!(specifier.symbol(), Symbol::Absent);
    assert!(!specifier.zero());
    assert_eq!(specifier.width(), None);
    assert!(!specifier.comma());
    assert_eq!(specifier.precision(), None);
    assert!(!specifier.trim());
    assert_eq!(specifier.format_type(), FormatType::Empty);
    assert_eq!(specifier.to_string(), " >-");
    assert_eq!(specifier, FormatSpecifier::default());
}

#[test]
fn the_builder_is_the_only_way_to_change_a_specifier() {
    let first: FormatSpecifier = "$,.2f".parse().expect("valid");
    let changed = first
        .to_builder()
        .format_type(FormatType::Exponent)
        .precision(4)
        .build()
        .expect("valid");

    assert_eq!(first.to_string(), " >-$,.2f", "the first specifier moved");
    assert_eq!(changed.to_string(), " >-$,.4e");
    assert_eq!(
        FormatSpecifierBuilder::new(),
        FormatSpecifier::default().to_builder()
    );
}

#[test]
fn a_parse_failure_carries_d3s_message_and_a_distinguishable_kind() {
    for text in ["foo", ".-2s", ".f"] {
        let error = text.parse::<FormatSpecifier>().unwrap_err();
        assert_eq!(error.to_string(), format!("invalid format: {text}"));
        assert_eq!(error.kind(), ParseErrorKind::Syntax);
        assert_eq!(error.input(), text);
    }

    let overflow = "99999999999f".parse::<FormatSpecifier>().unwrap_err();
    assert_eq!(overflow.kind(), ParseErrorKind::WidthOverflow);
    assert_eq!(overflow.to_string(), "invalid format: 99999999999f");

    let fill = "\t>d".parse::<FormatSpecifier>().unwrap_err();
    assert_eq!(fill.kind(), ParseErrorKind::Fill);
    assert_eq!(fill.to_string(), "invalid format: \t>d");
}

#[test]
fn a_specifier_error_reaches_the_formatter_untouched() {
    let error = Locale::en_us().formatter("foo").unwrap_err();
    assert_eq!(error.to_string(), "invalid format: foo");
    match &error {
        FormatError::InvalidSpecifier(parse) => {
            assert_eq!(parse.kind(), ParseErrorKind::Syntax);
            assert_eq!(parse.input(), "foo");
        }
        other => panic!("expected InvalidSpecifier, got {other:?}"),
    }

    let source = error.source().expect("a wrapped parse error");
    assert_eq!(source.to_string(), "invalid format: foo");
}

#[test]
fn an_unknown_ascii_type_letter_is_kept_rather_than_rejected() {
    let specifier: FormatSpecifier = "q".parse().expect("d3 accepts any ASCII letter");
    assert_eq!(specifier.format_type(), FormatType::Unknown('q'));
    assert!(!specifier.trim());
    assert_eq!(specifier.precision(), None);
    assert_eq!(specifier.to_string(), " >-q");

    assert_eq!(FormatType::from_char('q'), Some(FormatType::Unknown('q')));
    assert_eq!(FormatType::from_char('1'), None);
    assert_eq!(FormatType::from_char('\u{b5}'), None);
}

#[test]
fn a_huge_width_or_precision_renders_as_itself_rather_than_wrapping() {
    let width: FormatSpecifier = "4294967295f".parse().expect("u32::MAX fits");
    assert_eq!(width.width(), Some(u32::MAX));
    assert_eq!(width.to_string(), " >-4294967295f");

    let precision: FormatSpecifier = ".99999999999999999999f".parse().expect("valid");
    assert_eq!(precision.precision(), Some(u32::MAX));
    assert_eq!(precision.to_string(), " >-.4294967295f");

    assert_eq!(
        precision
            .to_string()
            .parse::<FormatSpecifier>()
            .expect("valid"),
        precision
    );
}

#[test]
fn a_fill_that_cannot_be_padded_with_is_rejected_at_parse_time() {
    for text in [
        "\u{1f600}>d", // outside the BMP: d3 would capture half a surrogate pair
        "\n>d",
        "\r>d",
        "\u{2028}>d",
        "\u{2029}>d",
        "\t>d",
        "\u{0}>d",
        "\u{7f}>d",
        "\u{85}>d",
    ] {
        let error = text.parse::<FormatSpecifier>().unwrap_err();
        assert_eq!(error.to_string(), format!("invalid format: {text}"));
        assert!(
            matches!(error.kind(), ParseErrorKind::Fill | ParseErrorKind::Syntax),
            "{text:?} was rejected as {:?}",
            error.kind()
        );
    }

    for (text, expected) in [("_>d", '_'), (" >d", ' '), ("\u{2212}>d", '\u{2212}')] {
        let specifier: FormatSpecifier = text.parse().expect("an ordinary BMP fill");
        assert_eq!(specifier.fill(), expected);
    }

    let error = FormatSpecifier::builder().fill('\n').build().unwrap_err();
    assert_eq!(error.kind(), ParseErrorKind::Fill);
}

#[test]
fn policy_defaults_are_d3s() {
    for locale in [
        Locale::builder().build().expect("valid"),
        Locale::from_definition(LocaleDefinition::default()).expect("valid"),
        LocaleBuilder::default().build().expect("valid"),
    ] {
        assert_eq!(locale.decimal(), ".");
        assert_eq!(locale.currency_prefix(), "");
        assert_eq!(locale.currency_suffix(), "");
        assert_eq!(locale.percent(), "%");
        assert_eq!(locale.minus(), "\u{2212}");
        assert_eq!(locale.nan(), "NaN");
        assert_eq!(locale.grouping(), None);
        assert_eq!(locale.thousands(), "");
        assert_eq!(locale.numerals(), None);
    }

    assert_ne!(Locale::builder().build().expect("valid").minus(), "-");
}

#[test]
fn policy_en_us_adds_grouping_a_separator_and_a_currency_prefix() {
    let locale = Locale::en_us();
    assert_eq!(locale.decimal(), ".");
    assert_eq!(locale.thousands(), ",");
    assert_eq!(locale.grouping(), Some(&[3][..]));
    assert_eq!(locale.currency_prefix(), "$");
    assert_eq!(locale.currency_suffix(), "");
    assert_eq!(locale.minus(), "\u{2212}");
    assert_eq!(locale.nan(), "NaN");
}

#[test]
fn policy_grouping_is_disabled_unless_both_keys_are_supplied() {
    assert_eq!(
        Locale::builder()
            .grouping([3])
            .build()
            .expect("valid")
            .grouping(),
        None,
        "sizes without a separator"
    );
    assert_eq!(
        Locale::builder()
            .thousands(",")
            .build()
            .expect("valid")
            .grouping(),
        None,
        "a separator without sizes"
    );

    let both = Locale::builder()
        .grouping([3])
        .thousands(",")
        .build()
        .expect("valid");
    assert_eq!(both.grouping(), Some(&[3][..]));
    assert_eq!(both.thousands(), ",");
}

#[test]
fn policy_an_empty_grouping_list_disables_grouping() {
    let locale = Locale::builder()
        .grouping(Vec::new())
        .thousands(",")
        .build()
        .expect("an empty list is a definition, not an error");
    assert_eq!(locale.grouping(), None);
    assert_eq!(locale.thousands(), "");
}

#[test]
fn policy_a_zero_grouping_size_is_rejected() {
    let error = Locale::builder()
        .grouping([3, 0, 2])
        .thousands(",")
        .build()
        .unwrap_err();
    assert_eq!(error, LocaleError::ZeroGroupingSize { index: 1 });
    assert!(error.to_string().contains("index 1"), "{}", error.to_string());

    assert!(Locale::builder()
        .grouping([0])
        .thousands(",")
        .build()
        .is_err());
    assert!(Locale::builder()
        .grouping([3, 2])
        .thousands(",")
        .build()
        .is_ok());
}

#[test]
fn policy_numerals_are_exactly_ten_strings() {
    let eastern: [String; 10] = [
        "\u{660}", "\u{661}", "\u{662}", "\u{663}", "\u{664}", "\u{665}", "\u{666}", "\u{667}",
        "\u{668}", "\u{669}",
    ]
    .map(str::to_owned);
    let locale = Locale::builder()
        .numerals(eastern.clone())
        .build()
        .expect("valid");
    assert_eq!(locale.numerals(), Some(&eastern));

    let decorated: [String; 10] = std::array::from_fn(|digit| format!("<{digit}>"));
    let locale = Locale::builder()
        .numerals(decorated.clone())
        .build()
        .expect("valid");
    assert_eq!(locale.numerals(), Some(&decorated));
}

#[test]
fn policy_locale_text_may_be_unicode() {
    let locale = Locale::builder()
        .decimal(",")
        .thousands(".")
        .grouping([3])
        .currency("", "\u{a0}\u{20ac}")
        .percent("\u{202f}%")
        .minus("\u{2796}")
        .nan("N/A")
        .build()
        .expect("valid");
    assert_eq!(locale.currency_suffix(), "\u{a0}\u{20ac}");
    assert_eq!(locale.percent(), "\u{202f}%");
    assert_eq!(locale.minus(), "\u{2796}");
    assert_eq!(locale.nan(), "N/A");
}

#[test]
fn policy_width_is_measured_in_utf16_code_units() {
    let limits = FormatLimits {
        max_width_utf16: 10,
        ..FormatLimits::default()
    };
    let locale = Locale::en_us();
    assert!(locale.formatter_with_limits("10d", limits).is_ok());
    assert_eq!(
        locale.formatter_with_limits("11d", limits).unwrap_err(),
        FormatError::WidthLimit {
            requested: 11,
            maximum: 10
        }
    );

    let specifier: FormatSpecifier = "\u{2212}>10d".parse().expect("valid");
    assert_eq!(specifier.width(), Some(10));
    assert!(locale.formatter_for_with_limits(&specifier, limits).is_ok());
}

#[test]
fn policy_built_locales_and_formatters_are_immutable() {
    let locale = Locale::en_us();
    let first = locale.formatter("$,.2f").expect("valid");
    let second = locale.formatter("$,.2f").expect("valid");
    assert_eq!(first, second);
    assert_eq!(first.clone(), first);

    assert_eq!(first.specifier().to_string(), " >-$,.2f");
    assert_eq!(second.specifier().to_string(), " >-$,.2f");
    assert_eq!(locale.currency_prefix(), "$");
}

#[test]
fn a_formatter_reports_the_specifier_it_was_given_not_the_one_it_resolved() {
    let locale = Locale::en_us();
    assert_eq!(
        locale
            .formatter("n")
            .expect("valid")
            .specifier()
            .to_string(),
        " >-n"
    );
    assert_eq!(
        locale
            .formatter("q")
            .expect("valid")
            .specifier()
            .to_string(),
        " >-q"
    );
    assert_eq!(
        locale.formatter("").expect("valid").specifier().to_string(),
        " >-"
    );
}

#[test]
fn only_type_c_accepts_text() {
    let locale = Locale::en_us();
    assert_eq!(
        locale.formatter("c").expect("valid").input_kind(),
        InputKind::Text
    );
    assert_eq!(
        locale.formatter("_^20c").expect("valid").input_kind(),
        InputKind::Text
    );
    for spec in [
        "", "d", "f", "e", "g", "n", "s", "%", "p", "r", "b", "o", "x", "X", "q",
    ] {
        assert_eq!(
            locale.formatter(spec).expect("valid").input_kind(),
            InputKind::Number,
            "{spec:?}"
        );
    }
}

#[test]
fn a_numeric_formatter_refuses_text_instead_of_coercing_it() {
    let formatter = Locale::en_us().formatter("6.2f").expect("valid");
    let error = formatter.format_text("nonsense").unwrap_err();
    assert_eq!(
        error,
        FormatError::InputTypeMismatch {
            expected: InputKind::Number,
            actual: InputKind::Text,
        }
    );
    assert_eq!(
        error.to_string(),
        "this formatter takes numeric input, but was given text input"
    );

    assert!(formatter.format_text("").is_err());

    let mut out = String::from("previous contents");
    assert!(formatter.format_text_into(&mut out, "nonsense").is_err());
    assert!(out.is_empty(), "the buffer was not cleared: {out:?}");
}

#[test]
fn the_default_limits_are_the_documented_ones() {
    let limits = FormatLimits::default();
    assert_eq!(limits.max_width_utf16, 1_000_000);
    assert_eq!(limits.max_output_bytes, 16 * 1024 * 1024);
    assert_eq!(
        limits,
        FormatLimits {
            max_width_utf16: DEFAULT_MAX_WIDTH_UTF16,
            max_output_bytes: DEFAULT_MAX_OUTPUT_BYTES,
        }
    );
}

#[test]
fn parsing_rejects_a_width_the_syntax_cannot_hold() {
    assert_eq!(
        "4294967295f"
            .parse::<FormatSpecifier>()
            .expect("u32::MAX fits")
            .width(),
        Some(u32::MAX)
    );
    let error = "4294967296f".parse::<FormatSpecifier>().unwrap_err();
    assert_eq!(error.kind(), ParseErrorKind::WidthOverflow);
    assert_eq!(error.to_string(), "invalid format: 4294967296f");

    let error = Locale::en_us().formatter("4294967296f").unwrap_err();
    assert!(
        matches!(error, FormatError::InvalidSpecifier(_)),
        "{error:?}"
    );
}

#[test]
fn formatter_construction_rejects_a_width_over_the_limit() {
    let locale = Locale::en_us();
    assert!(locale.formatter("1000000d").is_ok());
    assert_eq!(
        locale.formatter("1000001d").unwrap_err(),
        FormatError::WidthLimit {
            requested: 1_000_001,
            maximum: 1_000_000
        }
    );
    assert_eq!(
        locale.formatter("1000001d").unwrap_err().to_string(),
        "specifier width 1000001 is over the 1000000 code unit limit"
    );
}

#[test]
fn a_formatter_remembers_the_limits_it_was_built_with() {
    let tight = FormatLimits {
        max_width_utf16: 32,
        max_output_bytes: 4096,
    };
    let formatter = Locale::en_us()
        .formatter_with_limits("d", tight)
        .expect("valid");
    assert_eq!(formatter.limits(), tight);
    assert_eq!(
        Locale::en_us().formatter("d").expect("valid").limits(),
        FormatLimits::default()
    );
}

#[test]
fn locale_affixes_count_against_the_output_byte_limit() {
    let locale = Locale::builder()
        .currency("\u{a4}\u{a4}\u{a4}\u{a4}", "")
        .build()
        .expect("valid");
    let tight = FormatLimits {
        max_output_bytes: 4,
        ..FormatLimits::default()
    };

    assert_eq!(
        locale.formatter_with_limits("$d", tight).unwrap_err(),
        FormatError::OutputLimit {
            requested: 8,
            maximum: 4
        }
    );
    assert!(locale.formatter_with_limits("d", tight).is_ok());
    assert!(locale.formatter("$d").is_ok());
}

#[test]
fn the_error_type_says_what_it_is_without_leaking_how() {
    let messages = [
        (
            FormatError::WidthLimit {
                requested: 5,
                maximum: 4,
            },
            "specifier width 5 is over the 4 code unit limit",
        ),
        (
            FormatError::OutputLimit {
                requested: 20,
                maximum: 10,
            },
            "formatted output would be 20 bytes, over the 10 byte limit",
        ),
        (FormatError::AllocationFailed, "allocation failed"),
        (
            FormatError::InputTypeMismatch {
                expected: InputKind::Number,
                actual: InputKind::Text,
            },
            "this formatter takes numeric input, but was given text input",
        ),
    ];
    for (error, expected) in messages {
        assert_eq!(error.to_string(), expected);
        assert!(error.source().is_none(), "{error:?}");
    }

    let parse = "foo".parse::<FormatSpecifier>().unwrap_err();
    let wrapped = FormatError::from(parse.clone());
    assert_eq!(wrapped, FormatError::InvalidSpecifier(parse));
    assert_eq!(wrapped.to_string(), "invalid format: foo");
}

#[test]
fn a_reserve_failure_would_be_reported_rather_than_aborting() {
    let huge: Result<(), TryReserveError> = Vec::<u8>::new().try_reserve(usize::MAX);
    assert!(huge.is_err(), "reserving usize::MAX bytes succeeded");
    let mapped = huge.map_err(|_| FormatError::AllocationFailed).unwrap_err();
    assert_eq!(mapped, FormatError::AllocationFailed);

    let locale = Locale::builder().currency("$", "").build().expect("valid");
    let none = FormatLimits {
        max_output_bytes: 0,
        ..FormatLimits::default()
    };
    assert_eq!(
        locale.formatter_with_limits("$d", none).unwrap_err(),
        FormatError::OutputLimit {
            requested: 1,
            maximum: 0
        }
    );
}

/// `format(value)` for a number: the fixed prefix's scale and the percent
/// multiplication are double arithmetic, done here; the rest is the library.
fn format_value(f: &Formatter, value: f64) -> Result<String, FormatError> {
    let mut out = String::new();
    format_value_into(f, &mut out, value)?;
    Ok(out)
}

/// As [`format_value`], into `out`.
fn format_value_into(f: &Formatter, out: &mut String, value: f64) -> Result<(), FormatError> {
    let scaled = match f.layout().prefix_scale {
        Some(bits) => f64::from_bits(bits) * value,
        None => value,
    };
    let magnitude = scaled.abs();
    let conversion = if f.scales_by_hundred() {
        magnitude * 100.0
    } else {
        magnitude
    };
    out.clear();
    let text = f.format_scaled_number(scaled.to_bits(), conversion.to_bits())?;
    out.push_str(&text);
    Ok(())
}

#[test]
fn a_prefix_formatter_reports_type_f_whatever_the_caller_wrote() {
    let locale = Locale::en_us();
    let formatter = locale
        .prefix_formatter(",.2", 1e3_f64.to_bits())
        .expect("valid");
    assert_eq!(formatter.specifier().format_type(), FormatType::Fixed);
    assert_eq!(formatter.specifier().to_string(), " >-,.2f");
    assert_eq!(formatter.input_kind(), InputKind::Number);

    // Including from a `c` specifier, which stops it being a text formatter.
    let forced = locale
        .prefix_formatter("c", 1e3_f64.to_bits())
        .expect("valid");
    assert_eq!(forced.specifier().format_type(), FormatType::Fixed);
    assert_eq!(forced.input_kind(), InputKind::Number);

    // A reference with no decimal exponent still builds; the scale is then NaN,
    // so every value formats as the locale's NaN with no SI suffix.
    for reference in [0.0, -0.0, f64::NAN, f64::INFINITY, f64::NEG_INFINITY] {
        let degenerate = locale
            .prefix_formatter("s", f64::to_bits(reference))
            .unwrap_or_else(|error| panic!("reference {reference}: {}", error.to_string()));
        assert_eq!(
            format_value(&degenerate, 1234.5).expect("valid"),
            "NaN",
            "reference {reference}"
        );
    }
}

#[test]
fn a_text_formatter_refuses_numbers_instead_of_coercing_them() {
    let formatter = Locale::en_us().formatter("c").expect("valid");
    let error = format_value(&formatter, 42.0).unwrap_err();
    assert_eq!(
        error,
        FormatError::InputTypeMismatch {
            expected: InputKind::Text,
            actual: InputKind::Number,
        }
    );
    assert_eq!(
        error.to_string(),
        "this formatter takes text input, but was given numeric input"
    );
    assert_eq!(
        formatter.format_number_parts(false, "42", false, None),
        Err(error)
    );

    let mut out = String::from("previous contents");
    assert!(formatter
        .format_number_parts_into(&mut out, false, "42", false, None)
        .is_err());
    assert!(out.is_empty(), "the buffer was not cleared: {out:?}");
}

#[test]
fn the_input_kind_check_happens_before_any_layout() {
    let numeric = Locale::en_us().formatter("d").expect("valid");
    assert!(
        numeric.format_text("1").is_err(),
        "a numeric formatter formatted text that would have parsed as a number"
    );

    let textual = Locale::en_us().formatter("c").expect("valid");
    assert!(
        textual.number_text(1.0_f64.to_bits(), 1.0_f64.to_bits()).is_err(),
        "a text formatter converted a number"
    );
    assert!(
        format_value(&textual, 1.0).is_err(),
        "a text formatter formatted a number"
    );
}

#[test]
fn the_default_taking_entry_points_use_the_default_limits() {
    let locale = Locale::en_us();
    let over: FormatSpecifier = "1000001d".parse().expect("valid syntax");
    let raised = FormatLimits {
        max_width_utf16: 2_000_000,
        ..FormatLimits::default()
    };
    let expected = FormatError::WidthLimit {
        requested: 1_000_001,
        maximum: 1_000_000,
    };

    assert_eq!(locale.formatter("1000001d").unwrap_err(), expected);
    assert_eq!(locale.formatter_for(&over).unwrap_err(), expected);
    assert_eq!(
        locale
            .prefix_formatter("1000001d", 1e3_f64.to_bits())
            .unwrap_err(),
        expected
    );

    assert!(locale.formatter_with_limits("1000001d", raised).is_ok());
    assert!(locale.formatter_for_with_limits(&over, raised).is_ok());
    assert!(locale
        .prefix_formatter_with_limits("1000001d", 1e3_f64.to_bits(), raised)
        .is_ok());

    let tight = FormatLimits {
        max_width_utf16: 4,
        ..FormatLimits::default()
    };
    assert_eq!(
        locale.formatter_with_limits("5d", tight).unwrap_err(),
        FormatError::WidthLimit {
            requested: 5,
            maximum: 4
        }
    );
}

#[test]
fn a_suffix_and_a_prefix_are_both_counted() {
    let locale = Locale::builder()
        .currency("", "\u{a0}\u{20ac}")
        .build()
        .expect("valid");
    let tight = FormatLimits {
        max_output_bytes: 3,
        ..FormatLimits::default()
    };
    // U+00A0 is two bytes and U+20AC is three.
    assert_eq!(
        locale.formatter_with_limits("$d", tight).unwrap_err(),
        FormatError::OutputLimit {
            requested: 5,
            maximum: 3
        }
    );

    // The SI suffix of a prefix formatter is counted with the locale's own suffix.
    let micro = Locale::builder()
        .currency("", "\u{a0}\u{20ac}")
        .build()
        .expect("valid");
    let budget = FormatLimits {
        max_output_bytes: 5,
        ..FormatLimits::default()
    };
    assert!(micro
        .prefix_formatter_with_limits("$f", 1.0_f64.to_bits(), budget)
        .is_ok());
    assert_eq!(
        micro
            .prefix_formatter_with_limits("$f", 1e6_f64.to_bits(), budget)
            .unwrap_err(),
        FormatError::OutputLimit {
            requested: 6,
            maximum: 5
        }
    );
}

#[test]
fn the_into_entry_points_clear_the_buffer_and_reuse_its_capacity() {
    let formatter = Locale::en_us().formatter("$,.2f").expect("valid");
    let mut out = String::with_capacity(4096);
    let capacity = out.capacity();
    out.push_str("previous contents");

    format_value_into(&formatter, &mut out, 1234.5).expect("valid");
    assert_eq!(out, "$1,234.50", "the previous contents survived");
    assert_eq!(out.capacity(), capacity, "the buffer was reallocated");

    format_value_into(&formatter, &mut out, -1.0).expect("valid");
    assert_eq!(out, "\u{2212}$1.00");
    assert_eq!(out.capacity(), capacity);

    let tight = Locale::en_us()
        .formatter_with_limits(
            "$,.2f",
            FormatLimits {
                max_output_bytes: 4,
                ..FormatLimits::default()
            },
        )
        .expect("valid");
    let error = format_value_into(&tight, &mut out, 1234.5).unwrap_err();
    assert!(
        matches!(error, FormatError::OutputLimit { .. }),
        "{error:?}"
    );
    assert!(out.is_empty(), "the buffer kept a partial result: {out:?}");

    let character = Locale::en_us().formatter("_^9c").expect("valid");
    out.push_str("previous contents");
    character
        .format_text_into(&mut out, "\u{1f600}")
        .expect("valid");
    assert_eq!(out, "___\u{1f600}____");
    assert_eq!(out.capacity(), capacity);
}

#[test]
fn the_precision_helpers_are_exported_and_return_d3s_values() {
    let val = f64::from_bits;
    assert_eq!(val(precision_fixed(0.089_f64.to_bits())), 2.0);
    let (step, max) = (0.01_f64, 1.01_f64);
    assert_eq!(
        val(precision_round(step.to_bits(), (max.abs() - step.abs()).to_bits())),
        3.0
    );
    assert_eq!(
        val(precision_prefix(1e-6_f64.to_bits(), 1e-6_f64.to_bits())),
        0.0
    );

    // NaN for the degenerate cases.
    assert!(val(precision_fixed(0.0_f64.to_bits())).is_nan());
    assert!(val(precision_round(0.0_f64.to_bits(), 1.0_f64.to_bits())).is_nan());
    assert!(val(precision_prefix(0.0_f64.to_bits(), 1.0_f64.to_bits())).is_nan());
}

#[test]
fn as_precision_converts_a_suggestion_into_a_specifier_field() {
    let suggestion = precision_fixed(0.089_f64.to_bits());
    let precision = as_precision(suggestion).expect("a finite whole suggestion");
    let specifier = FormatSpecifier::builder()
        .precision(precision)
        .format_type(FormatType::Fixed)
        .build()
        .expect("valid");
    assert_eq!(specifier.to_string(), " >-.2f");

    assert_eq!(as_precision(precision_fixed(0.0_f64.to_bits())), None);
    assert_eq!(as_precision((-1.0_f64).to_bits()), None);
    assert_eq!(as_precision(1.5_f64.to_bits()), None);
}
