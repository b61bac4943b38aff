use d3_format::formatter::concat_bounded;
use d3_format::{
    Align, FormatError, FormatLimits, FormatType, Formatter, InputKind, Locale, LocaleError,
};

fn en_us_formatter(spec: &str) -> Formatter {
    Locale::en_us()
        .formatter(spec)
        .unwrap_or_else(|error| panic!("{}", error.to_string()))
}

#[test]
fn the_default_locale_is_d3s() {
    let locale = Locale::builder().build().expect("valid");
    assert_eq!(locale.decimal(), ".");
    assert_eq!(locale.thousands(), "");
    assert_eq!(locale.grouping(), None);
    assert_eq!(locale.currency_prefix(), "");
    assert_eq!(locale.currency_suffix(), "");
    assert_eq!(locale.numerals(), None);
    assert_eq!(locale.percent(), "%");
    assert_eq!(locale.minus(), "\u{2212}");
    assert_eq!(locale.nan(), "NaN");
}

#[test]
fn en_us_adds_grouping_a_separator_and_a_currency_prefix() {
    let locale = Locale::en_us();
    assert_eq!(locale.decimal(), ".");
    assert_eq!(locale.thousands(), ",");
    assert_eq!(locale.grouping(), Some(&[3][..]));
    assert_eq!(locale.currency_prefix(), "$");
    assert_eq!(locale.currency_suffix(), "");
    assert_eq!(locale.minus(), "\u{2212}");
}

#[test]
fn grouping_needs_both_keys_and_a_non_empty_list() {
    let sizes_only = Locale::builder().grouping([3]).build().expect("valid");
    assert_eq!(sizes_only.grouping(), None);

    let separator_only = Locale::builder().thousands(",").build().expect("valid");
    assert_eq!(separator_only.grouping(), None);
    assert_eq!(separator_only.thousands(), "");

    let empty = Locale::builder()
        .grouping(Vec::new())
        .thousands(",")
        .build()
        .expect("valid");
    assert_eq!(empty.grouping(), None);

    let both = Locale::builder()
        .grouping([2, 3])
        .thousands(",")
        .build()
        .expect("valid");
    assert_eq!(both.grouping(), Some(&[2, 3][..]));
    assert_eq!(both.thousands(), ",");
}

#[test]
fn a_zero_group_size_is_refused_wherever_it_appears() {
    let error = Locale::builder()
        .grouping([3, 0])
        .thousands(",")
        .build()
        .unwrap_err();
    assert_eq!(error, LocaleError::ZeroGroupingSize { index: 1 });
    assert!(error.to_string().contains("index 1"));

    assert!(Locale::builder().grouping([0]).build().is_err());
}

#[test]
fn the_type_rewrites_match_new_format() {
    let grouped = en_us_formatter("n");
    assert_eq!(grouped.specifier().to_string(), " >-n");
    assert_eq!(grouped.layout().resolved_type, FormatType::General);
    assert!(grouped.layout().comma);
    assert!(!grouped.layout().trim);
    assert_eq!(grouped.layout().precision, 6);

    for spec in ["q", ""] {
        let fallback = en_us_formatter(spec);
        assert_eq!(fallback.layout().resolved_type, FormatType::General, "{spec:?}");
        assert!(fallback.layout().trim, "{spec:?}");
        assert_eq!(fallback.layout().precision, 12, "{spec:?}");
    }

    let explicit = en_us_formatter(".3q");
    assert_eq!(explicit.layout().precision, 3);
    assert!(explicit.layout().trim);
}

#[test]
fn zero_fill_is_folded_in_from_either_spelling() {
    let flag = en_us_formatter("08d");
    assert!(flag.layout().zero);
    assert_eq!(flag.layout().fill, '0');
    assert_eq!(flag.layout().align, Align::AfterSign);

    let spelled_out = en_us_formatter("0=12");
    assert!(spelled_out.layout().zero);
    assert_eq!(spelled_out.layout().fill, '0');
    assert_eq!(spelled_out.layout().align, Align::AfterSign);

    let left = en_us_formatter("0<12d");
    assert!(!left.layout().zero);
    assert_eq!(left.layout().fill, '0');
    assert_eq!(left.layout().align, Align::Left);
}

#[test]
fn the_affixes_come_from_the_symbol_and_the_locale() {
    assert_eq!(en_us_formatter("$.2f").layout().prefix, "$");
    assert_eq!(en_us_formatter("$.2f").layout().suffix, "");
    assert_eq!(en_us_formatter("#x").layout().prefix, "0x");
    assert_eq!(en_us_formatter("#X").layout().prefix, "0x");
    assert_eq!(en_us_formatter("#b").layout().prefix, "0b");
    assert_eq!(en_us_formatter("#o").layout().prefix, "0o");
    assert_eq!(en_us_formatter("#f").layout().prefix, "");
    assert_eq!(en_us_formatter(".0%").layout().suffix, "%");
    assert_eq!(en_us_formatter(".2p").layout().suffix, "%");

    let euro = Locale::builder()
        .decimal(",")
        .currency("", " \u{20ac}")
        .build()
        .expect("valid");
    let formatter = euro.formatter("$.3s").expect("valid");
    assert_eq!(formatter.layout().prefix, "");
    assert_eq!(formatter.layout().suffix, " \u{20ac}");
}

#[test]
fn precision_is_defaulted_then_clamped_to_its_types_range() {
    assert_eq!(en_us_formatter("f").layout().precision, 6);
    assert_eq!(en_us_formatter(".30f").layout().precision, 20);
    assert_eq!(en_us_formatter(".0f").layout().precision, 0);
    assert_eq!(en_us_formatter(".0g").layout().precision, 1);
    assert_eq!(en_us_formatter(".30g").layout().precision, 21);
    assert_eq!(en_us_formatter(".0s").layout().precision, 1);
    assert_eq!(en_us_formatter(".0r").layout().precision, 1);
    assert_eq!(en_us_formatter(".0p").layout().precision, 1);
    assert_eq!(
        en_us_formatter(".99999999999999999999f").layout().precision,
        20
    );
}

#[test]
fn the_width_limit_is_enforced_at_construction() {
    let locale = Locale::en_us();
    let error = locale.formatter("1000001f").unwrap_err();
    assert_eq!(
        error,
        FormatError::WidthLimit {
            requested: 1_000_001,
            maximum: 1_000_000
        }
    );

    let raised = FormatLimits {
        max_width_utf16: 2_000_000,
        ..FormatLimits::default()
    };
    assert!(locale.formatter_with_limits("1000001f", raised).is_ok());
}

#[test]
fn concatenation_respects_the_output_budget() {
    let tight = FormatLimits {
        max_output_bytes: 2,
        ..FormatLimits::default()
    };
    assert_eq!(concat_bounded(&["ab"], &tight), Ok("ab".to_owned()));
    assert_eq!(
        concat_bounded(&["ab", "c"], &tight),
        Err(FormatError::OutputLimit {
            requested: 3,
            maximum: 2
        })
    );
}

#[test]
fn a_locale_affix_over_the_budget_fails_at_construction() {
    let locale = Locale::builder()
        .currency("$$$$$$$$", "")
        .build()
        .expect("valid");
    let tight = FormatLimits {
        max_output_bytes: 4,
        ..FormatLimits::default()
    };
    assert_eq!(
        locale.formatter_with_limits("$d", tight),
        Err(FormatError::OutputLimit {
            requested: 8,
            maximum: 4
        })
    );
}

#[test]
fn a_prefix_formatter_forces_type_f_and_pins_its_scale() {
    let locale = Locale::en_us();
    let formatter = locale
        .prefix_formatter(",.0s", 1e6_f64.to_bits())
        .expect("valid");
    assert_eq!(formatter.specifier().format_type(), FormatType::Fixed);
    assert_eq!(formatter.layout().suffix, "M");
    assert_eq!(
        formatter.layout().prefix_scale.map(f64::from_bits),
        Some(1e-6)
    );

    // A reference with no decimal exponent: NaN scale, no suffix, still builds.
    for reference in [0.0, f64::NAN, f64::INFINITY, f64::NEG_INFINITY] {
        let degenerate = locale
            .prefix_formatter("s", f64::to_bits(reference))
            .expect("valid");
        assert_eq!(degenerate.layout().suffix, "");
        assert!(degenerate
            .layout()
            .prefix_scale
            .map(f64::from_bits)
            .is_some_and(f64::is_nan));
    }

    // A negative reference selects from its magnitude.
    let negative = locale
        .prefix_formatter("s", (-1e6_f64).to_bits())
        .expect("valid");
    assert_eq!(negative.layout().suffix, "M");
}

#[test]
fn only_type_c_takes_text() {
    assert_eq!(en_us_formatter("d").input_kind(), InputKind::Number);
    assert_eq!(en_us_formatter("c").input_kind(), InputKind::Text);
    assert_eq!(en_us_formatter("020c").input_kind(), InputKind::Text);
    // A prefix formatter is always numeric, because the type is forced to `f`.
    let prefixed = Locale::en_us()
        .prefix_formatter("c", 1.0_f64.to_bits())
        .expect("valid");
    assert_eq!(prefixed.input_kind(), InputKind::Number);
}
