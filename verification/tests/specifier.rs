use d3_format::{Align, FormatSpecifier, FormatType, ParseErrorKind, Sign, Symbol};

fn spec(text: &str) -> FormatSpecifier {
    text.parse().unwrap_or_else(|error: d3_format::ParseError| panic!("{}", error.to_string()))
}

#[test]
fn the_empty_specifier_has_d3s_defaults() {
    let parsed = spec("");
    assert_eq!(parsed.fill(), ' ');
    assert_eq!(parsed.align(), Align::Right);
    assert_eq!(parsed.sign(), Sign::Minus);
    assert_eq!(parsed.symbol(), Symbol::Absent);
    assert!(!parsed.zero());
    assert_eq!(parsed.width(), None);
    assert!(!parsed.comma());
    assert_eq!(parsed.precision(), None);
    assert!(!parsed.trim());
    assert_eq!(parsed.format_type(), FormatType::Empty);
    assert_eq!(parsed.to_string(), " >-");
    assert_eq!(parsed, FormatSpecifier::default());
}

#[test]
fn the_alignment_group_prefers_spending_a_character_on_fill() {
    assert_eq!(spec("<d").fill(), ' ');
    assert_eq!(spec("<d").align(), Align::Left);
    assert_eq!(spec("<<d").fill(), '<');
    assert_eq!(spec("<<d").align(), Align::Left);
    assert_eq!(spec("_>8d").fill(), '_');
    assert_eq!(spec("_>8d").width(), Some(8));
    assert_eq!(spec("0=12").fill(), '0');
    assert_eq!(spec("0=12").align(), Align::AfterSign);
    assert_eq!(spec("0=12").width(), Some(12));
}

#[test]
fn the_zero_flag_wins_the_first_digit() {
    assert!(spec("012").zero());
    assert_eq!(spec("012").width(), Some(12));
    assert!(spec("00c").zero());
    assert_eq!(spec("00c").width(), Some(0));
    assert!(!spec("12").zero());
    assert_eq!(spec("12").width(), Some(12));
}

#[test]
fn a_zero_width_renders_as_one_exactly_as_d3_does() {
    let parsed = spec("00c");
    assert_eq!(parsed.to_string(), " >-01c");
    assert_eq!(spec(&parsed.to_string()).width(), Some(1));
}

#[test]
fn every_field_survives_a_full_specifier() {
    let parsed = spec("_^+$012,.2~f");
    assert_eq!(parsed.fill(), '_');
    assert_eq!(parsed.align(), Align::Center);
    assert_eq!(parsed.sign(), Sign::Plus);
    assert_eq!(parsed.symbol(), Symbol::Currency);
    assert!(parsed.zero());
    assert_eq!(parsed.width(), Some(12));
    assert!(parsed.comma());
    assert_eq!(parsed.precision(), Some(2));
    assert!(parsed.trim());
    assert_eq!(parsed.format_type(), FormatType::Fixed);
    assert_eq!(parsed.to_string(), "_^+$012,.2~f");
}

#[test]
fn unknown_type_letters_survive_parsing() {
    let parsed = spec("q");
    assert_eq!(parsed.format_type(), FormatType::Unknown('q'));
    assert!(!parsed.trim(), "the `.12~g` rewrite belongs to the formatter");
    assert_eq!(parsed.precision(), None);
    assert_eq!(parsed.to_string(), " >-q");
}

#[test]
fn the_type_letter_is_case_sensitive_only_where_d3_is() {
    assert_eq!(spec("x").format_type(), FormatType::HexLower);
    assert_eq!(spec("X").format_type(), FormatType::HexUpper);
    assert_eq!(spec("F").format_type(), FormatType::Unknown('F'));
    assert_eq!(spec("F").to_string(), " >-F");
}

#[test]
fn the_three_oracle_rejections_carry_d3s_message() {
    for text in ["foo", ".-2s", ".f"] {
        let error = text.parse::<FormatSpecifier>().unwrap_err();
        assert_eq!(error.to_string(), format!("invalid format: {text}"));
        assert_eq!(error.kind(), ParseErrorKind::Syntax);
        assert_eq!(error.input(), text);
    }
}

#[test]
fn a_width_above_u32_is_a_syntactic_rejection() {
    let error = "999999999999f".parse::<FormatSpecifier>().unwrap_err();
    assert_eq!(error.kind(), ParseErrorKind::WidthOverflow);
    assert_eq!(error.to_string(), "invalid format: 999999999999f");
    assert_eq!(spec("4294967295f").width(), Some(u32::MAX));
}

#[test]
fn an_unholdable_precision_saturates_rather_than_failing() {
    assert_eq!(spec(".99999999999999999999f").precision(), Some(u32::MAX));
}

#[test]
fn refused_fill_characters_are_reported_as_fill_problems() {
    for text in ["\u{1f600}>d", "\n>d", "\r>d", "\t>d", "\u{2028}>d"] {
        let error = text.parse::<FormatSpecifier>().unwrap_err();
        assert_eq!(error.kind(), ParseErrorKind::Fill, "{text:?}");
        assert_eq!(error.to_string(), format!("invalid format: {text}"));
    }
    assert_eq!(spec("\u{2212}>d").fill(), '\u{2212}');
}

#[test]
fn the_builder_and_the_parser_accept_the_same_specifiers() {
    let built = FormatSpecifier::builder()
        .fill('_')
        .align(Align::Center)
        .sign(Sign::Plus)
        .symbol(Symbol::Currency)
        .zero(true)
        .width(12)
        .comma(true)
        .precision(2)
        .trim(true)
        .format_type(FormatType::Fixed)
        .build()
        .expect("valid");
    assert_eq!(built, spec("_^+$012,.2~f"));
    assert_eq!(built.to_string(), "_^+$012,.2~f");
}

#[test]
fn the_builder_canonicalizes_a_known_letter_spelled_as_unknown() {
    let built = FormatSpecifier::builder()
        .format_type(FormatType::Unknown('f'))
        .build()
        .expect("valid");
    assert_eq!(built.format_type(), FormatType::Fixed);
    assert_eq!(built, spec("f"));
}

#[test]
fn the_builder_rejects_what_the_parser_rejects_and_names_the_same_text() {
    let error = FormatSpecifier::builder()
        .fill('\u{1f600}')
        .build()
        .unwrap_err();
    assert_eq!(error.kind(), ParseErrorKind::Fill);
    assert_eq!(error.input(), "\u{1f600}>-");
    assert!(error.input().parse::<FormatSpecifier>().is_err());

    let error = FormatSpecifier::builder()
        .format_type(FormatType::Unknown('1'))
        .build()
        .unwrap_err();
    assert_eq!(error.kind(), ParseErrorKind::Syntax);
}

#[test]
fn width_and_precision_take_a_value_or_its_absence() {
    let cleared = FormatSpecifier::builder()
        .width(12)
        .precision(2)
        .width(None)
        .precision(None)
        .build()
        .expect("valid");
    assert_eq!(cleared, FormatSpecifier::default());
}

#[test]
fn to_builder_leaves_the_original_untouched() {
    let first = spec(".2f");
    let changed = first
        .to_builder()
        .format_type(FormatType::Exponent)
        .build()
        .expect("valid");
    assert_eq!(first.to_string(), " >-.2f");
    assert_eq!(changed.to_string(), " >-.2e");
    assert_eq!(first.to_builder().build().expect("valid"), first);
}

#[test]
fn an_overflowing_width_in_malformed_text_is_a_syntax_error() {
    let error = FormatSpecifier::parse("4294967296!").unwrap_err();
    assert_eq!(error.kind(), ParseErrorKind::Syntax);
    let error = FormatSpecifier::parse("4294967296,.2fx").unwrap_err();
    assert_eq!(error.kind(), ParseErrorKind::Syntax);
    let error = FormatSpecifier::parse("4294967296d").unwrap_err();
    assert_eq!(error.kind(), ParseErrorKind::WidthOverflow);
    let error = FormatSpecifier::parse("*^+$04294967296,.2~f").unwrap_err();
    assert_eq!(error.kind(), ParseErrorKind::WidthOverflow);
}
