use d3_format::layout::si_prefix_entry;
use d3_format::{Align, FormatType, InputKind, Sign, Symbol};

#[test]
fn every_align_round_trips_through_its_character() {
    for align in [Align::Left, Align::Right, Align::Center, Align::AfterSign] {
        assert_eq!(Align::from_char(align.as_char()), Some(align));
        assert_eq!(align.to_string(), align.as_char().to_string());
    }
    assert_eq!(Align::from_char('x'), None);
    assert_eq!(Align::default(), Align::Right);
}

#[test]
fn every_sign_round_trips_through_its_character() {
    for sign in [Sign::Minus, Sign::Plus, Sign::Parens, Sign::Space] {
        assert_eq!(Sign::from_char(sign.as_char()), Some(sign));
        assert_eq!(sign.to_string(), sign.as_char().to_string());
    }
    assert_eq!(Sign::from_char(')'), None);
    assert_eq!(Sign::default(), Sign::Minus);
}

#[test]
fn symbol_absence_is_not_a_character() {
    assert_eq!(Symbol::Absent.as_char(), None);
    assert_eq!(Symbol::Absent.to_string(), "");
    assert_eq!(Symbol::from_char('$'), Some(Symbol::Currency));
    assert_eq!(Symbol::from_char('#'), Some(Symbol::BasePrefix));
    assert_eq!(Symbol::from_char('\0'), None);
    assert_eq!(Symbol::default(), Symbol::Absent);
}

#[test]
fn from_char_canonicalizes_every_known_type_letter() {
    for letter in ('a'..='z').chain('A'..='Z').chain(core::iter::once('%')) {
        let parsed = FormatType::from_char(letter).expect("the grammar admits it");
        assert_eq!(parsed.as_char(), Some(letter), "round trip for {letter:?}");
        match parsed {
            FormatType::Unknown(carried) => {
                assert_eq!(carried, letter);
                assert!(!parsed.is_known());
            }
            known => assert_eq!(FormatType::from_char(letter), Some(known)),
        }
    }
}

#[test]
fn from_char_rejects_everything_outside_the_grammar() {
    for letter in ['0', '.', ',', '~', '-', ' ', '\u{b5}', '\u{1f600}'] {
        assert_eq!(FormatType::from_char(letter), None, "{letter:?}");
    }
}

#[test]
fn the_shorthand_and_alias_types_are_not_in_the_conversion_table() {
    assert!(!FormatType::Empty.is_known());
    assert!(!FormatType::Grouped.is_known());
    assert!(!FormatType::Unknown('q').is_known());
    assert!(FormatType::Fixed.is_known());
    assert_eq!(FormatType::Empty.to_string(), "");
    assert_eq!(FormatType::default(), FormatType::Empty);
}

#[test]
fn only_the_character_type_consumes_text() {
    assert_eq!(FormatType::Character.input_kind(), InputKind::Text);
    for other in [
        FormatType::Empty,
        FormatType::Percent,
        FormatType::Decimal,
        FormatType::Grouped,
        FormatType::Unknown('q'),
    ] {
        assert_eq!(other.input_kind(), InputKind::Number, "{other:?}");
    }
    assert_eq!(InputKind::Number.to_string(), "numeric");
    assert_eq!(InputKind::Text.to_string(), "text");
}

#[test]
fn the_si_prefix_table_is_d3s() {
    assert_eq!(si_prefix_entry(8), "");
    assert_eq!(si_prefix_entry(6), "\u{b5}");
    assert_ne!(si_prefix_entry(6), "\u{3bc}");
    assert_eq!(si_prefix_entry(0), "y");
    assert_eq!(si_prefix_entry(16), "Y");
}
