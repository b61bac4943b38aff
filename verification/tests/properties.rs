//! Parser and display properties, checked over a generated corpus against an
//! independent backtracking matcher for the grammar's regular expression.

use d3_format::precision::{as_precision, precision_fixed, precision_prefix, precision_round};
use d3_format::{
    Align, FormatError, FormatLimits, FormatSpecifier, FormatType, Formatter, InputKind, Locale,
    ParseErrorKind, Sign, Symbol,
};


#[derive(Debug, Clone, PartialEq, Eq)]
struct Captures {
    fill: Option<u16>,
    align: Option<u16>,
    sign: Option<u16>,
    symbol: Option<u16>,
    zero: bool,
    width: Option<String>,
    comma: bool,
    precision: Option<String>,
    trim: bool,
    format_type: Option<u16>,
}

impl Captures {
    fn empty() -> Captures {
        Captures {
            fill: None,
            align: None,
            sign: None,
            symbol: None,
            zero: false,
            width: None,
            comma: false,
            precision: None,
            trim: false,
            format_type: None,
        }
    }
}

fn ascii(unit: u16) -> Option<char> {
    (unit < 0x80).then_some(unit as u8 as char)
}

fn is(unit: u16, expected: char) -> bool {
    ascii(unit) == Some(expected)
}

fn is_align(unit: u16) -> bool {
    matches!(ascii(unit), Some('<' | '>' | '=' | '^'))
}

fn is_sign(unit: u16) -> bool {
    matches!(ascii(unit), Some('+' | '-' | '(' | ' '))
}

fn is_symbol(unit: u16) -> bool {
    matches!(ascii(unit), Some('$' | '#'))
}

fn is_digit(unit: u16) -> bool {
    ascii(unit).is_some_and(|character| character.is_ascii_digit())
}

fn is_type(unit: u16) -> bool {
    ascii(unit).is_some_and(|character| character == '%' || character.is_ascii_alphabetic())
}

fn is_line_terminator(unit: u16) -> bool {
    matches!(unit, 0x000A | 0x000D | 0x2028 | 0x2029)
}

fn digit_run(units: &[u16], at: usize) -> usize {
    units[at..]
        .iter()
        .take_while(|unit| is_digit(**unit))
        .count()
}

fn digits_to_string(units: &[u16]) -> String {
    units.iter().map(|unit| *unit as u8 as char).collect()
}

fn reference_match(units: &[u16]) -> Option<Captures> {
    let mut alignments: Vec<(usize, Option<u16>, Option<u16>)> = Vec::new();
    if units.len() >= 2 && is_align(units[1]) && !is_line_terminator(units[0]) {
        alignments.push((2, Some(units[0]), Some(units[1])));
    }
    if !units.is_empty() && is_align(units[0]) {
        alignments.push((1, None, Some(units[0])));
    }
    alignments.push((0, None, None));

    for (consumed, fill, align) in alignments {
        let mut captures = Captures::empty();
        captures.fill = fill;
        captures.align = align;
        if let Some(matched) = match_sign(units, consumed, captures) {
            return Some(matched);
        }
    }
    None
}

fn match_sign(units: &[u16], at: usize, captures: Captures) -> Option<Captures> {
    for (consumed, sign) in optional(units, at, is_sign) {
        let mut captures = captures.clone();
        captures.sign = sign;
        if let Some(matched) = match_symbol(units, at + consumed, captures) {
            return Some(matched);
        }
    }
    None
}

fn match_symbol(units: &[u16], at: usize, captures: Captures) -> Option<Captures> {
    for (consumed, symbol) in optional(units, at, is_symbol) {
        let mut captures = captures.clone();
        captures.symbol = symbol;
        if let Some(matched) = match_zero(units, at + consumed, captures) {
            return Some(matched);
        }
    }
    None
}

fn match_zero(units: &[u16], at: usize, captures: Captures) -> Option<Captures> {
    for (consumed, zero) in optional(units, at, |unit| is(unit, '0')) {
        let mut captures = captures.clone();
        captures.zero = zero.is_some();
        if let Some(matched) = match_width(units, at + consumed, captures) {
            return Some(matched);
        }
    }
    None
}

fn match_width(units: &[u16], at: usize, captures: Captures) -> Option<Captures> {
    let run = digit_run(units, at);
    for length in (1..=run).rev() {
        let mut captures = captures.clone();
        captures.width = Some(digits_to_string(&units[at..at + length]));
        if let Some(matched) = match_comma(units, at + length, captures) {
            return Some(matched);
        }
    }
    match_comma(units, at, captures)
}

fn match_comma(units: &[u16], at: usize, captures: Captures) -> Option<Captures> {
    for (consumed, comma) in optional(units, at, |unit| is(unit, ',')) {
        let mut captures = captures.clone();
        captures.comma = comma.is_some();
        if let Some(matched) = match_precision(units, at + consumed, captures) {
            return Some(matched);
        }
    }
    None
}

fn match_precision(units: &[u16], at: usize, captures: Captures) -> Option<Captures> {
    if units.get(at) == Some(&(b'.' as u16)) {
        let run = digit_run(units, at + 1);
        for length in (1..=run).rev() {
            let mut captures = captures.clone();
            captures.precision = Some(digits_to_string(&units[at + 1..at + 1 + length]));
            if let Some(matched) = match_trim(units, at + 1 + length, captures) {
                return Some(matched);
            }
        }
    }
    match_trim(units, at, captures)
}

fn match_trim(units: &[u16], at: usize, captures: Captures) -> Option<Captures> {
    for (consumed, trim) in optional(units, at, |unit| is(unit, '~')) {
        let mut captures = captures.clone();
        captures.trim = trim.is_some();
        if let Some(matched) = match_type(units, at + consumed, captures) {
            return Some(matched);
        }
    }
    None
}

fn match_type(units: &[u16], at: usize, captures: Captures) -> Option<Captures> {
    for (consumed, format_type) in optional(units, at, is_type) {
        let mut captures = captures.clone();
        captures.format_type = format_type;
        if at + consumed == units.len() {
            return Some(captures);
        }
    }
    None
}

fn optional(units: &[u16], at: usize, accept: impl Fn(u16) -> bool) -> Vec<(usize, Option<u16>)> {
    match units.get(at) {
        Some(unit) if accept(*unit) => vec![(1, Some(*unit)), (0, None)],
        _ => vec![(0, None)],
    }
}


const ALPHABET: [char; 28] = [
    ' ', '_', '<', '>', '^', '=', '+', '-', '(', ')', '$', '#', '0', '1', '2', '9', ',', '.', '~',
    'd', 'f', 'q', 's', '%', 'x', 'X', '\t', '\u{2212}',
];

const REALISTIC: [&str; 40] = [
    "",
    "d",
    "f",
    ".2f",
    ".0f",
    ".30f",
    "e",
    ".3e",
    "g",
    ".0g",
    "n",
    ",g",
    "s",
    ".3s",
    "~s",
    "r",
    ".2r",
    "p",
    ".1p",
    "%",
    ".0%",
    "06.2%",
    "b",
    "#b",
    "o",
    "#o",
    "x",
    "#x",
    "X",
    "#X",
    "c",
    "020c",
    "$,.2f",
    "0=12",
    "012",
    "_^+$012,.2~f",
    "(,.2f",
    " 6.2f",
    "<6.2g",
    "\u{2212}>10.4f",
];

const AWKWARD: [&str; 18] = [
    "foo",
    ".-2s",
    ".f",
    ".",
    "..2f",
    ",,d",
    "~~d",
    "0000",
    "00c",
    "4294967295f",
    "4294967296f",
    "99999999999999999999d",
    ".99999999999999999999f",
    "\u{1f600}>d",
    "\u{1f600}",
    "\n>d",
    "\u{2028}>d",
    "\u{85}>d",
];

struct Rng(u64);

impl Rng {
    fn next(&mut self) -> u64 {
        self.0 ^= self.0 << 13;
        self.0 ^= self.0 >> 7;
        self.0 ^= self.0 << 17;
        self.0
    }

    fn below(&mut self, bound: usize) -> usize {
        (self.next() % bound as u64) as usize
    }
}

fn corpus() -> Vec<String> {
    let mut inputs: Vec<String> = Vec::new();
    inputs.push(String::new());
    for first in ALPHABET {
        inputs.push(first.to_string());
        for second in ALPHABET {
            inputs.push([first, second].iter().collect());
            for third in ALPHABET {
                inputs.push([first, second, third].iter().collect());
            }
        }
    }

    let mut rng = Rng(0x2545_f491_4f6c_dd1d);
    for _ in 0..20_000 {
        let length = 4 + rng.below(9);
        let text: String = (0..length)
            .map(|_| ALPHABET[rng.below(ALPHABET.len())])
            .collect();
        inputs.push(text);
    }

    for _ in 0..20_000 {
        inputs.push(structured(&mut rng));
    }

    inputs.extend(REALISTIC.iter().map(|text| (*text).to_owned()));
    inputs.extend(AWKWARD.iter().map(|text| (*text).to_owned()));
    inputs
}

fn structured(rng: &mut Rng) -> String {
    const FILLS: [char; 8] = ['_', ' ', '0', '<', '$', '\t', '\u{2212}', '\u{1f600}'];
    const ALIGNS: [char; 4] = ['<', '>', '=', '^'];
    const SIGNS: [char; 4] = ['+', '-', '(', ' '];
    const SYMBOLS: [char; 2] = ['$', '#'];
    const TYPES: [char; 17] = [
        'b', 'c', 'd', 'e', 'f', 'g', 'n', 'o', 'p', 'r', 's', 'X', 'x', '%', 'q', 'Z', 'i',
    ];

    let mut text = String::new();
    if rng.below(3) > 0 {
        if rng.below(2) == 0 {
            text.push(FILLS[rng.below(FILLS.len())]);
        }
        text.push(ALIGNS[rng.below(ALIGNS.len())]);
    }
    if rng.below(2) == 0 {
        text.push(SIGNS[rng.below(SIGNS.len())]);
    }
    if rng.below(3) == 0 {
        text.push(SYMBOLS[rng.below(SYMBOLS.len())]);
    }
    if rng.below(3) == 0 {
        text.push('0');
    }
    if rng.below(2) == 0 {
        let digits = 1 + rng.below(12);
        for _ in 0..digits {
            text.push(char::from(b'0' + rng.below(10) as u8));
        }
    }
    if rng.below(3) == 0 {
        text.push(',');
    }
    if rng.below(2) == 0 {
        text.push('.');
        let digits = 1 + rng.below(12);
        for _ in 0..digits {
            text.push(char::from(b'0' + rng.below(10) as u8));
        }
    }
    if rng.below(3) == 0 {
        text.push('~');
    }
    if rng.below(4) > 0 {
        text.push(TYPES[rng.below(TYPES.len())]);
    }
    text
}

fn fill_is_refused(fill: char) -> bool {
    fill as u32 > 0xFFFF || matches!(fill, '\u{2028}' | '\u{2029}') || fill.is_control()
}


#[test]
fn the_parser_accepts_exactly_the_grammar_the_reference_matcher_does() {
    let mut accepted = 0_usize;
    let mut rejected = 0_usize;
    let mut fill_refusals = 0_usize;
    let mut width_refusals = 0_usize;

    for input in corpus() {
        let units: Vec<u16> = input.encode_utf16().collect();
        let reference = reference_match(&units);
        let parsed = input.parse::<FormatSpecifier>();

        match (&reference, &parsed) {
            (Some(captures), Ok(specifier)) => {
                accepted += 1;
                assert_captures_agree(&input, captures, specifier);
            }
            (Some(captures), Err(error)) => match error.kind() {
                ParseErrorKind::Fill => {
                    fill_refusals += 1;
                    let fill = char::from_u32(u32::from(captures.fill.expect("a captured fill")))
                        .expect("a captured BMP fill is always a scalar value");
                    assert!(fill_is_refused(fill), "{input:?} refused fill {fill:?}");
                }
                ParseErrorKind::WidthOverflow => {
                    width_refusals += 1;
                    let digits = captures.width.as_ref().expect("a captured width");
                    assert!(
                        digits.parse::<u32>().is_err(),
                        "{input:?} refused width {digits:?}, which fits"
                    );
                }
                other => panic!("{input:?} matches the grammar but was rejected as {other:?}"),
            },
            (None, Err(error)) => {
                rejected += 1;
                assert!(
                    matches!(error.kind(), ParseErrorKind::Syntax | ParseErrorKind::Fill),
                    "{input:?} was rejected as {:?}",
                    error.kind()
                );
            }
            (None, Ok(specifier)) => panic!(
                "{input:?} is not in the grammar but parsed as {}",
                specifier.to_string()
            ),
        }
    }

    assert!(accepted > 5_000, "only {accepted} inputs were accepted");
    assert!(rejected > 5_000, "only {rejected} inputs were rejected");
    assert!(fill_refusals > 0, "no input exercised the fill refusal");
    assert!(width_refusals > 0, "no input exercised the width refusal");
}

fn assert_captures_agree(input: &str, captures: &Captures, specifier: &FormatSpecifier) {
    let fill = captures
        .fill
        .map(|unit| char::from_u32(u32::from(unit)).expect("a BMP scalar value"))
        .unwrap_or(' ');
    assert_eq!(specifier.fill(), fill, "fill of {input:?}");

    let align = captures
        .align
        .map(|unit| Align::from_char(unit as u8 as char).expect("a captured alignment"))
        .unwrap_or(Align::Right);
    assert_eq!(specifier.align(), align, "align of {input:?}");

    let sign = captures
        .sign
        .map(|unit| Sign::from_char(unit as u8 as char).expect("a captured sign"))
        .unwrap_or(Sign::Minus);
    assert_eq!(specifier.sign(), sign, "sign of {input:?}");

    let symbol = captures
        .symbol
        .map(|unit| Symbol::from_char(unit as u8 as char).expect("a captured symbol"))
        .unwrap_or(Symbol::Absent);
    assert_eq!(specifier.symbol(), symbol, "symbol of {input:?}");

    assert_eq!(specifier.zero(), captures.zero, "zero of {input:?}");
    assert_eq!(specifier.comma(), captures.comma, "comma of {input:?}");
    assert_eq!(specifier.trim(), captures.trim, "trim of {input:?}");

    let width = captures
        .width
        .as_ref()
        .map(|digits| digits.parse::<u32>().expect("checked by the caller"));
    assert_eq!(specifier.width(), width, "width of {input:?}");

    let precision = captures
        .precision
        .as_ref()
        .map(|digits| digits.parse::<u32>().unwrap_or(u32::MAX));
    assert_eq!(specifier.precision(), precision, "precision of {input:?}");

    let format_type = captures
        .format_type
        .map(|unit| FormatType::from_char(unit as u8 as char).expect("a captured type"))
        .unwrap_or(FormatType::Empty);
    assert_eq!(specifier.format_type(), format_type, "type of {input:?}");
}

#[test]
fn display_is_idempotent_and_round_trips_through_the_parser() {
    let mut checked = 0_usize;
    for input in corpus() {
        let Ok(specifier) = input.parse::<FormatSpecifier>() else {
            continue;
        };
        checked += 1;

        let rendered = specifier.to_string();
        let reparsed: FormatSpecifier = rendered.parse().unwrap_or_else(|error: d3_format::ParseError| {
            panic!("{input:?} rendered {rendered:?}, which fails: {}", error.to_string())
        });

        assert_eq!(
            reparsed.to_string(),
            rendered,
            "{input:?} did not render to a fixed point"
        );

        if specifier.width() == Some(0) {
            assert_eq!(reparsed.width(), Some(1), "{input:?}");
            assert_eq!(
                reparsed.to_builder().width(0).build().expect("valid"),
                specifier,
                "{input:?} differs from its rendering in more than the width"
            );
        } else {
            assert_eq!(reparsed, specifier, "{input:?} did not survive rendering");
        }
    }
    assert!(checked > 5_000, "only {checked} specifiers were rendered");
}

#[test]
fn a_rendered_specifier_is_always_in_the_grammar() {
    for input in corpus() {
        let Ok(specifier) = input.parse::<FormatSpecifier>() else {
            continue;
        };
        let rendered = specifier.to_string();
        let units: Vec<u16> = rendered.encode_utf16().collect();
        assert!(
            reference_match(&units).is_some(),
            "{input:?} rendered {rendered:?}, which is not in d3's grammar"
        );
    }
}

#[test]
fn formatter_for_is_exactly_formatter_of_the_rendered_specifier() {
    let locales = [
        Locale::en_us(),
        Locale::builder().build().expect("valid"),
        Locale::builder()
            .decimal(",")
            .thousands(".")
            .grouping([3])
            .currency("", "\u{a0}\u{20ac}")
            .percent("\u{202f}%")
            .build()
            .expect("valid"),
    ];

    let mut compiled = 0_usize;
    let mut refused = 0_usize;
    for input in corpus() {
        let Ok(specifier) = input.parse::<FormatSpecifier>() else {
            continue;
        };
        for locale in &locales {
            let direct = locale.formatter_for(&specifier);
            let rendered = locale.formatter(&specifier.to_string());
            assert_eq!(
                direct, rendered,
                "{input:?} compiled differently through formatter_for"
            );

            match direct {
                Ok(formatter) => {
                    compiled += 1;
                    let expected = if specifier.width() == Some(0) {
                        specifier.to_builder().width(1).build().expect("valid")
                    } else {
                        specifier.clone()
                    };
                    assert_eq!(formatter.specifier(), &expected, "{input:?}");
                }
                Err(error) => {
                    refused += 1;
                    assert!(
                        matches!(error, FormatError::WidthLimit { .. }),
                        "{input:?} failed to compile: {error:?}"
                    );
                }
            }
        }
    }
    assert!(compiled > 5_000, "only {compiled} formatters were compiled");
    assert!(refused > 0, "no specifier exercised the width limit");
}

#[test]
fn the_reference_matcher_agrees_with_node_on_the_documented_examples() {
    let expect_match = |text: &str| {
        let units: Vec<u16> = text.encode_utf16().collect();
        reference_match(&units).unwrap_or_else(|| panic!("{text:?} should match d3's pattern"))
    };
    let expect_no_match = |text: &str| {
        let units: Vec<u16> = text.encode_utf16().collect();
        assert!(
            reference_match(&units).is_none(),
            "{text:?} should not match d3's pattern"
        );
    };

    expect_no_match("foo");
    expect_no_match(".-2s");
    expect_no_match(".f");

    let twelve = expect_match("012");
    assert!(twelve.zero);
    assert_eq!(twelve.width.as_deref(), Some("12"));

    expect_no_match("\u{1f600}>d");
    expect_no_match("\u{2028}>d");
    let tab = expect_match("\t>d");
    assert_eq!(tab.fill, Some(u16::from(b'\t')));

    let full = expect_match("_^+$012,.2~f");
    assert_eq!(full.fill, Some(u16::from(b'_')));
    assert_eq!(full.align, Some(u16::from(b'^')));
    assert_eq!(full.sign, Some(u16::from(b'+')));
    assert_eq!(full.symbol, Some(u16::from(b'$')));
    assert!(full.zero);
    assert_eq!(full.width.as_deref(), Some("12"));
    assert!(full.comma);
    assert_eq!(full.precision.as_deref(), Some("2"));
    assert!(full.trim);
    assert_eq!(full.format_type, Some(u16::from(b'f')));
}

#[test]
fn every_accepted_specifier_round_trips_through_its_own_builder() {
    let mut checked = 0usize;
    for input in corpus() {
        let Ok(specifier) = input.parse::<FormatSpecifier>() else {
            continue;
        };
        let rebuilt = specifier
            .to_builder()
            .build()
            .unwrap_or_else(|error| panic!("{input:?} did not survive its own builder: {}", error.to_string()));
        assert_eq!(rebuilt, specifier, "{input:?} changed through its builder");
        assert_eq!(
            rebuilt.to_string(),
            specifier.to_string(),
            "{input:?} renders differently after its builder"
        );
        checked += 1;
    }
    assert!(checked > 5_000, "only {checked} specifiers were rebuilt");
}

/// `format(value)` for a number: the fixed prefix's scale and the percent
/// multiplication are double arithmetic, done here; the rest is the library.
fn format_value(f: &Formatter, value: f64) -> Result<String, FormatError> {
    let scaled = match f.layout().prefix_scale {
        Some(bits) => f64::from_bits(bits) * value,
        None => value,
    };
    let magnitude = scaled.abs();
    let conversion = if f.scales_by_hundred() {
        magnitude * 100.0
    } else {
        magnitude
    };
    f.format_scaled_number(scaled.to_bits(), conversion.to_bits())
}

/// d3's group walk with an unbounded width, written independently of the library.
fn reference_group(digits: &str, sizes: &[u32], thousands: &str) -> String {
    let units: Vec<char> = digits.chars().collect();
    let mut groups: Vec<String> = Vec::new();
    let mut index = units.len() as i64;
    let mut cursor = 0usize;
    let mut size = i64::from(sizes[0]);
    while index > 0 && size > 0 {
        let end = index as usize;
        index -= size;
        // `value.substring(i -= g, i + g)`, whose start is clamped at zero.
        let start = index.max(0) as usize;
        groups.push(units[start..end].iter().collect());
        cursor = (cursor + 1) % sizes.len();
        size = i64::from(sizes[cursor]);
    }
    groups.reverse();
    groups.join(thousands)
}

#[test]
fn grouping_cycles_through_its_sizes_rather_than_repeating_the_last() {
    let separators = [",", ".", "\u{202f}", "\u{a0}", "'"];
    let grouped = |sizes: &[u32], thousands: &str, digits: &str| -> String {
        let locale = Locale::builder()
            .grouping(sizes.to_vec())
            .thousands(thousands)
            .build()
            .expect("a positive grouping size is valid");
        let value: f64 = digits.parse().expect("under 2^53, so exact");
        format_value(&locale.formatter(",d").expect("valid"), value).expect("valid")
    };

    assert_eq!(grouped(&[3, 2], ",", "1234567890"), "12,345,67,890");
    assert_ne!(grouped(&[3, 2], ",", "1234567890"), "1,23,45,67,890");
    assert_eq!(
        grouped(&[3, 2, 2, 2, 2, 2, 2, 2, 2, 2], ",", "1234567890"),
        "1,23,45,67,890"
    );

    const DIGITS: &str = "123456789012345";
    let mut rng = Rng(0x1234_5678_9abc_def1);
    let mut checked = 0usize;
    for round in 0..500 {
        let length = 1 + rng.below(5);
        let sizes: Vec<u32> = (0..length).map(|_| 1 + rng.below(8) as u32).collect();
        let thousands = separators[round % separators.len()];
        for count in 1..=DIGITS.len() {
            let digits = &DIGITS[..count];
            assert_eq!(
                grouped(&sizes, thousands, digits),
                reference_group(digits, &sizes, thousands),
                "grouping {digits} by {sizes:?} with {thousands:?}"
            );
            checked += 1;
        }
    }
    assert!(checked > 7_000, "only {checked} groupings were checked");
}

/// Values chosen so that every branch of the layout is reached by something.
const AWKWARD_VALUES: [f64; 34] = [
    0.0,
    -0.0,
    1.0,
    -1.0,
    f64::INFINITY,
    f64::NEG_INFINITY,
    f64::NAN,
    -f64::NAN,
    f64::MIN,
    f64::MAX,
    f64::MIN_POSITIVE,
    -f64::MIN_POSITIVE,
    5e-324,
    -5e-324,
    f64::EPSILON,
    0.1,
    0.5,
    -0.5,
    1.5,
    2.5,
    9.995,
    0.000_001,
    0.000_000_1,
    999_999.5,
    1e6,
    1e21,
    1e-7,
    1.797_693_134_862_315_7e308,
    1e24,
    1e25,
    -1e25,
    1e-24,
    1e-25,
    4_294_967_296.0,
];

/// Whether `x` is a value with no decimal exponent.
fn has_no_exponent(x: f64) -> bool {
    x == 0.0 || !x.is_finite()
}

/// What a precision suggestion must be: the fixed NaN `Math.max` answers with, or
/// a whole non-negative count that is not a negative zero.
fn assert_suggestion(what: &str, suggestion: u64, expected_nan: bool) {
    let value = f64::from_bits(suggestion);
    assert_eq!(value.is_nan(), expected_nan, "{what} answered {value}");
    if expected_nan {
        assert_eq!(
            format!("{:016X}", suggestion),
            "FFF8000000000000",
            "{what} answered the wrong NaN"
        );
        assert_eq!(as_precision(suggestion), None, "{what}");
        return;
    }
    assert!(
        value.is_finite() && value >= 0.0 && value.fract() == 0.0,
        "{what} answered {value}, which is not a whole non-negative count"
    );
    assert!(
        value != 0.0 || value.is_sign_positive(),
        "{what} answered a negative zero"
    );
    let precision = as_precision(suggestion).unwrap_or_else(|| {
        panic!("{what} answered {value}, which as_precision refused to convert")
    });
    assert_eq!(f64::from(precision), value, "{what}");
}

/// Steps and values for the precision sweep, beyond [`AWKWARD_VALUES`].
fn precision_operands(count: usize, seed: u64) -> Vec<f64> {
    let mut rng = Rng(seed);
    let mut values = Vec::with_capacity(count);
    for index in 0..count {
        let value = match index % 4 {
            0 => f64::from_bits(rng.next()),
            1 => {
                let exponent = rng.below(650) as i32 - 330;
                format!("1e{exponent}").parse::<f64>().expect("a literal")
            }
            2 => rng.next() as i64 as f64 / 1e9,
            _ => -(rng.below(1_000_000) as f64) / 1024.0,
        };
        values.push(value);
    }
    values
}

#[test]
fn the_precision_helpers_propagate_nan_where_a_float_max_would_lose_it() {
    let mut steps: Vec<f64> = AWKWARD_VALUES.to_vec();
    steps.extend(precision_operands(200, 0x9e37_79b9_7f4a_7c15));
    let mut others: Vec<f64> = AWKWARD_VALUES.to_vec();
    others.extend(precision_operands(40, 0xd1b5_4a32_d192_ed03));

    let mut nan_answers = 0usize;
    let mut real_answers = 0usize;
    for step in &steps {
        let step = *step;
        assert_suggestion(
            &format!("precision_fixed({step})"),
            precision_fixed(step.to_bits()),
            has_no_exponent(step),
        );

        for other in &others {
            let other = *other;
            let difference = other.abs() - step.abs();
            let round = precision_round(step.to_bits(), difference.to_bits());
            assert_suggestion(
                &format!("precision_round({step}, {other})"),
                round,
                has_no_exponent(step) || has_no_exponent(difference),
            );
            if !f64::from_bits(round).is_nan() {
                assert!(
                    f64::from_bits(round) >= 1.0,
                    "precision_round({step}, {other}) is {}",
                    f64::from_bits(round)
                );
            }

            let prefix = precision_prefix(step.to_bits(), other.to_bits());
            assert_suggestion(
                &format!("precision_prefix({step}, {other})"),
                prefix,
                has_no_exponent(step) || has_no_exponent(other),
            );

            for suggestion in [round, prefix] {
                if f64::from_bits(suggestion).is_nan() {
                    nan_answers += 1;
                } else {
                    real_answers += 1;
                }
            }
        }
    }
    assert!(nan_answers > 3_000, "only {nan_answers} answers were NaN");
    assert!(
        real_answers > 25_000,
        "only {real_answers} answers were real"
    );
}

/// As [`format_value`], into `out`, which is cleared first and left empty on
/// error.
fn format_value_into(f: &Formatter, out: &mut String, value: f64) -> Result<(), FormatError> {
    let scaled = match f.layout().prefix_scale {
        Some(bits) => f64::from_bits(bits) * value,
        None => value,
    };
    let magnitude = scaled.abs();
    let conversion = if f.scales_by_hundred() {
        magnitude * 100.0
    } else {
        magnitude
    };
    out.clear();
    let text = f.format_scaled_number(scaled.to_bits(), conversion.to_bits())?;
    out.push_str(&text);
    Ok(())
}

#[test]
fn no_corpus_input_panics_anywhere_in_the_public_surface() {
    let limits = FormatLimits {
        max_width_utf16: 4096,
        max_output_bytes: 1 << 20,
    };
    let locale = Locale::en_us();
    let mut out = String::new();
    for input in corpus() {
        let Ok(specifier) = input.parse::<FormatSpecifier>() else {
            continue;
        };
        let _ = specifier.to_string();
        let _ = specifier.to_builder().build();
        let Ok(formatter) = locale.formatter_for_with_limits(&specifier, limits) else {
            continue;
        };

        let wrong = match formatter.input_kind() {
            InputKind::Number => formatter.format_text("x"),
            InputKind::Text => format_value(&formatter, 0.0),
        };
        assert!(matches!(wrong, Err(FormatError::InputTypeMismatch { .. })));

        match formatter.input_kind() {
            InputKind::Text => {
                for text in ["", "x", "e\u{301}", "\u{1f600}", "\u{0301}"] {
                    formatter
                        .format_text_into(&mut out, text)
                        .unwrap_or_else(|error| panic!("{specifier:?} on {text:?}: {error:?}"));
                }
            }
            InputKind::Number => {
                for value in AWKWARD_VALUES {
                    format_value_into(&formatter, &mut out, value)
                        .unwrap_or_else(|error| {
                            panic!("{specifier:?} on {:016X}: {error:?}", value.to_bits())
                        });
                }
            }
        }
    }
}

const PREFIX_REFERENCES: [f64; 9] = [
    0.0,
    -0.0,
    f64::NAN,
    f64::INFINITY,
    1e6,
    -1e6,
    1.0,
    1e24,
    1e-24,
];

#[test]
fn no_corpus_input_panics_through_a_prefix_formatter() {
    let limits = FormatLimits {
        max_width_utf16: 4096,
        max_output_bytes: 1 << 20,
    };
    let locale = Locale::en_us();
    let mut out = String::new();
    for input in corpus() {
        let Ok(specifier) = input.parse::<FormatSpecifier>() else {
            continue;
        };
        let rendered = specifier.to_string();
        for reference in PREFIX_REFERENCES {
            let compiled = locale.prefix_formatter_with_limits(&rendered, reference.to_bits(), limits);
            let Ok(formatter) = compiled else { continue };
            assert_eq!(formatter.input_kind(), InputKind::Number);
            for value in PREFIX_REFERENCES {
                format_value_into(&formatter, &mut out, value)
                    .unwrap_or_else(|error| {
                        panic!(
                            "{specifier:?} @ {:016X} on {:016X}: {error:?}",
                            reference.to_bits(),
                            value.to_bits()
                        )
                    });
            }
        }
    }
}

const SWEEP_LIMITS: FormatLimits = FormatLimits {
    max_width_utf16: 4096,
    max_output_bytes: 1 << 20,
};

const TEXT_SAMPLES: [&str; 7] = [
    "",
    "x",
    "e\u{301}",
    "\u{1f600}",
    "\u{301}",
    "2024",
    "-1.5e+3",
];

fn sampled(position: usize, index: usize, stride: usize) -> bool {
    (position + index) % stride == 0
}

fn code_units(text: &str) -> Vec<u16> {
    text.encode_utf16().collect()
}

const JUNK: &str = "left over from the last caller";

fn all_fill(units: &[u16], fill: char) -> bool {
    let mut buffer = [0u16; 2];
    let encoded = fill.encode_utf16(&mut buffer);
    assert_eq!(encoded.len(), 1, "fill {fill:?} is not one code unit");
    units.iter().all(|unit| *unit == encoded[0])
}

#[test]
fn owned_and_reused_output_are_the_same_string() {
    let locale = Locale::en_us();
    let mut out = String::new();
    let mut capacity = out.capacity();
    let mut numeric = 0usize;
    let mut textual = 0usize;

    for (position, input) in corpus().into_iter().enumerate() {
        let Ok(specifier) = input.parse::<FormatSpecifier>() else {
            continue;
        };
        let Ok(formatter) = locale.formatter_for_with_limits(&specifier, SWEEP_LIMITS) else {
            continue;
        };
        match formatter.input_kind() {
            InputKind::Number => {
                for (index, value) in AWKWARD_VALUES.iter().enumerate() {
                    if !sampled(position, index, 2) {
                        continue;
                    }
                    let owned = format_value(&formatter, *value)
                        .unwrap_or_else(|error| panic!("{specifier:?} on {value}: {error:?}"));
                    out.push_str(JUNK);
                    format_value_into(&formatter, &mut out, *value)
                        .unwrap_or_else(|error| panic!("{specifier:?} on {value}: {error:?}"));
                    assert_eq!(
                        out,
                        owned,
                        "{specifier:?} on {:016X} differs between the owned and reused paths",
                        value.to_bits()
                    );
                    numeric += 1;
                }
            }
            InputKind::Text => {
                for (index, text) in TEXT_SAMPLES.iter().enumerate() {
                    if !sampled(position, index, 2) {
                        continue;
                    }
                    let owned = formatter
                        .format_text(text)
                        .unwrap_or_else(|error| panic!("{specifier:?} on {text:?}: {error:?}"));
                    out.push_str(JUNK);
                    formatter
                        .format_text_into(&mut out, text)
                        .unwrap_or_else(|error| panic!("{specifier:?} on {text:?}: {error:?}"));
                    assert_eq!(
                        out, owned,
                        "{specifier:?} on {text:?} differs between the owned and reused paths"
                    );
                    textual += 1;
                }
            }
        }

        assert!(
            out.capacity() >= capacity,
            "{specifier:?} shrank the caller's buffer from {capacity} to {}",
            out.capacity()
        );
        capacity = out.capacity();
    }

    assert!(
        numeric > 200_000,
        "only {numeric} numeric pairs were compared"
    );
    assert!(textual > 500, "only {textual} text pairs were compared");
}

fn assert_bounded(
    what: &str,
    outcome: Result<(), FormatError>,
    out: &str,
    limits: FormatLimits,
    width: u32,
    owned: impl FnOnce() -> Result<String, FormatError>,
) -> bool {
    match outcome {
        Ok(()) => {
            assert!(
                out.len() <= limits.max_output_bytes,
                "{what} produced {} bytes, over the {} it was given",
                out.len(),
                limits.max_output_bytes
            );
            assert!(
                code_units(out).len() >= width as usize,
                "{what} produced {out:?}, narrower than its width"
            );
            true
        }
        Err(FormatError::OutputLimit { requested, maximum }) => {
            assert_eq!(maximum, limits.max_output_bytes, "{what}");
            assert!(
                requested > maximum,
                "{what} refused {requested} bytes, which fits"
            );
            assert!(out.is_empty(), "{what} left {out:?} behind");
            assert_eq!(
                owned(),
                Err(FormatError::OutputLimit { requested, maximum }),
                "{what} disagrees between its two entry points"
            );
            false
        }
        Err(error) => panic!("{what} failed as {error:?}, which is not a limit"),
    }
}

#[test]
fn no_accepted_input_produces_an_unbounded_allocation() {
    const TIGHT: FormatLimits = FormatLimits {
        max_width_utf16: 32,
        max_output_bytes: 48,
    };

    let locale = Locale::en_us();
    let mut out = String::new();
    let mut within = 0usize;
    let mut refused = 0usize;
    let mut too_wide = 0usize;

    for (position, input) in corpus().into_iter().enumerate() {
        let Ok(specifier) = input.parse::<FormatSpecifier>() else {
            continue;
        };
        let formatter = match locale.formatter_for_with_limits(&specifier, TIGHT) {
            Ok(formatter) => formatter,
            Err(FormatError::WidthLimit { requested, maximum }) => {
                too_wide += 1;
                assert_eq!(maximum, TIGHT.max_width_utf16, "{specifier:?}");
                assert!(
                    requested > maximum,
                    "{specifier:?} was refused a width it fits"
                );
                continue;
            }
            Err(error) => panic!("{specifier:?} failed to compile: {error:?}"),
        };
        let width = specifier.width().unwrap_or(0);

        match formatter.input_kind() {
            InputKind::Number => {
                for (index, value) in AWKWARD_VALUES.iter().enumerate() {
                    if !sampled(position, index, 2) {
                        continue;
                    }
                    out.push_str(JUNK);
                    let outcome = format_value_into(&formatter, &mut out, *value);
                    let label = format!("{specifier:?} on {:016X}", value.to_bits());
                    let fitted = assert_bounded(&label, outcome, &out, TIGHT, width, || {
                        format_value(&formatter, *value)
                    });
                    if fitted {
                        within += 1;
                    } else {
                        refused += 1;
                    }
                }
            }
            InputKind::Text => {
                let long = "x".repeat(200);
                for text in TEXT_SAMPLES.iter().copied().chain([long.as_str()]) {
                    out.push_str(JUNK);
                    let outcome = formatter.format_text_into(&mut out, text);
                    let label = format!("{specifier:?} on {} bytes of text", text.len());
                    let fitted = assert_bounded(&label, outcome, &out, TIGHT, width, || {
                        formatter.format_text(text)
                    });
                    if fitted {
                        within += 1;
                    } else {
                        refused += 1;
                    }
                }
            }
        }
    }

    assert!(
        within > 100_000,
        "only {within} results stayed inside the budget"
    );
    assert!(refused > 10_000, "only {refused} results were refused");
    assert!(
        too_wide > 1_000,
        "only {too_wide} specifiers were too wide to compile"
    );
}

#[derive(Debug, Clone, Copy)]
enum Padded {
    Run(Align),
    Nothing,
    Regrouped,
}

#[derive(Debug, Default)]
struct Tally {
    runs: [usize; 4],
    nothing: usize,
    regrouped: usize,
}

impl Tally {
    fn record(&mut self, padded: Padded) {
        match padded {
            Padded::Run(Align::Left) => self.runs[0] += 1,
            Padded::Run(Align::Right) => self.runs[1] += 1,
            Padded::Run(Align::Center) => self.runs[2] += 1,
            Padded::Run(Align::AfterSign) => self.runs[3] += 1,
            Padded::Nothing => self.nothing += 1,
            Padded::Regrouped => self.regrouped += 1,
        }
    }
}

fn check_width(
    locale: &Locale,
    position: usize,
    specifier: &FormatSpecifier,
    stride: usize,
    tally: &mut Tally,
) {
    let Some(width) = specifier.width().filter(|width| *width > 0) else {
        return;
    };
    let Ok(formatter) = locale.formatter_for_with_limits(specifier, SWEEP_LIMITS) else {
        return;
    };
    let unpadded = specifier
        .to_builder()
        .width(None)
        .build()
        .expect("dropping a width cannot invalidate a specifier");
    let unpadded = locale
        .formatter_for_with_limits(&unpadded, SWEEP_LIMITS)
        .expect("a specifier with no width is inside every width limit");

    let zero =
        specifier.zero() || (specifier.fill() == '0' && specifier.align() == Align::AfterSign);
    let (fill, align) = if zero {
        ('0', Align::AfterSign)
    } else {
        (specifier.fill(), specifier.align())
    };
    let comma = specifier.comma() || specifier.format_type() == FormatType::Grouped;
    let regrouped = comma && zero && locale.grouping().is_some();

    match formatter.input_kind() {
        InputKind::Number => {
            for (index, value) in AWKWARD_VALUES.iter().enumerate() {
                if !sampled(position, index, stride) {
                    continue;
                }
                let padded = format_value(&formatter, *value)
                    .unwrap_or_else(|error| panic!("{specifier:?} on {value}: {error:?}"));
                let natural = format_value(&unpadded, *value)
                    .unwrap_or_else(|error| panic!("{specifier:?} on {value}: {error:?}"));
                let label = format!("{specifier:?} on {:016X}", value.to_bits());
                tally.record(assert_padding(
                    &label, &padded, &natural, width, fill, align, regrouped,
                ));
            }
        }
        InputKind::Text => {
            let empty = unpadded.format_text("").expect("type c takes any text");
            for (index, text) in TEXT_SAMPLES.iter().enumerate() {
                if !sampled(position, index, stride) {
                    continue;
                }
                let padded = formatter
                    .format_text(text)
                    .unwrap_or_else(|error| panic!("{specifier:?} on {text:?}: {error:?}"));
                let natural = unpadded
                    .format_text(text)
                    .unwrap_or_else(|error| panic!("{specifier:?} on {text:?}: {error:?}"));
                if !text.is_empty() {
                    assert_eq!(
                        natural.replacen(text, "", 1),
                        empty,
                        "{specifier:?} did not preserve {text:?}"
                    );
                }
                let label = format!("{specifier:?} on {text:?}");
                tally.record(assert_padding(
                    &label, &padded, &natural, width, fill, align, regrouped,
                ));
            }
        }
    }
}

fn assert_padding(
    what: &str,
    padded: &str,
    natural: &str,
    width: u32,
    fill: char,
    align: Align,
    regrouped: bool,
) -> Padded {
    let padded_units = code_units(padded);
    let natural_units = code_units(natural);
    let padding = (width as usize).saturating_sub(natural_units.len());

    if regrouped {
        assert!(
            padded_units.len() >= width as usize,
            "{what}: {padded:?} is narrower than the {width} it asked for"
        );
        return Padded::Regrouped;
    }

    assert_eq!(
        padded_units.len(),
        natural_units.len().max(width as usize),
        "{what}: {padded:?} is not max(width, natural) code units long"
    );
    if padding == 0 {
        assert_eq!(padded, natural, "{what}: padded when nothing was needed");
        return Padded::Nothing;
    }

    match align {
        Align::Right => {
            assert!(
                all_fill(&padded_units[..padding], fill),
                "{what}: {padded:?} is not padded with {fill:?} on the left"
            );
            assert_eq!(
                &padded_units[padding..],
                &natural_units[..],
                "{what}: {padded:?} is not {natural:?} behind its padding"
            );
        }
        Align::Left => {
            let body = padded_units.len() - padding;
            assert_eq!(
                &padded_units[..body],
                &natural_units[..],
                "{what}: {padded:?} is not {natural:?} in front of its padding"
            );
            assert!(
                all_fill(&padded_units[body..], fill),
                "{what}: {padded:?} is not padded with {fill:?} on the right"
            );
        }
        Align::Center => {
            let head = padding >> 1;
            let body = padded_units.len() - (padding - head);
            assert!(
                all_fill(&padded_units[..head], fill),
                "{what}: {padded:?} is not centred in {fill:?}"
            );
            assert_eq!(
                &padded_units[head..body],
                &natural_units[..],
                "{what}: {padded:?} is not {natural:?} between its padding"
            );
            assert!(
                all_fill(&padded_units[body..], fill),
                "{what}: {padded:?} is not centred in {fill:?}"
            );
        }
        Align::AfterSign => {
            let shared = padded_units
                .iter()
                .zip(&natural_units)
                .take_while(|(padded, natural)| padded == natural)
                .count();
            assert!(
                all_fill(&padded_units[shared..shared + padding], fill),
                "{what}: {padded:?} is not {natural:?} with a run of {fill:?} inserted"
            );
            assert_eq!(
                &padded_units[shared + padding..],
                &natural_units[shared..],
                "{what}: {padded:?} is not {natural:?} with a run of {fill:?} inserted"
            );
        }
    }
    Padded::Run(align)
}

#[test]
fn a_width_is_reached_exactly_and_padded_with_the_resolved_fill() {
    let locale = Locale::en_us();
    let mut tally = Tally::default();
    for (position, input) in corpus().into_iter().enumerate() {
        let Ok(specifier) = input.parse::<FormatSpecifier>() else {
            continue;
        };
        check_width(&locale, position, &specifier, 2, &mut tally);
    }

    let unicode = Locale::builder()
        .decimal(",")
        .thousands("\u{202f}")
        .grouping([3])
        .currency("", "\u{a0}\u{20ac}")
        .percent("\u{202f}%")
        .minus("\u{2796}")
        .nan("N/A")
        .build()
        .expect("valid");
    for (position, spec) in [
        "$12,.2f",
        "<$12.2f",
        "^$13.2f",
        "=$12.2f",
        "\u{2212}>12.1%",
        "$012,.2f",
        "12,.3s",
        "020c",
        "\u{2796}^11c",
    ]
    .into_iter()
    .enumerate()
    {
        let specifier: FormatSpecifier = spec.parse().expect("valid");
        check_width(&unicode, position, &specifier, 1, &mut tally);
    }

    let runs: usize = tally.runs.iter().sum();
    for (alignment, count) in ['<', '>', '^', '='].iter().zip(&tally.runs) {
        assert!(
            *count > 100,
            "only {count} padding runs were checked for alignment {alignment:?}"
        );
    }
    assert!(runs > 30_000, "only {runs} padding runs were pinned");
    assert!(
        tally.regrouped > 100,
        "only {} took the zero-grouping path",
        tally.regrouped
    );
}

fn fraction_of<'a>(text: &'a str, decimal: &str) -> Option<&'a str> {
    let at = text.find(decimal)? + decimal.len();
    let rest = &text[at..];
    let end = rest
        .find(|character: char| !character.is_ascii_digit())
        .unwrap_or(rest.len());
    Some(&rest[..end])
}

const TRIM_VALUES: [f64; 12] = [
    1.0,
    1.05,
    1.5,
    100.0,
    0.25,
    0.000_010_5,
    1.000_000_1,
    123_456.7,
    1.2e21,
    9.999_5,
    1.048_576e6,
    0.1 + 0.2,
];

#[test]
fn a_trimmed_result_never_ends_in_an_insignificant_zero() {
    let locale = Locale::en_us();
    let mut checked = 0usize;
    let mut fractions = 0usize;
    for (position, input) in corpus().into_iter().enumerate() {
        let Ok(specifier) = input.parse::<FormatSpecifier>() else {
            continue;
        };
        let format_type = specifier.format_type();
        let trims =
            specifier.trim() || (format_type != FormatType::Grouped && !format_type.is_known());
        if !trims {
            continue;
        }
        let unpadded = specifier
            .to_builder()
            .width(None)
            .build()
            .expect("dropping a width cannot invalidate a specifier");
        let formatter = locale
            .formatter_for_with_limits(&unpadded, SWEEP_LIMITS)
            .expect("a specifier with no width is inside every width limit");
        if formatter.input_kind() == InputKind::Text {
            continue;
        }
        for (index, value) in AWKWARD_VALUES.iter().chain(&TRIM_VALUES).enumerate() {
            if !sampled(position, index, 3) {
                continue;
            }
            let formatted = format_value(&formatter, *value)
                .unwrap_or_else(|error| panic!("{unpadded:?} on {value}: {error:?}"));
            checked += 1;
            let Some(fraction) = fraction_of(&formatted, locale.decimal()) else {
                continue;
            };
            fractions += 1;
            assert!(
                !fraction.ends_with('0'),
                "{unpadded:?} on {:016X} produced {formatted:?}, whose fraction still ends in a zero",
                value.to_bits()
            );
            assert!(
                !fraction.is_empty(),
                "{unpadded:?} on {:016X} produced {formatted:?}, a decimal point with no fraction",
                value.to_bits()
            );
        }
    }
    assert!(
        checked > 20_000,
        "only {checked} trimmed results were checked"
    );
    assert!(
        fractions > 2_000,
        "only {fractions} of them kept a fraction"
    );
}

fn arabic_numerals() -> Locale {
    Locale::builder()
        .decimal("\u{66b}")
        .thousands("\u{66c}")
        .grouping([3])
        .currency("", " \u{62f}.\u{625}.")
        .numerals([
            "\u{660}".to_owned(),
            "\u{661}".to_owned(),
            "\u{662}".to_owned(),
            "\u{663}".to_owned(),
            "\u{664}".to_owned(),
            "\u{665}".to_owned(),
            "\u{666}".to_owned(),
            "\u{667}".to_owned(),
            "\u{668}".to_owned(),
            "\u{669}".to_owned(),
        ])
        .build()
        .expect("valid")
}

#[test]
fn numeral_substitution_reaches_every_ascii_digit_in_the_result() {
    let locale = arabic_numerals();
    let mut numeric = 0usize;
    let mut textual = 0usize;
    for (position, input) in corpus().into_iter().enumerate() {
        let Ok(specifier) = input.parse::<FormatSpecifier>() else {
            continue;
        };
        let Ok(formatter) = locale.formatter_for_with_limits(&specifier, SWEEP_LIMITS) else {
            continue;
        };
        match formatter.input_kind() {
            InputKind::Number => {
                for (index, value) in AWKWARD_VALUES.iter().enumerate() {
                    if !sampled(position, index, 4) {
                        continue;
                    }
                    let formatted = format_value(&formatter, *value)
                        .unwrap_or_else(|error| panic!("{specifier:?} on {value}: {error:?}"));
                    assert!(
                        !formatted.chars().any(|c| c.is_ascii_digit()),
                        "{specifier:?} on {:016X} left an ASCII digit in {formatted:?}",
                        value.to_bits()
                    );
                    numeric += 1;
                }
            }
            InputKind::Text => {
                for (index, text) in TEXT_SAMPLES.iter().enumerate() {
                    if !sampled(position, index, 4) {
                        continue;
                    }
                    let formatted = formatter
                        .format_text(text)
                        .unwrap_or_else(|error| panic!("{specifier:?} on {text:?}: {error:?}"));
                    assert!(
                        !formatted.chars().any(|c| c.is_ascii_digit()),
                        "{specifier:?} on {text:?} left an ASCII digit in {formatted:?}"
                    );
                    textual += 1;
                }
            }
        }
    }

    let hexadecimal = locale.formatter("#x").expect("valid");
    assert_eq!(
        format_value(&hexadecimal, 48879.0).expect("valid"),
        "\u{660}xbeef"
    );

    assert!(
        numeric > 100_000,
        "only {numeric} numeric results were checked"
    );
    assert!(textual > 200, "only {textual} text results were checked");
}
