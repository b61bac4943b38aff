//! The format mini-language, as an immutable validated value.
//!
//! The grammar is one regular expression:
//!
//! ```text
//! /^(?:(.)?([<>=^]))?([+\-( ])?([$#])?(0)?(\d+)?(,)?(\.\d+)?(~)?([a-z%])?$/i
//! ```
//!
//! [`FormatSpecifier`] is what it captures, with typed private fields. The parser
//! reproduces the pattern's two backtracking points, and refuses two inputs the
//! pattern admits: a fill it cannot pad with, and a width above `u32::MAX`.
use vstd::prelude::*;
use vstd::seq_lib::lemma_concat_associative;
use vstd::string::*;

use crate::text::{
    all_digits, chars_of, dec, digit_value, digits_value, lemma_dec_facts, push_decimal, string_of,
};
use crate::types::{is_ascii_digit, is_ascii_letter, Align, FormatType, Sign, Symbol};

verus! {

broadcast use vstd::string::group_string_axioms;

/// What went wrong in a [`ParseError`]. Every kind renders the same message.
#[derive(Debug, Clone, Copy, PartialEq, Eq, Structural, Hash)]
#[non_exhaustive]
pub enum ParseErrorKind {
    /// The text is not in the grammar at all.
    Syntax,
    /// The fill character is one the formatter refuses to pad with.
    Fill,
    /// The text is in the grammar, but its width has more magnitude than a `u32`
    /// holds.
    WidthOverflow,
}

/// Why a specifier could not be parsed or built. Renders as `invalid format: {input}`.
#[derive(Debug, PartialEq, Eq)]
pub struct ParseError {
    input: String,
    kind: ParseErrorKind,
}

impl Clone for ParseError {
    /// The same text and kind.
    fn clone(&self) -> (c: ParseError)
        ensures
            c == *self,
    {
        ParseError { input: self.input.clone(), kind: self.kind }
    }
}

impl ParseError {
    pub closed spec fn spec_input(&self) -> Seq<char> {
        self.input@
    }

    pub closed spec fn spec_kind(&self) -> ParseErrorKind {
        self.kind
    }

    fn new(input: String, kind: ParseErrorKind) -> (e: ParseError)
        ensures
            e.spec_input() == input@,
            e.spec_kind() == kind,
    {
        ParseError { input, kind }
    }

    /// The rejected text: the input verbatim for a parse, and the canonical
    /// spelling of the fields for a failed build.
    pub fn input(&self) -> (s: &str)
        ensures
            s@ == self.spec_input(),
    {
        self.input.as_str()
    }

    /// Which part of the grammar the input broke.
    pub fn kind(&self) -> (k: ParseErrorKind)
        ensures
            k == self.spec_kind(),
    {
        self.kind
    }

    /// The message: `invalid format: ` followed by the rejected text.
    pub fn to_string(&self) -> (s: String)
        ensures
            s@ == "invalid format: "@ + self.spec_input(),
    {
        let s = String::from_str("invalid format: ");
        s.concat(self.input.as_str())
    }
}

/// The fields of a specifier, as plain values.
#[derive(Debug, Clone, Copy, PartialEq, Eq, Structural)]
pub struct Fields {
    pub fill: char,
    pub align: Align,
    pub sign: Sign,
    pub symbol: Symbol,
    pub zero: bool,
    pub width: Option<u32>,
    pub comma: bool,
    pub precision: Option<u32>,
    pub trim: bool,
    pub format_type: FormatType,
}

/// The fields the empty specifier has.
pub open spec fn default_fields() -> Fields {
    Fields {
        fill: ' ',
        align: Align::Right,
        sign: Sign::Minus,
        symbol: Symbol::Absent,
        zero: false,
        width: None,
        comma: false,
        precision: None,
        trim: false,
        format_type: FormatType::Empty,
    }
}

/// Whether `c` is a control character (general category `Cc`).
pub open spec fn is_control(c: char) -> bool {
    (c as u32) < 0x20 || (0x7f <= (c as u32) && (c as u32) <= 0x9f)
}

/// Whether `c` may be used as fill: inside the Basic Multilingual Plane, not a
/// line terminator and not a control character.
pub open spec fn fill_ok(c: char) -> bool {
    &&& (c as u32) <= 0xFFFF
    &&& c != '\u{2028}'
    &&& c != '\u{2029}'
    &&& !is_control(c)
}

/// Whether the type a set of fields carries can be spelled in the grammar.
pub open spec fn type_ok(t: FormatType) -> bool {
    match t.spec_char() {
        None => true,
        Some(c) => FormatType::spec_from_char(c) is Some,
    }
}

/// The type a builder's type becomes: a letter that names a known conversion is
/// that conversion.
pub open spec fn canonical_type(t: FormatType) -> FormatType {
    match t.spec_char() {
        None => FormatType::Empty,
        Some(c) => FormatType::spec_from_char(c).unwrap(),
    }
}

/// The invariant every [`FormatSpecifier`] keeps.
pub open spec fn fields_valid(f: Fields) -> bool {
    fill_ok(f.fill) && f.format_type.canonical()
}

// ---------------------------------------------------------------------------
// The grammar, as spec functions over the remaining input
// ---------------------------------------------------------------------------

/// `(?:(.)?([<>=^]))?`: a fill is spent when the second character aligns.
pub open spec fn parse_fill_align(s: Seq<char>) -> Result<(char, Align, Seq<char>), ParseErrorKind> {
    if s.len() >= 2 && Align::spec_from_char(s[1]) is Some {
        if fill_ok(s[0]) {
            Ok((s[0], Align::spec_from_char(s[1]).unwrap(), s.skip(2)))
        } else {
            Err(ParseErrorKind::Fill)
        }
    } else if s.len() >= 1 && Align::spec_from_char(s[0]) is Some {
        Ok((' ', Align::spec_from_char(s[0]).unwrap(), s.skip(1)))
    } else {
        Ok((' ', Align::Right, s))
    }
}

pub open spec fn parse_sign(s: Seq<char>) -> (Sign, Seq<char>) {
    if s.len() >= 1 && Sign::spec_from_char(s[0]) is Some {
        (Sign::spec_from_char(s[0]).unwrap(), s.skip(1))
    } else {
        (Sign::Minus, s)
    }
}

pub open spec fn parse_symbol(s: Seq<char>) -> (Symbol, Seq<char>) {
    if s.len() >= 1 && Symbol::spec_from_char(s[0]) is Some {
        (Symbol::spec_from_char(s[0]).unwrap(), s.skip(1))
    } else {
        (Symbol::Absent, s)
    }
}

/// Consumes `c` if it comes next.
pub open spec fn parse_flag(s: Seq<char>, c: char) -> (bool, Seq<char>) {
    if s.len() >= 1 && s[0] == c {
        (true, s.skip(1))
    } else {
        (false, s)
    }
}

/// The length of the run of ASCII digits that `s` starts with.
pub open spec fn digit_run(s: Seq<char>) -> nat
    decreases s.len(),
{
    if s.len() >= 1 && is_ascii_digit(s[0]) {
        1 + digit_run(s.skip(1))
    } else {
        0
    }
}

/// `(\d+)?`, refused when the digits spell more than a `u32` holds.
pub open spec fn parse_width(s: Seq<char>) -> Result<(Option<u32>, Seq<char>), ParseErrorKind> {
    let n = digit_run(s);
    if n == 0 {
        Ok((None, s))
    } else if digits_value(s.take(n as int)) <= u32::MAX {
        Ok((Some(digits_value(s.take(n as int)) as u32), s.skip(n as int)))
    } else {
        Err(ParseErrorKind::WidthOverflow)
    }
}

/// `(\.\d+)?`, saturating at `u32::MAX`.
pub open spec fn parse_precision(s: Seq<char>) -> (Option<u32>, Seq<char>) {
    if s.len() >= 2 && s[0] == '.' && is_ascii_digit(s[1]) {
        let n = digit_run(s.skip(1));
        let v = digits_value(s.skip(1).take(n as int));
        (Some(if v <= u32::MAX { v as u32 } else { u32::MAX }), s.skip(1 + n as int))
    } else {
        (None, s)
    }
}

pub open spec fn parse_type(s: Seq<char>) -> (FormatType, Seq<char>) {
    if s.len() >= 1 && FormatType::spec_from_char(s[0]) is Some {
        (FormatType::spec_from_char(s[0]).unwrap(), s.skip(1))
    } else {
        (FormatType::Empty, s)
    }
}

/// What is left after `(,)?(\.\d+)?(~)?([a-z%])?` reads the start of `s`.
pub open spec fn tail_rest(s: Seq<char>) -> Seq<char> {
    let s6 = parse_flag(s, ',').1;
    let s7 = parse_precision(s6).1;
    let s8 = parse_flag(s7, '~').1;
    parse_type(s8).1
}

/// The whole grammar: the fields `s` spells, or why it spells none. A width too
/// large for a `u32` is reported as such only when the rest of `s` is in the
/// grammar; otherwise `s` is refused as syntax.
pub open spec fn spec_parse(s: Seq<char>) -> Result<Fields, ParseErrorKind> {
    match parse_fill_align(s) {
        Err(k) => Err(k),
        Ok((fill, align, s1)) => {
            let (sign, s2) = parse_sign(s1);
            let (symbol, s3) = parse_symbol(s2);
            let (zero, s4) = parse_flag(s3, '0');
            match parse_width(s4) {
                Err(k) => if tail_rest(s4.skip(digit_run(s4) as int)).len() == 0 {
                    Err(k)
                } else {
                    Err(ParseErrorKind::Syntax)
                },
                Ok((width, s5)) => {
                    let (comma, s6) = parse_flag(s5, ',');
                    let (precision, s7) = parse_precision(s6);
                    let (trim, s8) = parse_flag(s7, '~');
                    let (format_type, s9) = parse_type(s8);
                    if s9.len() == 0 {
                        Ok(
                            Fields {
                                fill,
                                align,
                                sign,
                                symbol,
                                zero,
                                width,
                                comma,
                                precision,
                                trim,
                                format_type,
                            },
                        )
                    } else {
                        Err(ParseErrorKind::Syntax)
                    }
                },
            }
        },
    }
}

// ---------------------------------------------------------------------------
// The canonical spelling
// ---------------------------------------------------------------------------

pub open spec fn opt_char(c: Option<char>) -> Seq<char> {
    match c {
        Some(c) => seq![c],
        None => Seq::<char>::empty(),
    }
}

pub open spec fn flag_text(b: bool, c: char) -> Seq<char> {
    if b {
        seq![c]
    } else {
        Seq::<char>::empty()
    }
}

/// The width is spelled as at least one, as d3's `Math.max(1, width)` does.
pub open spec fn width_text(w: Option<u32>) -> Seq<char> {
    match w {
        Some(w) => dec(if w == 0 { 1nat } else { w as nat }),
        None => Seq::<char>::empty(),
    }
}

pub open spec fn precision_text(p: Option<u32>) -> Seq<char> {
    match p {
        Some(p) => seq!['.'] + dec(p as nat),
        None => Seq::<char>::empty(),
    }
}

pub open spec fn tail_type(f: Fields) -> Seq<char> {
    opt_char(f.format_type.spec_char())
}

pub open spec fn tail_trim(f: Fields) -> Seq<char> {
    flag_text(f.trim, '~') + tail_type(f)
}

pub open spec fn tail_precision(f: Fields) -> Seq<char> {
    precision_text(f.precision) + tail_trim(f)
}

pub open spec fn tail_comma(f: Fields) -> Seq<char> {
    flag_text(f.comma, ',') + tail_precision(f)
}

pub open spec fn tail_width(f: Fields) -> Seq<char> {
    width_text(f.width) + tail_comma(f)
}

pub open spec fn tail_zero(f: Fields) -> Seq<char> {
    flag_text(f.zero, '0') + tail_width(f)
}

pub open spec fn tail_symbol(f: Fields) -> Seq<char> {
    opt_char(f.symbol.spec_char()) + tail_zero(f)
}

/// Every field spelled, defaults included, as `FormatSpecifier.prototype.toString`.
pub open spec fn spec_render(f: Fields) -> Seq<char> {
    seq![f.fill, f.align.spec_char(), f.sign.spec_char()] + tail_symbol(f)
}

/// What building a set of fields yields.
pub open spec fn spec_build(f: Fields) -> Result<Fields, ParseErrorKind> {
    if !type_ok(f.format_type) {
        Err(ParseErrorKind::Syntax)
    } else if !fill_ok(f.fill) {
        Err(ParseErrorKind::Fill)
    } else {
        Ok(Fields { format_type: canonical_type(f.format_type), ..f })
    }
}

/// The fields with a width of zero spelled as one, which is all rendering loses.
pub open spec fn normalize_width(f: Fields) -> Fields {
    match f.width {
        Some(w) => if w == 0 { Fields { width: Some(1), ..f } } else { f },
        None => f,
    }
}

// ---------------------------------------------------------------------------
// The value
// ---------------------------------------------------------------------------

/// A validated, immutable format specifier.
///
/// Produced by parsing or by [`FormatSpecifier::builder`], both of which validate
/// up front. To change one, take [`FormatSpecifier::to_builder`] and build another.
#[derive(Debug, Clone, Copy, PartialEq, Eq, Hash)]
pub struct FormatSpecifier {
    fill: char,
    align: Align,
    sign: Sign,
    symbol: Symbol,
    zero: bool,
    width: Option<u32>,
    comma: bool,
    precision: Option<u32>,
    trim: bool,
    format_type: FormatType,
}

impl View for FormatSpecifier {
    type V = Fields;

    closed spec fn view(&self) -> Fields {
        Fields {
            fill: self.fill,
            align: self.align,
            sign: self.sign,
            symbol: self.symbol,
            zero: self.zero,
            width: self.width,
            comma: self.comma,
            precision: self.precision,
            trim: self.trim,
            format_type: self.format_type,
        }
    }
}

impl FormatSpecifier {
    #[verifier::type_invariant]
    closed spec fn valid(&self) -> bool {
        fields_valid(self@)
    }

    /// Every specifier's fields are valid.
    pub fn is_valid(&self) -> (b: bool)
        ensures
            b,
            fields_valid(self@),
    {
        proof {
            use_type_invariant(self);
        }
        true
    }

    fn from_fields(f: Fields) -> (s: FormatSpecifier)
        requires
            fields_valid(f),
        ensures
            s@ == f,
    {
        FormatSpecifier {
            fill: f.fill,
            align: f.align,
            sign: f.sign,
            symbol: f.symbol,
            zero: f.zero,
            width: f.width,
            comma: f.comma,
            precision: f.precision,
            trim: f.trim,
            format_type: f.format_type,
        }
    }

    /// The fields as plain values.
    pub fn fields(&self) -> (f: Fields)
        ensures
            f == self@,
    {
        Fields {
            fill: self.fill,
            align: self.align,
            sign: self.sign,
            symbol: self.symbol,
            zero: self.zero,
            width: self.width,
            comma: self.comma,
            precision: self.precision,
            trim: self.trim,
            format_type: self.format_type,
        }
    }

    /// A builder starting from the defaults, the ones `""` parses to.
    pub fn builder() -> (b: FormatSpecifierBuilder)
        ensures
            b@ == default_fields(),
    {
        FormatSpecifierBuilder::new()
    }

    /// A builder starting from this specifier's fields.
    pub fn to_builder(&self) -> (b: FormatSpecifierBuilder)
        ensures
            b@ == self@,
            spec_build(b@) == Ok::<Fields, ParseErrorKind>(self@),
    {
        proof {
            use_type_invariant(self);
            lemma_build_own_fields(self@);
        }
        FormatSpecifierBuilder::from_fields(self.fields())
    }

    /// The padding character. Defaults to a space.
    pub fn fill(&self) -> (c: char)
        ensures
            c == self@.fill,
    {
        self.fill
    }

    /// Where the padding goes. Defaults to [`Align::Right`].
    pub fn align(&self) -> (a: Align)
        ensures
            a == self@.align,
    {
        self.align
    }

    /// How the sign is spelled. Defaults to [`Sign::Minus`].
    pub fn sign(&self) -> (s: Sign)
        ensures
            s == self@.sign,
    {
        self.sign
    }

    /// The currency or base-prefix symbol. Defaults to [`Symbol::Absent`].
    pub fn symbol(&self) -> (s: Symbol)
        ensures
            s == self@.symbol,
    {
        self.symbol
    }

    /// Whether the specifier spelled the `0` flag.
    pub fn zero(&self) -> (b: bool)
        ensures
            b == self@.zero,
    {
        self.zero
    }

    /// The requested width in UTF-16 code units, if any.
    pub fn width(&self) -> (w: Option<u32>)
        ensures
            w == self@.width,
    {
        self.width
    }

    /// Whether grouping was requested with `,`.
    pub fn comma(&self) -> (b: bool)
        ensures
            b == self@.comma,
    {
        self.comma
    }

    /// The requested precision, before the formatter clamps it.
    pub fn precision(&self) -> (p: Option<u32>)
        ensures
            p == self@.precision,
    {
        self.precision
    }

    /// Whether insignificant trailing zeros are trimmed, from `~`.
    pub fn trim(&self) -> (b: bool)
        ensures
            b == self@.trim,
    {
        self.trim
    }

    /// The conversion. Defaults to [`FormatType::Empty`].
    pub fn format_type(&self) -> (t: FormatType)
        ensures
            t == self@.format_type,
    {
        self.format_type
    }

    /// Parses `text` against the grammar.
    pub fn parse(text: &str) -> (r: Result<FormatSpecifier, ParseError>)
        ensures
            match r {
                Ok(s) => spec_parse(text@) == Ok::<Fields, ParseErrorKind>(s@),
                Err(e) => spec_parse(text@) == Err::<Fields, ParseErrorKind>(e.spec_kind())
                    && e.spec_input() == text@,
            },
    {
        let chars = chars_of(text);
        match parse_chars(&chars) {
            Ok(f) => {
                proof {
                    lemma_parse_valid(text@);
                }
                Ok(FormatSpecifier::from_fields(f))
            },
            Err(kind) => Err(ParseError::new(String::from_str(text), kind)),
        }
    }

    /// The canonical spelling, every field included: `"d"` renders as `" >-d"`.
    ///
    /// Parsing the text gives this specifier back, but for a width of zero, which
    /// is spelled as one.
    pub fn to_string(&self) -> (s: String)
        ensures
            s@ == spec_render(self@),
            spec_parse(s@) == Ok::<Fields, ParseErrorKind>(normalize_width(self@)),
    {
        proof {
            use_type_invariant(self);
            lemma_parse_render(self@);
        }
        let v = render_fields(self.fields());
        string_of(&v)
    }
}

impl Default for FormatSpecifier {
    /// The specifier `""` parses to.
    fn default() -> (s: FormatSpecifier)
        ensures
            s@ == default_fields(),
    {
        FormatSpecifier::from_fields(FormatSpecifierBuilder::default_value())
    }
}

impl core::str::FromStr for FormatSpecifier {
    type Err = ParseError;

    fn from_str(text: &str) -> (r: Result<FormatSpecifier, ParseError>)
        ensures
            match r {
                Ok(s) => spec_parse(text@) == Ok::<Fields, ParseErrorKind>(s@),
                Err(e) => spec_parse(text@) == Err::<Fields, ParseErrorKind>(e.spec_kind())
                    && e.spec_input() == text@,
            },
    {
        FormatSpecifier::parse(text)
    }
}

/// A value that sets or clears an optional `u32` field: a `u32` sets it and an
/// `Option<u32>` is taken as it is.
pub trait OptionalU32 {
    spec fn spec_option(&self) -> Option<u32>;

    fn to_option(self) -> (r: Option<u32>)
        ensures
            r == self.spec_option(),
    ;
}

impl OptionalU32 for u32 {
    open spec fn spec_option(&self) -> Option<u32> {
        Some(*self)
    }

    fn to_option(self) -> (r: Option<u32>) {
        Some(self)
    }
}

impl OptionalU32 for Option<u32> {
    open spec fn spec_option(&self) -> Option<u32> {
        *self
    }

    fn to_option(self) -> (r: Option<u32>) {
        self
    }
}

/// Builds a [`FormatSpecifier`] from typed fields, validating in
/// [`FormatSpecifierBuilder::build`] exactly as the parser validates the same
/// fields' canonical spelling.
#[derive(Debug, Clone, PartialEq, Eq, Hash)]
pub struct FormatSpecifierBuilder {
    fill: char,
    align: Align,
    sign: Sign,
    symbol: Symbol,
    zero: bool,
    width: Option<u32>,
    comma: bool,
    precision: Option<u32>,
    trim: bool,
    format_type: FormatType,
}

impl View for FormatSpecifierBuilder {
    type V = Fields;

    closed spec fn view(&self) -> Fields {
        Fields {
            fill: self.fill,
            align: self.align,
            sign: self.sign,
            symbol: self.symbol,
            zero: self.zero,
            width: self.width,
            comma: self.comma,
            precision: self.precision,
            trim: self.trim,
            format_type: self.format_type,
        }
    }
}

impl FormatSpecifierBuilder {
    fn default_value() -> (f: Fields)
        ensures
            f == default_fields(),
    {
        Fields {
            fill: ' ',
            align: Align::Right,
            sign: Sign::Minus,
            symbol: Symbol::Absent,
            zero: false,
            width: None,
            comma: false,
            precision: None,
            trim: false,
            format_type: FormatType::Empty,
        }
    }

    fn from_fields(f: Fields) -> (b: FormatSpecifierBuilder)
        ensures
            b@ == f,
    {
        FormatSpecifierBuilder {
            fill: f.fill,
            align: f.align,
            sign: f.sign,
            symbol: f.symbol,
            zero: f.zero,
            width: f.width,
            comma: f.comma,
            precision: f.precision,
            trim: f.trim,
            format_type: f.format_type,
        }
    }

    fn fields(&self) -> (f: Fields)
        ensures
            f == self@,
    {
        Fields {
            fill: self.fill,
            align: self.align,
            sign: self.sign,
            symbol: self.symbol,
            zero: self.zero,
            width: self.width,
            comma: self.comma,
            precision: self.precision,
            trim: self.trim,
            format_type: self.format_type,
        }
    }

    /// A builder holding the defaults.
    pub fn new() -> (b: FormatSpecifierBuilder)
        ensures
            b@ == default_fields(),
    {
        FormatSpecifierBuilder::from_fields(FormatSpecifierBuilder::default_value())
    }

    /// Sets the padding character.
    pub fn fill(self, value: char) -> (b: FormatSpecifierBuilder)
        ensures
            b@ == (Fields { fill: value, ..self@ }),
    {
        FormatSpecifierBuilder { fill: value, ..self }
    }

    /// Sets where the padding goes.
    pub fn align(self, value: Align) -> (b: FormatSpecifierBuilder)
        ensures
            b@ == (Fields { align: value, ..self@ }),
    {
        FormatSpecifierBuilder { align: value, ..self }
    }

    /// Sets how the sign is spelled.
    pub fn sign(self, value: Sign) -> (b: FormatSpecifierBuilder)
        ensures
            b@ == (Fields { sign: value, ..self@ }),
    {
        FormatSpecifierBuilder { sign: value, ..self }
    }

    /// Sets the currency or base-prefix symbol.
    pub fn symbol(self, value: Symbol) -> (b: FormatSpecifierBuilder)
        ensures
            b@ == (Fields { symbol: value, ..self@ }),
    {
        FormatSpecifierBuilder { symbol: value, ..self }
    }

    /// Sets the zero-fill flag.
    pub fn zero(self, value: bool) -> (b: FormatSpecifierBuilder)
        ensures
            b@ == (Fields { zero: value, ..self@ }),
    {
        FormatSpecifierBuilder { zero: value, ..self }
    }

    /// Sets (from a `u32`) or clears (from `None`) the width.
    pub fn width<T: OptionalU32>(self, value: T) -> (b: FormatSpecifierBuilder)
        ensures
            b@ == (Fields { width: value.spec_option(), ..self@ }),
    {
        FormatSpecifierBuilder { width: value.to_option(), ..self }
    }

    /// Sets or clears grouping.
    pub fn comma(self, value: bool) -> (b: FormatSpecifierBuilder)
        ensures
            b@ == (Fields { comma: value, ..self@ }),
    {
        FormatSpecifierBuilder { comma: value, ..self }
    }

    /// Sets (from a `u32`) or clears (from `None`) the precision.
    pub fn precision<T: OptionalU32>(self, value: T) -> (b: FormatSpecifierBuilder)
        ensures
            b@ == (Fields { precision: value.spec_option(), ..self@ }),
    {
        FormatSpecifierBuilder { precision: value.to_option(), ..self }
    }

    /// Sets or clears trimming of insignificant zeros.
    pub fn trim(self, value: bool) -> (b: FormatSpecifierBuilder)
        ensures
            b@ == (Fields { trim: value, ..self@ }),
    {
        FormatSpecifierBuilder { trim: value, ..self }
    }

    /// Sets the conversion.
    pub fn format_type(self, value: FormatType) -> (b: FormatSpecifierBuilder)
        ensures
            b@ == (Fields { format_type: value, ..self@ }),
    {
        FormatSpecifierBuilder { format_type: value, ..self }
    }

    /// Validates the fields and freezes them into a [`FormatSpecifier`].
    ///
    /// An `Unknown` letter that names a conversion becomes that conversion; a
    /// type that is not a letter or `%` is a syntax error, and a refused fill is a
    /// fill error. The error names the canonical spelling of the fields.
    pub fn build(self) -> (r: Result<FormatSpecifier, ParseError>)
        ensures
            match r {
                Ok(s) => spec_build(self@) == Ok::<Fields, ParseErrorKind>(s@),
                Err(e) => spec_build(self@) == Err::<Fields, ParseErrorKind>(e.spec_kind())
                    && e.spec_input() == spec_render(self@),
            },
    {
        let f = self.fields();
        let format_type = match f.format_type.as_char() {
            None => FormatType::Empty,
            Some(letter) => match FormatType::from_char(letter) {
                Some(t) => t,
                None => {
                    let text = string_of(&render_fields(f));
                    return Err(ParseError::new(text, ParseErrorKind::Syntax));
                },
            },
        };
        if !check_fill(f.fill) {
            let text = string_of(&render_fields(f));
            return Err(ParseError::new(text, ParseErrorKind::Fill));
        }
        Ok(FormatSpecifier::from_fields(Fields { format_type, ..f }))
    }
}

impl Default for FormatSpecifierBuilder {
    fn default() -> (b: FormatSpecifierBuilder)
        ensures
            b@ == default_fields(),
    {
        FormatSpecifierBuilder::new()
    }
}

// ---------------------------------------------------------------------------
// Executable steps
// ---------------------------------------------------------------------------

/// Whether `value` may be used as fill.
fn check_fill(value: char) -> (b: bool)
    ensures
        b == fill_ok(value),
{
    let u = value as u32;
    u <= 0xFFFF && value != '\u{2028}' && value != '\u{2029}' && !(u < 0x20 || (0x7f <= u && u
        <= 0x9f))
}

fn is_digit(c: char) -> (b: bool)
    ensures
        b == is_ascii_digit(c),
{
    '0' <= c && c <= '9'
}

fn digit_of(c: char) -> (d: u32)
    requires
        is_ascii_digit(c),
    ensures
        d == digit_value(c),
        d < 10,
{
    if c == '1' {
        1
    } else if c == '2' {
        2
    } else if c == '3' {
        3
    } else if c == '4' {
        4
    } else if c == '5' {
        5
    } else if c == '6' {
        6
    } else if c == '7' {
        7
    } else if c == '8' {
        8
    } else if c == '9' {
        9
    } else {
        0
    }
}

proof fn lemma_skip_skip(s: Seq<char>, i: int, j: int)
    requires
        0 <= i,
        0 <= j,
        i + j <= s.len(),
    ensures
        s.skip(i).skip(j) =~= s.skip(i + j),
{
}

proof fn lemma_digit_run_bound(s: Seq<char>)
    ensures
        digit_run(s) <= s.len(),
        all_digits(s.take(digit_run(s) as int)),
        digit_run(s) < s.len() ==> !is_ascii_digit(s[digit_run(s) as int]),
    decreases s.len(),
{
    if s.len() >= 1 && is_ascii_digit(s[0]) {
        lemma_digit_run_bound(s.skip(1));
        let n = digit_run(s.skip(1));
        assert forall|i: int| 0 <= i < digit_run(s) implies is_ascii_digit(
            #[trigger] s.take(digit_run(s) as int)[i],
        ) by {
            if i > 0 {
                assert(s.take(digit_run(s) as int)[i] == s.skip(1).take(n as int)[i - 1]);
            }
        }
        if digit_run(s) < s.len() {
            assert(s[digit_run(s) as int] == s.skip(1)[n as int]);
        }
    }
}

/// The end of the digit run starting at `i`.
fn digit_run_end(cs: &Vec<char>, i: usize) -> (j: usize)
    requires
        i <= cs.len(),
    ensures
        i <= j <= cs.len(),
        j - i == digit_run(cs@.skip(i as int)),
    decreases cs.len() - i,
{
    if i < cs.len() && is_digit(cs[i]) {
        proof {
            lemma_skip_skip(cs@, i as int, 1);
        }
        digit_run_end(cs, i + 1)
    } else {
        i
    }
}

proof fn lemma_digits_value_prefix_monotone(s: Seq<char>, j: int, k: int)
    requires
        0 <= j <= k <= s.len(),
    ensures
        digits_value(s.take(j)) <= digits_value(s.take(k)),
    decreases k - j,
{
    if j < k {
        lemma_digits_value_prefix_monotone(s, j, k - 1);
        assert(s.take(k).drop_last() =~= s.take(k - 1));
    }
}

/// The value of the digits `cs[i..j]`, or `None` above `u32::MAX`.
fn value_of_digits(cs: &Vec<char>, i: usize, j: usize) -> (r: Option<u32>)
    requires
        i <= j <= cs.len(),
        all_digits(cs@.subrange(i as int, j as int)),
    ensures
        match r {
            Some(v) => v == digits_value(cs@.subrange(i as int, j as int)),
            None => digits_value(cs@.subrange(i as int, j as int)) > u32::MAX,
        },
{
    let ghost run = cs@.subrange(i as int, j as int);
    let mut value: u32 = 0;
    let mut k = i;
    while k < j
        invariant
            i <= k <= j <= cs.len(),
            run == cs@.subrange(i as int, j as int),
            all_digits(run),
            value == digits_value(run.take(k - i)),
        decreases j - k,
    {
        assert(run[k - i] == cs@[k as int]);
        let d = digit_of(cs[k]);
        assert(run.take(k - i + 1).drop_last() =~= run.take(k - i));
        if value > 429496729 || (value == 429496729 && d > 5) {
            proof {
                lemma_digits_value_prefix_monotone(run, k - i + 1, run.len() as int);
                assert(run.take(run.len() as int) =~= run);
            }
            return None;
        }
        value = value * 10 + d;
        k = k + 1;
    }
    assert(run.take(j - i) =~= run);
    Some(value)
}

/// `(\d+)?` at `i`; on an overflow, the refusal and where the digits end.
fn parse_width_at(cs: &Vec<char>, i: usize) -> (r: Result<
    (Option<u32>, usize),
    (ParseErrorKind, usize),
>)
    requires
        i <= cs.len(),
    ensures
        match r {
            Ok((w, j)) => i <= j <= cs.len() && parse_width(cs@.skip(i as int)) == Ok::<
                (Option<u32>, Seq<char>),
                ParseErrorKind,
            >((w, cs@.skip(j as int))),
            Err((k, j)) => parse_width(cs@.skip(i as int)) == Err::<
                (Option<u32>, Seq<char>),
                ParseErrorKind,
            >(k) && i <= j <= cs.len() && cs@.skip(j as int) == cs@.skip(i as int).skip(
                digit_run(cs@.skip(i as int)) as int,
            ),
        },
{
    let j = digit_run_end(cs, i);
    let ghost s = cs@.skip(i as int);
    proof {
        lemma_digit_run_bound(s);
        assert(s.take((j - i) as int) =~= cs@.subrange(i as int, j as int));
    }
    if j == i {
        Ok((None, i))
    } else {
        match value_of_digits(cs, i, j) {
            Some(v) => {
                proof {
                    lemma_skip_skip(cs@, i as int, (j - i) as int);
                }
                Ok((Some(v), j))
            },
            None => {
                proof {
                    lemma_skip_skip(cs@, i as int, (j - i) as int);
                }
                Err((ParseErrorKind::WidthOverflow, j))
            },
        }
    }
}

/// `(\.\d+)?` at `i`.
fn parse_precision_at(cs: &Vec<char>, i: usize) -> (r: (Option<u32>, usize))
    requires
        i <= cs.len(),
    ensures
        i <= r.1 <= cs.len(),
        parse_precision(cs@.skip(i as int)) == (r.0, cs@.skip(r.1 as int)),
{
    let ghost s = cs@.skip(i as int);
    if i < cs.len() && i + 1 < cs.len() && cs[i] == '.' && is_digit(cs[i + 1]) {
        let j = digit_run_end(cs, i + 1);
        proof {
            lemma_skip_skip(cs@, i as int, 1);
            lemma_digit_run_bound(s.skip(1));
            assert(s.skip(1).take((j - i - 1) as int) =~= cs@.subrange(i + 1, j as int));
            lemma_skip_skip(cs@, i as int, (j - i) as int);
        }
        match value_of_digits(cs, i + 1, j) {
            Some(v) => (Some(v), j),
            None => (Some(u32::MAX), j),
        }
    } else {
        (None, i)
    }
}

/// `(?:(.)?([<>=^]))?` at the start of `cs`.
fn take_fill_align(cs: &Vec<char>) -> (r: Result<(char, Align, usize), ParseErrorKind>)
    ensures
        match r {
            Ok((fill, align, j)) => j <= cs.len() && parse_fill_align(cs@) == Ok::<
                (char, Align, Seq<char>),
                ParseErrorKind,
            >((fill, align, cs@.skip(j as int))),
            Err(k) => parse_fill_align(cs@) == Err::<(char, Align, Seq<char>), ParseErrorKind>(k),
        },
{
    let n = cs.len();
    assert(cs@.skip(0) =~= cs@);
    if n >= 2 && Align::from_char(cs[1]).is_some() {
        if !check_fill(cs[0]) {
            return Err(ParseErrorKind::Fill);
        }
        Ok((cs[0], Align::from_char(cs[1]).unwrap(), 2))
    } else if n >= 1 && Align::from_char(cs[0]).is_some() {
        Ok((' ', Align::from_char(cs[0]).unwrap(), 1))
    } else {
        Ok((' ', Align::Right, 0))
    }
}

/// `([+\-( ])?` at `i`.
fn take_sign(cs: &Vec<char>, i: usize) -> (r: (Sign, usize))
    requires
        i <= cs.len(),
    ensures
        i <= r.1 <= cs.len(),
        parse_sign(cs@.skip(i as int)) == (r.0, cs@.skip(r.1 as int)),
{
    if i < cs.len() && Sign::from_char(cs[i]).is_some() {
        proof {
            lemma_skip_skip(cs@, i as int, 1);
        }
        (Sign::from_char(cs[i]).unwrap(), i + 1)
    } else {
        (Sign::Minus, i)
    }
}

/// `([$#])?` at `i`.
fn take_symbol(cs: &Vec<char>, i: usize) -> (r: (Symbol, usize))
    requires
        i <= cs.len(),
    ensures
        i <= r.1 <= cs.len(),
        parse_symbol(cs@.skip(i as int)) == (r.0, cs@.skip(r.1 as int)),
{
    if i < cs.len() && Symbol::from_char(cs[i]).is_some() {
        proof {
            lemma_skip_skip(cs@, i as int, 1);
        }
        (Symbol::from_char(cs[i]).unwrap(), i + 1)
    } else {
        (Symbol::Absent, i)
    }
}

/// A one-character flag `c` at `i`.
fn take_flag(cs: &Vec<char>, i: usize, c: char) -> (r: (bool, usize))
    requires
        i <= cs.len(),
    ensures
        i <= r.1 <= cs.len(),
        parse_flag(cs@.skip(i as int), c) == (r.0, cs@.skip(r.1 as int)),
{
    if i < cs.len() && cs[i] == c {
        proof {
            lemma_skip_skip(cs@, i as int, 1);
        }
        (true, i + 1)
    } else {
        (false, i)
    }
}

/// `([a-z%])?` at `i`.
fn take_type(cs: &Vec<char>, i: usize) -> (r: (FormatType, usize))
    requires
        i <= cs.len(),
    ensures
        i <= r.1 <= cs.len(),
        parse_type(cs@.skip(i as int)) == (r.0, cs@.skip(r.1 as int)),
{
    if i < cs.len() && FormatType::from_char(cs[i]).is_some() {
        proof {
            lemma_skip_skip(cs@, i as int, 1);
        }
        (FormatType::from_char(cs[i]).unwrap(), i + 1)
    } else {
        (FormatType::Empty, i)
    }
}

/// The parser, over the characters of the input.
fn parse_chars(cs: &Vec<char>) -> (r: Result<Fields, ParseErrorKind>)
    ensures
        r == spec_parse(cs@),
{
    let (fill, align, i) = match take_fill_align(cs) {
        Ok(found) => found,
        Err(kind) => return Err(kind),
    };
    let (sign, i) = take_sign(cs, i);
    let (symbol, i) = take_symbol(cs, i);
    let (zero, i) = take_flag(cs, i, '0');
    let (width, i) = match parse_width_at(cs, i) {
        Ok(found) => found,
        Err((kind, j)) => {
            let (_, j) = take_flag(cs, j, ',');
            let (_, j) = parse_precision_at(cs, j);
            let (_, j) = take_flag(cs, j, '~');
            let (_, j) = take_type(cs, j);
            if j < cs.len() {
                return Err(ParseErrorKind::Syntax);
            }
            return Err(kind);
        },
    };
    let (comma, i) = take_flag(cs, i, ',');
    let (precision, i) = parse_precision_at(cs, i);
    let (trim, i) = take_flag(cs, i, '~');
    let (format_type, i) = take_type(cs, i);
    if i < cs.len() {
        return Err(ParseErrorKind::Syntax);
    }
    Ok(
        Fields {
            fill,
            align,
            sign,
            symbol,
            zero,
            width,
            comma,
            precision,
            trim,
            format_type,
        },
    )
}

/// Whatever parses is valid.
proof fn lemma_parse_valid(s: Seq<char>)
    ensures
        spec_parse(s) matches Ok(f) ==> fields_valid(f),
{
    if let Ok(f) = spec_parse(s) {
        if let Ok((fill, align, s1)) = parse_fill_align(s) {
            if s.len() >= 2 && Align::spec_from_char(s[1]) is Some {
            } else {
                assert(fill_ok(' '));
            }
        }
    }
}

fn push_opt_char(v: &mut Vec<char>, c: Option<char>)
    ensures
        final(v)@ == old(v)@ + opt_char(c),
{
    if let Some(c) = c {
        v.push(c);
    }
    proof {
        assert(final(v)@ =~= old(v)@ + opt_char(c));
    }
}

fn push_flag(v: &mut Vec<char>, b: bool, c: char)
    ensures
        final(v)@ == old(v)@ + flag_text(b, c),
{
    if b {
        v.push(c);
    }
    proof {
        assert(final(v)@ =~= old(v)@ + flag_text(b, c));
    }
}

fn push_width(v: &mut Vec<char>, w: Option<u32>)
    ensures
        final(v)@ == old(v)@ + width_text(w),
{
    if let Some(w) = w {
        let shown: u32 = if w == 0 {
            1
        } else {
            w
        };
        push_decimal(v, shown as u64);
    }
    proof {
        assert(final(v)@ =~= old(v)@ + width_text(w));
    }
}

fn push_precision(v: &mut Vec<char>, p: Option<u32>)
    ensures
        final(v)@ == old(v)@ + precision_text(p),
{
    if let Some(p) = p {
        v.push('.');
        push_decimal(v, p as u64);
    }
    proof {
        assert(final(v)@ =~= old(v)@ + precision_text(p));
    }
}

/// Eight pieces joined from the right are the same pieces joined from the left.
proof fn lemma_join8(
    h: Seq<char>,
    p1: Seq<char>,
    p2: Seq<char>,
    p3: Seq<char>,
    p4: Seq<char>,
    p5: Seq<char>,
    p6: Seq<char>,
    p7: Seq<char>,
)
    ensures
        h + (p1 + (p2 + (p3 + (p4 + (p5 + (p6 + p7)))))) == h + p1 + p2 + p3 + p4 + p5 + p6
            + p7,
{
    let x6 = p6 + p7;
    let x5 = p5 + x6;
    let x4 = p4 + x5;
    let x3 = p3 + x4;
    let x2 = p2 + x3;
    lemma_concat_associative(h, p1, x2);
    lemma_concat_associative(h + p1, p2, x3);
    lemma_concat_associative(h + p1 + p2, p3, x4);
    lemma_concat_associative(h + p1 + p2 + p3, p4, x5);
    lemma_concat_associative(h + p1 + p2 + p3 + p4, p5, x6);
    lemma_concat_associative(h + p1 + p2 + p3 + p4 + p5, p6, p7);
}

/// The canonical spelling, written front to back.
proof fn lemma_render_flat(f: Fields)
    ensures
        spec_render(f) == seq![f.fill, f.align.spec_char(), f.sign.spec_char()] + opt_char(
            f.symbol.spec_char(),
        ) + flag_text(f.zero, '0') + width_text(f.width) + flag_text(f.comma, ',')
            + precision_text(f.precision) + flag_text(f.trim, '~') + tail_type(f),
{
    lemma_join8(
        seq![f.fill, f.align.spec_char(), f.sign.spec_char()],
        opt_char(f.symbol.spec_char()),
        flag_text(f.zero, '0'),
        width_text(f.width),
        flag_text(f.comma, ','),
        precision_text(f.precision),
        flag_text(f.trim, '~'),
        tail_type(f),
    );
}

/// The canonical spelling of `f`.
fn render_fields(f: Fields) -> (v: Vec<char>)
    ensures
        v@ == spec_render(f),
{
    let mut v: Vec<char> = Vec::new();
    v.push(f.fill);
    v.push(f.align.as_char());
    v.push(f.sign.as_char());
    assert(v@ =~= seq![f.fill, f.align.spec_char(), f.sign.spec_char()]);
    push_opt_char(&mut v, f.symbol.as_char());
    push_flag(&mut v, f.zero, '0');
    push_width(&mut v, f.width);
    push_flag(&mut v, f.comma, ',');
    push_precision(&mut v, f.precision);
    push_flag(&mut v, f.trim, '~');
    push_opt_char(&mut v, f.format_type.as_char());
    proof {
        lemma_render_flat(f);
    }
    v
}

// ---------------------------------------------------------------------------
// Laws
// ---------------------------------------------------------------------------

spec fn head_is(s: Seq<char>, c: char) -> bool {
    s.len() > 0 && s[0] == c
}

spec fn head_digit(s: Seq<char>) -> bool {
    s.len() > 0 && is_ascii_digit(s[0])
}

/// A run of digits followed by something that does not start with a digit.
proof fn lemma_digit_run_concat(d: Seq<char>, t: Seq<char>)
    requires
        all_digits(d),
        !head_digit(t),
    ensures
        digit_run(d + t) == d.len(),
    decreases d.len(),
{
    if d.len() > 0 {
        assert((d + t).skip(1) =~= d.skip(1) + t);
        lemma_digit_run_concat(d.skip(1), t);
    } else {
        assert(d + t =~= t);
    }
}

/// What each part of the canonical spelling can start with.
proof fn lemma_tail_heads(f: Fields)
    requires
        fields_valid(f),
    ensures
        !head_is(tail_type(f), '~'),
        !head_digit(tail_trim(f)),
        !head_is(tail_trim(f), '.'),
        !head_is(tail_precision(f), ','),
        !head_digit(tail_comma(f)),
        !head_is(tail_width(f), '0'),
        !head_is(tail_zero(f), '$'),
        !head_is(tail_zero(f), '#'),
{
    if let Some(w) = f.width {
        lemma_dec_facts(if w == 0 { 1nat } else { w as nat });
    }
    if let Some(p) = f.precision {
        lemma_dec_facts(p as nat);
    }
}

proof fn lemma_type_char_round_trip(t: FormatType)
    requires
        t.canonical(),
    ensures
        t.spec_char() matches Some(c) ==> FormatType::spec_from_char(c) == Some(t),
{
}

proof fn lemma_parse_flag_text(b: bool, c: char, t: Seq<char>)
    requires
        !head_is(t, c),
    ensures
        parse_flag(flag_text(b, c) + t, c) == (b, t),
{
    if b {
        assert((flag_text(b, c) + t).skip(1) =~= t);
    } else {
        assert(flag_text(b, c) + t =~= t);
    }
}

proof fn lemma_parse_symbol_text(sym: Symbol, t: Seq<char>)
    requires
        !head_is(t, '$'),
        !head_is(t, '#'),
    ensures
        parse_symbol(opt_char(sym.spec_char()) + t) == (sym, t),
{
    if sym.spec_char() is Some {
        assert((opt_char(sym.spec_char()) + t).skip(1) =~= t);
    } else {
        assert(opt_char(sym.spec_char()) + t =~= t);
    }
}

proof fn lemma_parse_type_text(ft: FormatType)
    requires
        ft.canonical(),
    ensures
        parse_type(opt_char(ft.spec_char())) == (ft, Seq::<char>::empty()),
{
    lemma_type_char_round_trip(ft);
    if ft.spec_char() is Some {
        assert(opt_char(ft.spec_char()).skip(1) =~= Seq::<char>::empty());
    }
}

proof fn lemma_parse_tail_flags(f: Fields)
    requires
        fields_valid(f),
    ensures
        parse_symbol(tail_symbol(f)) == (f.symbol, tail_zero(f)),
        parse_flag(tail_zero(f), '0') == (f.zero, tail_width(f)),
        parse_flag(tail_comma(f), ',') == (f.comma, tail_precision(f)),
        parse_flag(tail_trim(f), '~') == (f.trim, tail_type(f)),
        parse_type(tail_type(f)) == (f.format_type, Seq::<char>::empty()),
{
    lemma_tail_heads(f);
    lemma_parse_symbol_text(f.symbol, tail_zero(f));
    lemma_parse_flag_text(f.zero, '0', tail_width(f));
    lemma_parse_flag_text(f.comma, ',', tail_precision(f));
    lemma_parse_flag_text(f.trim, '~', tail_type(f));
    lemma_parse_type_text(f.format_type);
}

proof fn lemma_parse_tail_width(f: Fields)
    requires
        fields_valid(f),
    ensures
        parse_width(tail_width(f)) == Ok::<(Option<u32>, Seq<char>), ParseErrorKind>(
            (normalize_width(f).width, tail_comma(f)),
        ),
{
    lemma_tail_heads(f);
    match f.width {
        Some(w) => {
            let v: nat = if w == 0 { 1nat } else { w as nat };
            let d = dec(v);
            lemma_dec_facts(v);
            lemma_digit_run_concat(d, tail_comma(f));
            assert(tail_width(f).take(d.len() as int) =~= d);
            assert(tail_width(f).skip(d.len() as int) =~= tail_comma(f));
        },
        None => {
            assert(tail_width(f) =~= tail_comma(f));
        },
    }
}

proof fn lemma_parse_precision_text(p: Option<u32>, t: Seq<char>)
    requires
        !head_digit(t),
        !head_is(t, '.'),
    ensures
        parse_precision(precision_text(p) + t) == (p, t),
{
    let s = precision_text(p) + t;
    match p {
        Some(p) => {
            let d = dec(p as nat);
            lemma_dec_facts(p as nat);
            assert(s.skip(1) =~= d + t);
            lemma_digit_run_concat(d, t);
            assert(s.skip(1).take(d.len() as int) =~= d);
            assert(s.skip(1 + d.len() as int) =~= t);
        },
        None => {
            assert(s =~= t);
        },
    }
}

proof fn lemma_parse_tail_precision(f: Fields)
    requires
        fields_valid(f),
    ensures
        parse_precision(tail_precision(f)) == (f.precision, tail_trim(f)),
{
    lemma_tail_heads(f);
    lemma_parse_precision_text(f.precision, tail_trim(f));
}

/// Rendering a valid specifier and parsing the text back gives the same fields,
/// except that a width of zero comes back as one.
#[verifier::spinoff_prover]
#[verifier::rlimit(40)]
pub proof fn lemma_parse_render(f: Fields)
    requires
        fields_valid(f),
    ensures
        spec_parse(spec_render(f)) == Ok::<Fields, ParseErrorKind>(normalize_width(f)),
{
    let s = spec_render(f);
    lemma_parse_tail_flags(f);
    lemma_parse_tail_width(f);
    lemma_parse_tail_precision(f);
    assert(s.skip(2) =~= seq![f.sign.spec_char()] + tail_symbol(f));
    assert(s.skip(2).skip(1) =~= tail_symbol(f));
}

/// Rendering loses nothing but a width of zero, which it spells as one.
proof fn lemma_render_normalize(f: Fields)
    ensures
        spec_render(normalize_width(f)) == spec_render(f),
{
}

/// The canonical spelling is idempotent: parsing it and rendering the result gives
/// the same text.
pub proof fn lemma_render_idempotent(f: Fields)
    requires
        fields_valid(f),
    ensures
        spec_parse(spec_render(f)) matches Ok(g) && spec_render(g) == spec_render(f),
{
    lemma_parse_render(f);
    lemma_render_normalize(f);
}

/// A valid specifier's own fields build back into the same specifier.
pub proof fn lemma_build_own_fields(f: Fields)
    requires
        fields_valid(f),
    ensures
        spec_build(f) == Ok::<Fields, ParseErrorKind>(f),
{
    lemma_type_char_round_trip(f.format_type);
}

/// The builder and the parser accept the same specifiers: building a set of
/// fields whose type the grammar can spell gives what parsing their canonical
/// spelling gives, the same error on failure and, on success, the same fields up
/// to a width of zero, which the spelling turns into one.
#[verifier::spinoff_prover]
pub proof fn lemma_build_agrees_with_parse(f: Fields)
    requires
        type_ok(f.format_type),
    ensures
        match spec_build(f) {
            Ok(g) => spec_parse(spec_render(f)) == Ok::<Fields, ParseErrorKind>(
                normalize_width(g),
            ),
            Err(k) => spec_parse(spec_render(f)) == Err::<Fields, ParseErrorKind>(k),
        },
{
    let g = Fields { format_type: canonical_type(f.format_type), ..f };
    if let Some(c) = f.format_type.spec_char() {
        assert(FormatType::spec_from_char(c) matches Some(t) && t.spec_char() == Some(c)
            && t.canonical());
    }
    assert(tail_type(g) == tail_type(f));
    assert(spec_render(g) == spec_render(f));
    if fill_ok(f.fill) {
        lemma_parse_render(g);
    }
}


// ---------------------------------------------------------------------------
// d3's expression
// ---------------------------------------------------------------------------

/// `.` of a JavaScript expression without the `s` flag, which matches one UTF-16
/// code unit: a character of the Basic Multilingual Plane that is not a line
/// terminator.
pub open spec fn js_dot(c: char) -> bool {
    (c as u32) <= 0xFFFF && c != '\n' && c != '\r' && c != '\u{2028}' && c != '\u{2029}'
}

/// `[a-z%]` under the `i` flag.
pub open spec fn type_char(c: char) -> bool {
    is_ascii_letter(c) || c == '%'
}

/// `([a-z%])?$`.
pub open spec fn re_type(s: Seq<char>) -> bool {
    s.len() == 0 || (s.len() == 1 && type_char(s[0]))
}

/// `(~)?([a-z%])?$`.
pub open spec fn re_trim(s: Seq<char>) -> bool {
    re_type(s) || (s.len() >= 1 && s[0] == '~' && re_type(s.skip(1)))
}

/// `(\.\d+)?(~)?([a-z%])?$`.
pub open spec fn re_precision(s: Seq<char>) -> bool {
    re_trim(s) || (s.len() >= 2 && s[0] == '.' && exists|e: int|
        #![trigger s.skip(e)]
        2 <= e <= s.len() && all_digits(s.subrange(1, e)) && re_trim(s.skip(e)))
}

/// `(,)?(\.\d+)?(~)?([a-z%])?$`.
pub open spec fn re_comma(s: Seq<char>) -> bool {
    re_precision(s) || (s.len() >= 1 && s[0] == ',' && re_precision(s.skip(1)))
}

/// `(\d+)?(,)?(\.\d+)?(~)?([a-z%])?$`.
pub open spec fn re_width(s: Seq<char>) -> bool {
    exists|n: int| #![trigger s.skip(n)] 0 <= n <= s.len() && all_digits(s.take(n)) && re_comma(s.skip(n))
}

/// `(0)?(\d+)?(,)?(\.\d+)?(~)?([a-z%])?$`.
pub open spec fn re_zero(s: Seq<char>) -> bool {
    re_width(s) || (s.len() >= 1 && s[0] == '0' && re_width(s.skip(1)))
}

/// `([$#])?(0)?(\d+)?(,)?(\.\d+)?(~)?([a-z%])?$`.
pub open spec fn re_symbol(s: Seq<char>) -> bool {
    re_zero(s) || (s.len() >= 1 && Symbol::spec_from_char(s[0]) is Some && re_zero(s.skip(1)))
}

/// `([+\-( ])?([$#])?(0)?(\d+)?(,)?(\.\d+)?(~)?([a-z%])?$`.
pub open spec fn re_sign(s: Seq<char>) -> bool {
    re_symbol(s) || (s.len() >= 1 && Sign::spec_from_char(s[0]) is Some && re_symbol(s.skip(1)))
}

/// d3's specifier expression,
/// `/^(?:(.)?([<>=^]))?([+\-( ])?([$#])?(0)?(\d+)?(,)?(\.\d+)?(~)?([a-z%])?$/i`,
/// as a language of strings.
pub open spec fn d3_expression(s: Seq<char>) -> bool {
    ||| re_sign(s)
    ||| (s.len() >= 1 && Align::spec_from_char(s[0]) is Some && re_sign(s.skip(1)))
    ||| (s.len() >= 2 && js_dot(s[0]) && Align::spec_from_char(s[1]) is Some && re_sign(
        s.skip(2),
    ))
}

/// The first group of the expression a character can belong to: sign, symbol,
/// digits, comma, precision, trim, type; 0 for none (the alignments among them).
spec fn stage_of(c: char) -> int {
    if Sign::spec_from_char(c) is Some {
        1
    } else if Symbol::spec_from_char(c) is Some {
        2
    } else if is_ascii_digit(c) {
        3
    } else if c == ',' {
        4
    } else if c == '.' {
        5
    } else if c == '~' {
        6
    } else if type_char(c) {
        7
    } else {
        0
    }
}

/// A string matched from a group on starts with a character of that group or a
/// later one.
proof fn lemma_first_stage(s: Seq<char>)
    requires
        s.len() > 0,
    ensures
        re_type(s) ==> stage_of(s[0]) >= 7,
        re_trim(s) ==> stage_of(s[0]) >= 6,
        re_precision(s) ==> stage_of(s[0]) >= 5,
        re_comma(s) ==> stage_of(s[0]) >= 4,
        re_width(s) ==> stage_of(s[0]) >= 3,
        re_zero(s) ==> stage_of(s[0]) >= 3,
        re_symbol(s) ==> stage_of(s[0]) >= 2,
        re_sign(s) ==> stage_of(s[0]) >= 1,
{
    if re_width(s) {
        let n = choose|n: int| #![trigger s.skip(n)] 0 <= n <= s.len() && all_digits(s.take(n)) && re_comma(s.skip(n));
        if n == 0 {
            assert(s.skip(0) =~= s);
        } else {
            assert(s.take(n)[0] == s[0]);
        }
    }
}

/// Every character of `s` belongs to some group after the alignment.
spec fn all_staged(s: Seq<char>) -> bool {
    forall|i: int| 0 <= i < s.len() ==> stage_of(#[trigger] s[i]) >= 1
}

/// `all_staged` of `s` from the characters before `k` and the rest.
proof fn lemma_all_staged_split(s: Seq<char>, k: int)
    requires
        0 <= k <= s.len(),
        forall|i: int| 0 <= i < k ==> stage_of(#[trigger] s[i]) >= 1,
        all_staged(s.skip(k)),
    ensures
        all_staged(s),
{
    assert forall|i: int| 0 <= i < s.len() implies stage_of(#[trigger] s[i]) >= 1 by {
        if i >= k {
            assert(s.skip(k)[i - k] == s[i]);
        }
    }
}

/// Every character of a string matched from the sign group on belongs to some
/// group after the alignment.
proof fn lemma_all_staged(s: Seq<char>)
    ensures
        re_type(s) ==> all_staged(s),
        re_trim(s) ==> all_staged(s),
        re_precision(s) ==> all_staged(s),
        re_comma(s) ==> all_staged(s),
        re_width(s) ==> all_staged(s),
        re_zero(s) ==> all_staged(s),
        re_symbol(s) ==> all_staged(s),
        re_sign(s) ==> all_staged(s),
    decreases s.len(),
{
    if s.len() == 0 {
        return;
    }
    let t = s.skip(1);
    lemma_all_staged(t);
    if stage_of(s[0]) >= 1 && all_staged(t) {
        lemma_all_staged_split(s, 1);
    }
    assert(re_type(s) ==> all_staged(s));
    assert(re_trim(s) ==> all_staged(s));
    if re_precision(s) && !re_trim(s) {
        let e = choose|e: int|
            #![trigger s.skip(e)]
            2 <= e <= s.len() && all_digits(s.subrange(1, e)) && re_trim(s.skip(e));
        lemma_all_staged(s.skip(e));
        assert forall|i: int| 0 <= i < e implies stage_of(#[trigger] s[i]) >= 1 by {
            if i > 0 {
                assert(s.subrange(1, e)[i - 1] == s[i]);
            }
        }
        lemma_all_staged_split(s, e);
    }
    assert(re_precision(s) ==> all_staged(s));
    assert(re_comma(s) ==> all_staged(s));
    if re_width(s) {
        let n = choose|n: int|
            #![trigger s.skip(n)]
            0 <= n <= s.len() && all_digits(s.take(n)) && re_comma(s.skip(n));
        if n == 0 {
            assert(s.skip(0) =~= s);
        } else {
            lemma_all_staged(s.skip(n));
            assert forall|i: int| 0 <= i < n implies stage_of(#[trigger] s[i]) >= 1 by {
                assert(s.take(n)[i] == s[i]);
            }
            lemma_all_staged_split(s, n);
        }
    }
    assert(re_width(s) ==> all_staged(s));
    assert(re_zero(s) ==> all_staged(s));
    assert(re_symbol(s) ==> all_staged(s));
}


proof fn lemma_fill_align_stage(s: Seq<char>)
    requires
        d3_expression(s),
    ensures
        parse_fill_align(s) matches Ok((f, a, s1)) ==> re_sign(s1),
{
    lemma_all_staged(s);
    if s.len() >= 1 {
        lemma_all_staged(s.skip(1));
        if s.len() >= 2 {
            assert(s.skip(1)[0] == s[1]);
            assert(s[1] == s[1]);
        }
        lemma_first_stage(s);
    }
    if s.len() >= 2 {
        lemma_first_stage(s.skip(1));
    }
}

proof fn lemma_sign_stage(s: Seq<char>)
    requires
        re_sign(s),
    ensures
        re_symbol(parse_sign(s).1),
{
    if s.len() > 0 {
        lemma_first_stage(s);
    }
}

proof fn lemma_symbol_stage(s: Seq<char>)
    requires
        re_symbol(s),
    ensures
        re_zero(parse_symbol(s).1),
{
    if s.len() > 0 {
        lemma_first_stage(s);
    }
}

proof fn lemma_zero_stage(s: Seq<char>)
    requires
        re_zero(s),
    ensures
        re_width(parse_flag(s, '0').1),
{
    if s.len() > 0 && s[0] == '0' && !re_width(s.skip(1)) {
        let n = choose|n: int|
            #![trigger s.skip(n)]
            0 <= n <= s.len() && all_digits(s.take(n)) && re_comma(s.skip(n));
        if n == 0 {
            assert(s.skip(0) =~= s);
            lemma_first_stage(s);
        } else {
            let t = s.skip(1);
            assert forall|i: int| 0 <= i < n - 1 implies is_ascii_digit(#[trigger] t.take(n - 1)[i]) by {
                assert(t.take(n - 1)[i] == s.take(n)[i + 1]);
            }
            assert(t.skip(n - 1) =~= s.skip(n));
            assert(re_width(t));
        }
    }
}

proof fn lemma_width_stage(s: Seq<char>)
    requires
        re_width(s),
    ensures
        parse_width(s) matches Ok((w, rest)) ==> re_comma(rest),
        re_comma(s.skip(digit_run(s) as int)),
{
    let n = choose|n: int|
        #![trigger s.skip(n)]
        0 <= n <= s.len() && all_digits(s.take(n)) && re_comma(s.skip(n));
    let m = digit_run(s) as int;
    lemma_digit_run_bound(s);
    if n < m {
        assert(s.take(m)[n] == s[n]);
        assert(s.skip(n)[0] == s[n]);
        lemma_first_stage(s.skip(n));
    }
    if n > m {
        assert(s.take(n)[m] == s[m]);
    }
    assert(n == m);
    assert(s.skip(0) =~= s);
}

proof fn lemma_comma_stage(s: Seq<char>)
    requires
        re_comma(s),
    ensures
        re_precision(parse_flag(s, ',').1),
{
    if s.len() > 0 {
        lemma_first_stage(s);
    }
}

proof fn lemma_precision_stage(s: Seq<char>)
    requires
        re_precision(s),
    ensures
        re_trim(parse_precision(s).1),
{
    if s.len() >= 2 && s[0] == '.' && is_ascii_digit(s[1]) {
        let x = s.skip(1);
        let n = digit_run(x) as int;
        lemma_digit_run_bound(x);
        lemma_first_stage(s);
        if !re_trim(s) {
            let e = choose|e: int|
                #![trigger s.skip(e)]
                2 <= e <= s.len() && all_digits(s.subrange(1, e)) && re_trim(s.skip(e));
            let k = e - 1;
            if k < n {
                assert(x.take(n)[k] == x[k]);
                assert(x[k] == s[e]);
                assert(s.skip(e)[0] == s[e]);
                lemma_first_stage(s.skip(e));
            }
            if k > n {
                assert(s.subrange(1, e)[n] == s[n + 1]);
                assert(x[n] == s[n + 1]);
            }
            assert(k == n);
            assert(s.skip(1 + n) =~= s.skip(e));
        }
    } else if !re_trim(s) {
        let e = choose|e: int|
            #![trigger s.skip(e)]
            2 <= e <= s.len() && all_digits(s.subrange(1, e)) && re_trim(s.skip(e));
        assert(s.subrange(1, e)[0] == s[1]);
    }
}

proof fn lemma_trim_stage(s: Seq<char>)
    requires
        re_trim(s),
    ensures
        re_type(parse_flag(s, '~').1),
{
    if s.len() > 0 {
        lemma_first_stage(s);
    }
}

proof fn lemma_type_stage(s: Seq<char>)
    requires
        re_type(s),
    ensures
        parse_type(s).1.len() == 0,
{
}

/// Whatever the expression matches, the parser accepts, unless it refuses the
/// fill or the width overflows.
proof fn lemma_expression_is_accepted(s: Seq<char>)
    requires
        d3_expression(s),
    ensures
        spec_parse(s) is Ok || spec_parse(s) == Err::<Fields, ParseErrorKind>(ParseErrorKind::Fill)
            || spec_parse(s) == Err::<Fields, ParseErrorKind>(ParseErrorKind::WidthOverflow),
{
    lemma_fill_align_stage(s);
    if let Ok((fill, align, s1)) = parse_fill_align(s) {
        lemma_sign_stage(s1);
        let s2 = parse_sign(s1).1;
        lemma_symbol_stage(s2);
        let s3 = parse_symbol(s2).1;
        lemma_zero_stage(s3);
        let s4 = parse_flag(s3, '0').1;
        lemma_width_stage(s4);
        let s5 = s4.skip(digit_run(s4) as int);
        lemma_comma_stage(s5);
        let s6 = parse_flag(s5, ',').1;
        lemma_precision_stage(s6);
        let s7 = parse_precision(s6).1;
        lemma_trim_stage(s7);
        let s8 = parse_flag(s7, '~').1;
        lemma_type_stage(s8);
        lemma_digit_run_bound(s4);
        assert(s4.skip(0) =~= s4);
        if let Ok((width, s5b)) = parse_width(s4) {
            lemma_comma_stage(s5b);
            let s6 = parse_flag(s5b, ',').1;
            lemma_precision_stage(s6);
            let s7 = parse_precision(s6).1;
            lemma_trim_stage(s7);
            let s8 = parse_flag(s7, '~').1;
            lemma_type_stage(s8);
        }
    }
}

/// Whatever the parser accepts, the expression matches.
proof fn lemma_accepted_is_expression(s: Seq<char>)
    requires
        spec_parse(s) is Ok,
    ensures
        d3_expression(s),
{
    let (fill, align, s1) = parse_fill_align(s).unwrap();
    let s2 = parse_sign(s1).1;
    let s3 = parse_symbol(s2).1;
    let s4 = parse_flag(s3, '0').1;
    let (width, s5) = parse_width(s4).unwrap();
    let s6 = parse_flag(s5, ',').1;
    let s7 = parse_precision(s6).1;
    let s8 = parse_flag(s7, '~').1;
    let s9 = parse_type(s8).1;
    assert(s9.len() == 0);
    assert(re_type(s8));
    assert(re_trim(s7));
    if s6.len() >= 2 && s6[0] == '.' && is_ascii_digit(s6[1]) {
        let x = s6.skip(1);
        let n = digit_run(x) as int;
        lemma_digit_run_bound(x);
        assert(n >= 1);
        assert(s6.subrange(1, 1 + n) =~= x.take(n));
        assert(s7 == s6.skip(1 + n));
        assert(re_trim(s6.skip(1 + n)));
    }
    assert(re_precision(s6));
    assert(re_comma(s5));
    let m = digit_run(s4) as int;
    lemma_digit_run_bound(s4);
    assert(s4.skip(0) =~= s4);
    assert(s5 == s4.skip(m));
    assert(re_width(s4));
    assert(re_zero(s3));
    assert(re_symbol(s2));
    assert(re_sign(s1));
}

/// A width refused for its size stands in a string the expression matches.
proof fn lemma_overflow_is_expression(s: Seq<char>)
    requires
        spec_parse(s) == Err::<Fields, ParseErrorKind>(ParseErrorKind::WidthOverflow),
    ensures
        d3_expression(s),
{
    let (fill, align, s1) = parse_fill_align(s).unwrap();
    let s2 = parse_sign(s1).1;
    let s3 = parse_symbol(s2).1;
    let s4 = parse_flag(s3, '0').1;
    let m = digit_run(s4) as int;
    let s5 = s4.skip(m);
    let s6 = parse_flag(s5, ',').1;
    let s7 = parse_precision(s6).1;
    let s8 = parse_flag(s7, '~').1;
    let s9 = parse_type(s8).1;
    assert(parse_width(s4) is Err);
    assert(s9.len() == 0);
    assert(re_type(s8));
    assert(re_trim(s7));
    if s6.len() >= 2 && s6[0] == '.' && is_ascii_digit(s6[1]) {
        let x = s6.skip(1);
        let n = digit_run(x) as int;
        lemma_digit_run_bound(x);
        assert(n >= 1);
        assert(s6.subrange(1, 1 + n) =~= x.take(n));
        assert(s7 == s6.skip(1 + n));
        assert(re_trim(s6.skip(1 + n)));
    }
    assert(re_precision(s6));
    assert(re_comma(s5));
    lemma_digit_run_bound(s4);
    assert(re_width(s4));
    assert(re_zero(s3));
    assert(re_symbol(s2));
    assert(re_sign(s1));
}

/// The grammar is d3's expression: every specifier the parser accepts is one the
/// expression matches; every string the expression matches is accepted unless
/// its fill is refused or its width overflows a `u32`; and every string it does
/// not match is refused as syntax or for its fill.
pub proof fn lemma_parse_is_the_expression(s: Seq<char>)
    ensures
        spec_parse(s) is Ok ==> d3_expression(s),
        d3_expression(s) ==> spec_parse(s) is Ok || spec_parse(s) == Err::<Fields, ParseErrorKind>(
            ParseErrorKind::Fill,
        ) || spec_parse(s) == Err::<Fields, ParseErrorKind>(ParseErrorKind::WidthOverflow),
        !d3_expression(s) ==> spec_parse(s) == Err::<Fields, ParseErrorKind>(ParseErrorKind::Syntax)
            || spec_parse(s) == Err::<Fields, ParseErrorKind>(ParseErrorKind::Fill),
{
    if spec_parse(s) is Ok {
        lemma_accepted_is_expression(s);
    }
    if spec_parse(s) == Err::<Fields, ParseErrorKind>(ParseErrorKind::WidthOverflow) {
        lemma_overflow_is_expression(s);
    }
    if d3_expression(s) {
        lemma_expression_is_accepted(s);
    }
}


// ECMAScript's matcher tries the alternatives of each optional group in order,
// the group before skipping it and longer digit runs before shorter ones, and
// keeps the first whose remainder still matches: for a sequence of groups that is
// the first option, group by group, whose remainder is in the language of the
// groups after it.

/// `(?:(.)?([<>=^]))?` at the start of `s`: the fill and align captures and the
/// remainder.
pub open spec fn js_fill_align(s: Seq<char>) -> (Option<char>, Option<char>, Seq<char>) {
    if s.len() >= 2 && js_dot(s[0]) && Align::spec_from_char(s[1]) is Some && re_sign(s.skip(2)) {
        (Some(s[0]), Some(s[1]), s.skip(2))
    } else if s.len() >= 1 && Align::spec_from_char(s[0]) is Some && re_sign(s.skip(1)) {
        (None, Some(s[0]), s.skip(1))
    } else {
        (None, None, s)
    }
}

/// `([+\-( ])?`.
pub open spec fn js_sign(s: Seq<char>) -> (Option<char>, Seq<char>) {
    if s.len() >= 1 && Sign::spec_from_char(s[0]) is Some && re_symbol(s.skip(1)) {
        (Some(s[0]), s.skip(1))
    } else {
        (None, s)
    }
}

/// `([$#])?`.
pub open spec fn js_symbol(s: Seq<char>) -> (Option<char>, Seq<char>) {
    if s.len() >= 1 && Symbol::spec_from_char(s[0]) is Some && re_zero(s.skip(1)) {
        (Some(s[0]), s.skip(1))
    } else {
        (None, s)
    }
}

/// `(0)?`.
pub open spec fn js_zero(s: Seq<char>) -> (bool, Seq<char>) {
    if s.len() >= 1 && s[0] == '0' && re_width(s.skip(1)) {
        (true, s.skip(1))
    } else {
        (false, s)
    }
}

/// The longest run of at most `n` leading digits of `s` after which the rest of
/// the expression matches; zero when there is none.
pub open spec fn js_digits_len(s: Seq<char>, n: int) -> int
    decreases n,
{
    if n <= 0 {
        0
    } else if all_digits(s.take(n)) && re_comma(s.skip(n)) {
        n
    } else {
        js_digits_len(s, n - 1)
    }
}

/// `(\d+)?`: the width digits captured and the remainder.
pub open spec fn js_width(s: Seq<char>) -> (Seq<char>, Seq<char>) {
    let n = js_digits_len(s, s.len() as int);
    (s.take(n), s.skip(n))
}

/// `(,)?`.
pub open spec fn js_comma(s: Seq<char>) -> (bool, Seq<char>) {
    if s.len() >= 1 && s[0] == ',' && re_precision(s.skip(1)) {
        (true, s.skip(1))
    } else {
        (false, s)
    }
}

/// The longest `.` and digits, ending at most at `e`, after which the rest of
/// the expression matches; zero when there is none.
pub open spec fn js_fraction_end(s: Seq<char>, e: int) -> int
    decreases e,
{
    if e < 2 {
        0
    } else if s.len() >= e && s[0] == '.' && all_digits(s.subrange(1, e)) && re_trim(s.skip(e)) {
        e
    } else {
        js_fraction_end(s, e - 1)
    }
}

/// `(\.\d+)?`: the precision digits captured and the remainder.
pub open spec fn js_precision(s: Seq<char>) -> (Seq<char>, Seq<char>) {
    let e = js_fraction_end(s, s.len() as int);
    if e == 0 {
        (Seq::empty(), s)
    } else {
        (s.subrange(1, e), s.skip(e))
    }
}

/// `(~)?`.
pub open spec fn js_trim(s: Seq<char>) -> (bool, Seq<char>) {
    if s.len() >= 1 && s[0] == '~' && re_type(s.skip(1)) {
        (true, s.skip(1))
    } else {
        (false, s)
    }
}

/// `([a-z%])?$`.
pub open spec fn js_type(s: Seq<char>) -> Option<char> {
    if s.len() == 1 && type_char(s[0]) {
        Some(s[0])
    } else {
        None
    }
}

/// The fields d3 reads from what its expression captures in `s`, with its
/// defaults for the groups that capture nothing.
pub open spec fn js_fields(s: Seq<char>) -> Fields {
    let fa = js_fill_align(s);
    let sg = js_sign(fa.2);
    let sy = js_symbol(sg.1);
    let z = js_zero(sy.1);
    let w = js_width(z.1);
    let c = js_comma(w.1);
    let p = js_precision(c.1);
    let t = js_trim(p.1);
    Fields {
        fill: match fa.0 {
            Some(f) => f,
            None => ' ',
        },
        align: match fa.1 {
            Some(a) => Align::spec_from_char(a).unwrap(),
            None => Align::Right,
        },
        sign: match sg.0 {
            Some(x) => Sign::spec_from_char(x).unwrap(),
            None => Sign::Minus,
        },
        symbol: match sy.0 {
            Some(x) => Symbol::spec_from_char(x).unwrap(),
            None => Symbol::Absent,
        },
        zero: z.0,
        width: if w.0.len() == 0 {
            None
        } else {
            Some(digits_value(w.0) as u32)
        },
        comma: c.0,
        precision: if p.0.len() == 0 {
            None
        } else {
            Some(
                if digits_value(p.0) <= u32::MAX {
                    digits_value(p.0) as u32
                } else {
                    u32::MAX
                },
            )
        },
        trim: t.0,
        format_type: match js_type(t.1) {
            Some(x) => FormatType::spec_from_char(x).unwrap(),
            None => FormatType::Empty,
        },
    }
}

/// Digit runs longer than the leading digits never qualify.
proof fn lemma_js_digits_len(s: Seq<char>, n: int)
    requires
        digit_run(s) <= n <= s.len(),
        re_comma(s.skip(digit_run(s) as int)),
    ensures
        js_digits_len(s, n) == digit_run(s),
    decreases n,
{
    lemma_digit_run_bound(s);
    let m = digit_run(s) as int;
    if n > m {
        assert(s.take(n)[m] == s[m]);
        lemma_js_digits_len(s, n - 1);
    } else if n > 0 {
        assert(n == m);
    }
}

/// Fraction ends past the leading digits never qualify.
proof fn lemma_js_fraction_end(s: Seq<char>, e: int)
    requires
        s.len() >= 2,
        s[0] == '.',
        is_ascii_digit(s[1]),
        1 + digit_run(s.skip(1)) <= e <= s.len(),
        re_trim(s.skip(1 + digit_run(s.skip(1)) as int)),
    ensures
        js_fraction_end(s, e) == 1 + digit_run(s.skip(1)),
    decreases e,
{
    let x = s.skip(1);
    lemma_digit_run_bound(x);
    let m = digit_run(x) as int;
    assert(m >= 1);
    if e > 1 + m {
        assert(s.subrange(1, e)[m] == x[m]);
        lemma_js_fraction_end(s, e - 1);
    } else {
        assert(s.subrange(1, e) =~= x.take(m));
    }
}

/// Without a `.` and a digit at its start, no fraction starts `s`.
proof fn lemma_js_fraction_none(s: Seq<char>, e: int)
    requires
        !(s.len() >= 2 && s[0] == '.' && is_ascii_digit(s[1])),
        e <= s.len(),
    ensures
        js_fraction_end(s, e) == 0,
    decreases e,
{
    if e >= 2 {
        if s[0] == '.' && all_digits(s.subrange(1, e)) {
            assert(s.subrange(1, e)[0] == s[1]);
        }
        lemma_js_fraction_none(s, e - 1);
    }
}

/// What the parser reads from an accepted specifier is what d3's expression
/// captures from it, with d3's defaults where a group captures nothing.
#[verifier::rlimit(40)]
pub proof fn lemma_parse_reads_the_captures(s: Seq<char>)
    requires
        spec_parse(s) is Ok,
    ensures
        spec_parse(s) == Ok::<Fields, ParseErrorKind>(js_fields(s)),
{
    lemma_accepted_is_expression(s);
    lemma_fill_align_stage(s);
    let (fill, align, s1) = parse_fill_align(s).unwrap();
    assert(js_fill_align(s).2 == s1);
    lemma_sign_stage(s1);
    let s2 = parse_sign(s1).1;
    assert(js_sign(s1).1 == s2);
    lemma_symbol_stage(s2);
    let s3 = parse_symbol(s2).1;
    assert(js_symbol(s2).1 == s3);
    lemma_zero_stage(s3);
    let s4 = parse_flag(s3, '0').1;
    assert(js_zero(s3).1 == s4);
    lemma_width_stage(s4);
    let (width, s5) = parse_width(s4).unwrap();
    let m = digit_run(s4) as int;
    lemma_digit_run_bound(s4);
    assert(s4.skip(0) =~= s4);
    lemma_js_digits_len(s4, s4.len() as int);
    assert(js_width(s4).1 == s5);
    lemma_comma_stage(s5);
    let s6 = parse_flag(s5, ',').1;
    assert(js_comma(s5).1 == s6);
    lemma_precision_stage(s6);
    let s7 = parse_precision(s6).1;
    if s6.len() >= 2 && s6[0] == '.' && is_ascii_digit(s6[1]) {
        lemma_digit_run_bound(s6.skip(1));
        lemma_js_fraction_end(s6, s6.len() as int);
        assert(s6.subrange(1, 1 + digit_run(s6.skip(1)) as int) =~= s6.skip(1).take(
            digit_run(s6.skip(1)) as int,
        ));
    } else {
        lemma_js_fraction_none(s6, s6.len() as int);
    }
    assert(js_precision(s6).1 == s7);
    lemma_trim_stage(s7);
    let s8 = parse_flag(s7, '~').1;
    assert(js_trim(s7).1 == s8);
    lemma_type_stage(s8);
    let fa = js_fill_align(s);
    let sg = js_sign(fa.2);
    let sy = js_symbol(sg.1);
    let z = js_zero(sy.1);
    let w = js_width(z.1);
    let c = js_comma(w.1);
    let p = js_precision(c.1);
    let t = js_trim(p.1);
    let f = spec_parse(s).unwrap();
    assert(f.fill == match fa.0 {
        Some(x) => x,
        None => ' ',
    });
    assert(f.align == match fa.1 {
        Some(a) => Align::spec_from_char(a).unwrap(),
        None => Align::Right,
    });
    assert(f.sign == match sg.0 {
        Some(x) => Sign::spec_from_char(x).unwrap(),
        None => Sign::Minus,
    });
    assert(f.symbol == match sy.0 {
        Some(x) => Symbol::spec_from_char(x).unwrap(),
        None => Symbol::Absent,
    });
    assert(f.zero == z.0);
    assert(f.width == if w.0.len() == 0 {
        None
    } else {
        Some(digits_value(w.0) as u32)
    });
    assert(f.comma == c.0);
    assert(f.precision == if p.0.len() == 0 {
        None
    } else {
        Some(
            if digits_value(p.0) <= u32::MAX {
                digits_value(p.0) as u32
            } else {
                u32::MAX
            },
        )
    });
    assert(f.trim == t.0);
    assert(f.format_type == match js_type(t.1) {
        Some(x) => FormatType::spec_from_char(x).unwrap(),
        None => FormatType::Empty,
    });
}

} // verus!
