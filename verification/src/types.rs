//! The small typed values the specifier grammar and the formatter are built from.
use vstd::prelude::*;
use vstd::string::*;

verus! {

/// Whether `c` is an ASCII letter.
pub open spec fn is_ascii_letter(c: char) -> bool {
    ('a' <= c && c <= 'z') || ('A' <= c && c <= 'Z')
}

/// Whether `c` is an ASCII decimal digit.
pub open spec fn is_ascii_digit(c: char) -> bool {
    '0' <= c && c <= '9'
}

/// Where padding goes relative to the value, from the `[<>=^]` group.
#[derive(Debug, Clone, Copy, PartialEq, Eq, Structural, Hash)]
pub enum Align {
    /// `<`: the value is left-aligned and padding follows it.
    Left,
    /// `>`: the value is right-aligned and padding precedes it. The default.
    Right,
    /// `^`: the value is centred within the padding.
    Center,
    /// `=`: padding goes between the sign and the digits.
    AfterSign,
}

impl Align {
    pub open spec fn spec_char(self) -> char {
        match self {
            Align::Left => '<',
            Align::Right => '>',
            Align::Center => '^',
            Align::AfterSign => '=',
        }
    }

    pub open spec fn spec_from_char(c: char) -> Option<Align> {
        if c == '<' {
            Some(Align::Left)
        } else if c == '>' {
            Some(Align::Right)
        } else if c == '^' {
            Some(Align::Center)
        } else if c == '=' {
            Some(Align::AfterSign)
        } else {
            None
        }
    }

    /// The spelling of this alignment.
    pub fn as_char(self) -> (c: char)
        ensures
            c == self.spec_char(),
            Align::spec_from_char(c) == Some(self),
    {
        match self {
            Align::Left => '<',
            Align::Right => '>',
            Align::Center => '^',
            Align::AfterSign => '=',
        }
    }

    /// The alignment `value` spells, or `None` if it spells none.
    pub fn from_char(value: char) -> (r: Option<Align>)
        ensures
            r == Align::spec_from_char(value),
            r matches Some(a) ==> a.spec_char() == value,
    {
        if value == '<' {
            Some(Align::Left)
        } else if value == '>' {
            Some(Align::Right)
        } else if value == '^' {
            Some(Align::Center)
        } else if value == '=' {
            Some(Align::AfterSign)
        } else {
            None
        }
    }

    /// The spelling of this alignment, as text.
    pub fn to_string(&self) -> (s: String)
        ensures
            s@ == seq![self.spec_char()],
    {
        let mut s = String::new();
        push_char(&mut s, self.as_char());
        s
    }
}

impl Default for Align {
    fn default() -> (a: Align)
        ensures
            a == Align::Right,
    {
        Align::Right
    }
}

/// How the sign of a value is spelled, from the `[+\-( ]` group.
#[derive(Debug, Clone, Copy, PartialEq, Eq, Structural, Hash)]
pub enum Sign {
    /// `-`: negatives take the locale's minus sign. The default.
    Minus,
    /// `+`: positives take a `+`.
    Plus,
    /// `(`: negatives are parenthesized instead of signed.
    Parens,
    /// ` `: positives take a space.
    Space,
}

impl Sign {
    pub open spec fn spec_char(self) -> char {
        match self {
            Sign::Minus => '-',
            Sign::Plus => '+',
            Sign::Parens => '(',
            Sign::Space => ' ',
        }
    }

    pub open spec fn spec_from_char(c: char) -> Option<Sign> {
        if c == '-' {
            Some(Sign::Minus)
        } else if c == '+' {
            Some(Sign::Plus)
        } else if c == '(' {
            Some(Sign::Parens)
        } else if c == ' ' {
            Some(Sign::Space)
        } else {
            None
        }
    }

    /// The spelling of this sign policy.
    pub fn as_char(self) -> (c: char)
        ensures
            c == self.spec_char(),
            Sign::spec_from_char(c) == Some(self),
    {
        match self {
            Sign::Minus => '-',
            Sign::Plus => '+',
            Sign::Parens => '(',
            Sign::Space => ' ',
        }
    }

    /// The sign policy `value` spells, or `None` if it spells none.
    pub fn from_char(value: char) -> (r: Option<Sign>)
        ensures
            r == Sign::spec_from_char(value),
            r matches Some(s) ==> s.spec_char() == value,
    {
        if value == '-' {
            Some(Sign::Minus)
        } else if value == '+' {
            Some(Sign::Plus)
        } else if value == '(' {
            Some(Sign::Parens)
        } else if value == ' ' {
            Some(Sign::Space)
        } else {
            None
        }
    }

    /// The spelling of this sign policy, as text.
    pub fn to_string(&self) -> (s: String)
        ensures
            s@ == seq![self.spec_char()],
    {
        let mut s = String::new();
        push_char(&mut s, self.as_char());
        s
    }
}

impl Default for Sign {
    fn default() -> (s: Sign)
        ensures
            s == Sign::Minus,
    {
        Sign::Minus
    }
}

/// The optional `[$#]` symbol; an absent symbol is [`Symbol::Absent`].
#[derive(Debug, Clone, Copy, PartialEq, Eq, Structural, Hash)]
pub enum Symbol {
    /// No symbol. The default.
    Absent,
    /// `$`: wrap the value in the locale's currency affixes.
    Currency,
    /// `#`: prefix `0b`, `0o` or `0x` for the binary, octal and hexadecimal types.
    BasePrefix,
}

impl Symbol {
    pub open spec fn spec_char(self) -> Option<char> {
        match self {
            Symbol::Absent => None,
            Symbol::Currency => Some('$'),
            Symbol::BasePrefix => Some('#'),
        }
    }

    pub open spec fn spec_from_char(c: char) -> Option<Symbol> {
        if c == '$' {
            Some(Symbol::Currency)
        } else if c == '#' {
            Some(Symbol::BasePrefix)
        } else {
            None
        }
    }

    /// The spelling of this symbol, or `None` for [`Symbol::Absent`].
    pub fn as_char(self) -> (c: Option<char>)
        ensures
            c == self.spec_char(),
            c matches Some(ch) ==> Symbol::spec_from_char(ch) == Some(self),
    {
        match self {
            Symbol::Absent => None,
            Symbol::Currency => Some('$'),
            Symbol::BasePrefix => Some('#'),
        }
    }

    /// The symbol `value` spells, or `None` if it spells none. Never
    /// [`Symbol::Absent`]: absence is the lack of a character.
    pub fn from_char(value: char) -> (r: Option<Symbol>)
        ensures
            r == Symbol::spec_from_char(value),
            r matches Some(s) ==> s.spec_char() == Some(value),
    {
        if value == '$' {
            Some(Symbol::Currency)
        } else if value == '#' {
            Some(Symbol::BasePrefix)
        } else {
            None
        }
    }

    /// The spelling of this symbol, as text; empty for [`Symbol::Absent`].
    pub fn to_string(&self) -> (s: String)
        ensures
            s@ == (match self.spec_char() {
                Some(c) => seq![c],
                None => Seq::<char>::empty(),
            }),
    {
        let mut s = String::new();
        if let Some(c) = self.as_char() {
            push_char(&mut s, c);
        }
        s
    }
}

impl Default for Symbol {
    fn default() -> (s: Symbol)
        ensures
            s == Symbol::Absent,
    {
        Symbol::Absent
    }
}

/// The conversion a specifier selects, from the `[a-z%]` group with the `i` flag.
///
/// [`FormatType::Unknown`] carries an ASCII letter that no other variant names;
/// [`FormatType::from_char`] and the specifier builder canonicalize to keep it so.
#[derive(Debug, Clone, Copy, PartialEq, Eq, Structural, Hash)]
pub enum FormatType {
    /// The empty type, treated as `.12~g` and rendered as nothing. The default.
    Empty,
    /// `%`: multiply by 100 and append the locale's percent sign.
    Percent,
    /// `b`: binary, after rounding to an integer.
    Binary,
    /// `c`: character data, emitted verbatim. The only type that takes text.
    Character,
    /// `d`: decimal integer, after rounding.
    Decimal,
    /// `e`: exponent notation.
    Exponent,
    /// `f`: fixed point.
    Fixed,
    /// `g`: significant digits, in fixed or exponent notation.
    General,
    /// `n`: an alias for `,g`.
    Grouped,
    /// `o`: octal, after rounding to an integer.
    Octal,
    /// `p`: a percentage rounded to significant digits.
    RoundedPercent,
    /// `r`: rounded to significant digits, never in exponent notation.
    Rounded,
    /// `s`: an SI prefix chosen from the value.
    SiPrefix,
    /// `X`: uppercase hexadecimal, after rounding to an integer.
    HexUpper,
    /// `x`: lowercase hexadecimal, after rounding to an integer.
    HexLower,
    /// Any other ASCII letter, formatted as `.12~g` with the letter kept.
    Unknown(char),
}

impl FormatType {
    /// The known conversion a character names, if any.
    pub open spec fn known_of(c: char) -> Option<FormatType> {
        if c == '%' {
            Some(FormatType::Percent)
        } else if c == 'b' {
            Some(FormatType::Binary)
        } else if c == 'c' {
            Some(FormatType::Character)
        } else if c == 'd' {
            Some(FormatType::Decimal)
        } else if c == 'e' {
            Some(FormatType::Exponent)
        } else if c == 'f' {
            Some(FormatType::Fixed)
        } else if c == 'g' {
            Some(FormatType::General)
        } else if c == 'n' {
            Some(FormatType::Grouped)
        } else if c == 'o' {
            Some(FormatType::Octal)
        } else if c == 'p' {
            Some(FormatType::RoundedPercent)
        } else if c == 'r' {
            Some(FormatType::Rounded)
        } else if c == 's' {
            Some(FormatType::SiPrefix)
        } else if c == 'X' {
            Some(FormatType::HexUpper)
        } else if c == 'x' {
            Some(FormatType::HexLower)
        } else {
            None
        }
    }

    pub open spec fn spec_from_char(c: char) -> Option<FormatType> {
        match FormatType::known_of(c) {
            Some(t) => Some(t),
            None => if is_ascii_letter(c) {
                Some(FormatType::Unknown(c))
            } else {
                None
            },
        }
    }

    pub open spec fn spec_char(self) -> Option<char> {
        match self {
            FormatType::Empty => None,
            FormatType::Percent => Some('%'),
            FormatType::Binary => Some('b'),
            FormatType::Character => Some('c'),
            FormatType::Decimal => Some('d'),
            FormatType::Exponent => Some('e'),
            FormatType::Fixed => Some('f'),
            FormatType::General => Some('g'),
            FormatType::Grouped => Some('n'),
            FormatType::Octal => Some('o'),
            FormatType::RoundedPercent => Some('p'),
            FormatType::Rounded => Some('r'),
            FormatType::SiPrefix => Some('s'),
            FormatType::HexUpper => Some('X'),
            FormatType::HexLower => Some('x'),
            FormatType::Unknown(letter) => Some(letter),
        }
    }

    /// Whether a value keeps the invariant: an `Unknown` carries an ASCII letter
    /// that no other variant names.
    pub open spec fn canonical(self) -> bool {
        match self {
            FormatType::Unknown(c) => is_ascii_letter(c) && FormatType::known_of(c).is_none(),
            _ => true,
        }
    }

    pub open spec fn spec_is_known(self) -> bool {
        match self {
            FormatType::Empty | FormatType::Grouped | FormatType::Unknown(_) => false,
            _ => true,
        }
    }

    pub open spec fn spec_input_kind(self) -> InputKind {
        match self {
            FormatType::Character => InputKind::Text,
            _ => InputKind::Number,
        }
    }

    /// The type `value` spells, or `None` if the grammar does not admit `value`.
    pub fn from_char(value: char) -> (r: Option<FormatType>)
        ensures
            r == FormatType::spec_from_char(value),
            r is Some <==> (value == '%' || is_ascii_letter(value)),
            r matches Some(t) ==> t.spec_char() == Some(value) && t.canonical(),
    {
        if value == '%' {
            Some(FormatType::Percent)
        } else if value == 'b' {
            Some(FormatType::Binary)
        } else if value == 'c' {
            Some(FormatType::Character)
        } else if value == 'd' {
            Some(FormatType::Decimal)
        } else if value == 'e' {
            Some(FormatType::Exponent)
        } else if value == 'f' {
            Some(FormatType::Fixed)
        } else if value == 'g' {
            Some(FormatType::General)
        } else if value == 'n' {
            Some(FormatType::Grouped)
        } else if value == 'o' {
            Some(FormatType::Octal)
        } else if value == 'p' {
            Some(FormatType::RoundedPercent)
        } else if value == 'r' {
            Some(FormatType::Rounded)
        } else if value == 's' {
            Some(FormatType::SiPrefix)
        } else if value == 'X' {
            Some(FormatType::HexUpper)
        } else if value == 'x' {
            Some(FormatType::HexLower)
        } else if ('a' <= value && value <= 'z') || ('A' <= value && value <= 'Z') {
            Some(FormatType::Unknown(value))
        } else {
            None
        }
    }

    /// The spelling of this type, or `None` for [`FormatType::Empty`].
    pub fn as_char(self) -> (c: Option<char>)
        ensures
            c == self.spec_char(),
            c is None <==> self == FormatType::Empty,
    {
        match self {
            FormatType::Empty => None,
            FormatType::Percent => Some('%'),
            FormatType::Binary => Some('b'),
            FormatType::Character => Some('c'),
            FormatType::Decimal => Some('d'),
            FormatType::Exponent => Some('e'),
            FormatType::Fixed => Some('f'),
            FormatType::General => Some('g'),
            FormatType::Grouped => Some('n'),
            FormatType::Octal => Some('o'),
            FormatType::RoundedPercent => Some('p'),
            FormatType::Rounded => Some('r'),
            FormatType::SiPrefix => Some('s'),
            FormatType::HexUpper => Some('X'),
            FormatType::HexLower => Some('x'),
            FormatType::Unknown(letter) => Some(letter),
        }
    }

    /// Whether a conversion stands behind this type; `false` for the empty type,
    /// for `n` and for an unknown letter, which is what selects the `.12~g` fallback.
    pub fn is_known(self) -> (b: bool)
        ensures
            b == self.spec_is_known(),
    {
        match self {
            FormatType::Empty | FormatType::Grouped | FormatType::Unknown(_) => false,
            _ => true,
        }
    }

    /// The kind of input this type consumes: only `c` takes text.
    pub fn input_kind(self) -> (k: InputKind)
        ensures
            k == self.spec_input_kind(),
    {
        match self {
            FormatType::Character => InputKind::Text,
            _ => InputKind::Number,
        }
    }

    /// The spelling of this type, as text; empty for [`FormatType::Empty`].
    pub fn to_string(&self) -> (s: String)
        ensures
            s@ == (match self.spec_char() {
                Some(c) => seq![c],
                None => Seq::<char>::empty(),
            }),
    {
        let mut s = String::new();
        if let Some(c) = self.as_char() {
            push_char(&mut s, c);
        }
        s
    }
}

impl Default for FormatType {
    fn default() -> (t: FormatType)
        ensures
            t == FormatType::Empty,
    {
        FormatType::Empty
    }
}

/// What a formatter accepts.
#[derive(Debug, Clone, Copy, PartialEq, Eq, Structural, Hash)]
pub enum InputKind {
    /// A number.
    Number,
    /// Text, for type `c` only.
    Text,
}

impl InputKind {
    pub open spec fn spec_name(self) -> Seq<char> {
        match self {
            InputKind::Number => "numeric"@,
            InputKind::Text => "text"@,
        }
    }

    /// The name of this kind, as it appears in error messages.
    pub fn to_string(&self) -> (s: String)
        ensures
            s@ == self.spec_name(),
    {
        match self {
            InputKind::Number => String::from_str("numeric"),
            InputKind::Text => String::from_str("text"),
        }
    }
}

/// Calls `String::push`. Trusted to append `c` and change nothing else in `s`.
#[verifier::external_body]
pub(crate) fn push_char(s: &mut String, c: char)
    ensures
        final(s)@ == old(s)@.push(c),
{
    s.push(c);
}

} // verus!
