//! Compiled formatters: a locale, a specifier and limits resolved into a
//! [`Layout`], and the text and number entry points that lay values out with it.
use vstd::prelude::*;
use vstd::string::*;

use crate::layout::{
    lemma_lay_out_width_is_a_minimum, has_ascii_digit, lemma_lay_out_numerals_reach_every_digit, lemma_lay_out_within_budget, within_budget, assemble, grouping_of, number_parts, spec_lay_out, spec_si_prefix_of, spec_split,
    spec_trim, split_at_first_non_digit, substitute_numerals, text_parts, trim_chars,
    Layout, ValueParts,
};
use crate::decimal::{
    convert_outcome, is_nan_bits, si_prefix_exponent_is, si_scale_table, sign_bit, split_of,
};
use crate::limits::{FormatError, FormatLimits};
use crate::locale::{Locale, LocaleModel};
use crate::specifier::{Fields, FormatSpecifier};
use crate::text::{chars_of, string_of, utf8_len};
use crate::types::{Align, FormatType, InputKind, Sign, Symbol};

verus! {

broadcast use vstd::string::group_string_axioms;

// ---------------------------------------------------------------------------
// Resolution
// ---------------------------------------------------------------------------

/// The type a formatter runs: `n` becomes `g`, and so does every type that names
/// no conversion.
pub open spec fn resolved_type(t: FormatType) -> FormatType {
    if t == FormatType::Grouped || !t.spec_is_known() {
        FormatType::General
    } else {
        t
    }
}

/// Whether the type falls back to `.12~g`: the empty type and an unknown letter.
pub open spec fn falls_back(t: FormatType) -> bool {
    t != FormatType::Grouped && !t.spec_is_known()
}

/// The precision in force: six when none was given (twelve for the fallback),
/// clamped to `1..=21` for `g`, `p`, `r` and `s` and to at most `20` otherwise.
pub open spec fn resolved_precision(f: Fields) -> u32 {
    let p = if falls_back(f.format_type) && f.precision is None {
        Some(12u32)
    } else {
        f.precision
    };
    let t = resolved_type(f.format_type);
    match p {
        None => 6,
        Some(r) => if t == FormatType::General || t == FormatType::RoundedPercent || t
            == FormatType::Rounded || t == FormatType::SiPrefix {
            if r < 1 {
                1
            } else if r > 21 {
                21
            } else {
                r
            }
        } else {
            if r > 20 {
                20
            } else {
                r
            }
        },
    }
}

/// Zero fill comes from the `0` flag or from fill `0` with align `=`.
pub open spec fn zero_fill(f: Fields) -> bool {
    f.zero || (f.fill == '0' && f.align == Align::AfterSign)
}

pub open spec fn base_prefix(t: FormatType) -> Seq<char> {
    if t == FormatType::Binary {
        "0b"@
    } else if t == FormatType::Octal {
        "0o"@
    } else if t == FormatType::HexUpper || t == FormatType::HexLower {
        "0x"@
    } else {
        Seq::<char>::empty()
    }
}

pub open spec fn symbol_prefix(loc: LocaleModel, f: Fields) -> Seq<char> {
    match f.symbol {
        Symbol::Currency => loc.currency_prefix,
        Symbol::BasePrefix => base_prefix(resolved_type(f.format_type)),
        Symbol::Absent => Seq::<char>::empty(),
    }
}

pub open spec fn symbol_suffix(loc: LocaleModel, f: Fields) -> Seq<char> {
    let t = resolved_type(f.format_type);
    match f.symbol {
        Symbol::Currency => loc.currency_suffix,
        _ => if t == FormatType::Percent || t == FormatType::RoundedPercent {
            loc.percent
        } else {
            Seq::<char>::empty()
        },
    }
}

/// `/[defgprs%]/`: the types whose text can carry a tail that is not grouped.
pub open spec fn spec_maybe_suffix(t: FormatType) -> bool {
    t == FormatType::Decimal || t == FormatType::Exponent || t == FormatType::Fixed || t
        == FormatType::General || t == FormatType::RoundedPercent || t == FormatType::Rounded || t
        == FormatType::SiPrefix || t == FormatType::Percent
}

/// The concatenation of `parts`.
pub open spec fn concat_all(parts: Seq<Seq<char>>) -> Seq<char>
    decreases parts.len(),
{
    if parts.len() == 0 {
        Seq::<char>::empty()
    } else {
        concat_all(parts.drop_last()) + parts.last()
    }
}

/// Concatenating under the byte limit: a total that does not fit in `usize` is an
/// allocation failure, and one over the limit is refused.
pub open spec fn spec_concat_bounded(parts: Seq<Seq<char>>, max: usize) -> Result<Seq<char>, FormatError> {
    let total = utf8_len(concat_all(parts));
    if total > usize::MAX {
        Err(FormatError::AllocationFailed)
    } else if total > max {
        Err(FormatError::OutputLimit { requested: total as usize, maximum: max })
    } else {
        Ok(concat_all(parts))
    }
}

/// Whether `l` is the layout that a locale, a specifier's fields and limits
/// resolve to, given the affixes they produce.
pub open spec fn is_resolution(
    l: Layout,
    f: Fields,
    prefix: Seq<char>,
    suffix: Seq<char>,
    prefix_scale: Option<u64>,
) -> bool {
    let t = resolved_type(f.format_type);
    &&& l.fill == (if zero_fill(f) {
        '0'
    } else {
        f.fill
    })
    &&& l.align == (if zero_fill(f) {
        Align::AfterSign
    } else {
        f.align
    })
    &&& l.sign == f.sign
    &&& l.zero == zero_fill(f)
    &&& l.width == (match f.width {
        Some(w) => w,
        None => 0,
    })
    &&& l.comma == (f.comma || f.format_type == FormatType::Grouped)
    &&& l.precision == resolved_precision(f)
    &&& l.trim == (f.trim || falls_back(f.format_type))
    &&& l.resolved_type == t
    &&& l.maybe_suffix == spec_maybe_suffix(t)
    &&& l.prefix@ == prefix
    &&& l.suffix@ == suffix
    &&& l.prefix_scale == prefix_scale
}

/// What compiling yields: the width is checked against the limit first, then the
/// prefix and then the suffix (with an SI suffix, when one is fixed) against the
/// output budget.
pub open spec fn spec_compile(
    loc: LocaleModel,
    f: Fields,
    limits: FormatLimits,
    extra_suffix: Seq<char>,
) -> Result<(Seq<char>, Seq<char>), FormatError> {
    let width = match f.width {
        Some(w) => w,
        None => 0,
    };
    if width > limits.max_width_utf16 {
        Err(FormatError::WidthLimit { requested: width, maximum: limits.max_width_utf16 })
    } else {
        match spec_concat_bounded(seq![symbol_prefix(loc, f)], limits.max_output_bytes) {
            Err(e) => Err(e),
            Ok(prefix) => match spec_concat_bounded(
                seq![symbol_suffix(loc, f), extra_suffix],
                limits.max_output_bytes,
            ) {
                Err(e) => Err(e),
                Ok(suffix) => Ok((prefix, suffix)),
            },
        }
    }
}

proof fn lemma_concat_all_push(parts: Seq<Seq<char>>, p: Seq<char>)
    ensures
        concat_all(parts.push(p)) == concat_all(parts) + p,
{
    assert(parts.push(p).drop_last() =~= parts);
}

/// Concatenates `parts` under the output-byte limit.
pub fn concat_bounded(parts: &[&str], limits: &FormatLimits) -> (r: Result<String, FormatError>)
    ensures
        match r {
            Ok(s) => spec_concat_bounded(
                Seq::new(parts@.len(), |i: int| parts@[i]@),
                limits.max_output_bytes,
            ) == Ok::<Seq<char>, FormatError>(s@),
            Err(e) => spec_concat_bounded(
                Seq::new(parts@.len(), |i: int| parts@[i]@),
                limits.max_output_bytes,
            ) == Err::<Seq<char>, FormatError>(e),
        },
{
    let ghost all = Seq::new(parts@.len(), |i: int| parts@[i]@);
    let mut text: Vec<char> = Vec::new();
    let mut i: usize = 0;
    let n = parts.len();
    while i < n
        invariant
            i <= n,
            n == parts@.len(),
            all == Seq::new(parts@.len(), |i: int| parts@[i]@),
            text@ == concat_all(all.take(i as int)),
        decreases n - i,
    {
        let ghost before = text@;
        let part = chars_of(parts[i]);
        let mut k: usize = 0;
        while k < part.len()
            invariant
                k <= part@.len(),
                text@ == before + part@.take(k as int),
            decreases part@.len() - k,
        {
            text.push(part[k]);
            assert(part@.take(k + 1) =~= part@.take(k as int).push(part@[k as int]));
            k = k + 1;
        }
        assert(part@.take(k as int) =~= part@);
        proof {
            assert(all.take(i + 1) =~= all.take(i as int).push(all[i as int]));
            lemma_concat_all_push(all.take(i as int), all[i as int]);
        }
        i = i + 1;
    }
    assert(all.take(n as int) =~= all);
    let total = crate::layout::utf8_length(&text);
    if total > (usize::MAX as u128) {
        return Err(FormatError::AllocationFailed);
    }
    if total > (limits.max_output_bytes as u128) {
        return Err(
            FormatError::OutputLimit { requested: total as usize, maximum: limits.max_output_bytes },
        );
    }
    Ok(string_of(&text))
}

// ---------------------------------------------------------------------------
// The formatter
// ---------------------------------------------------------------------------

/// A compiled formatter: one locale, one specifier, one set of limits.
#[derive(Debug, PartialEq, Eq)]
pub struct Formatter {
    locale: Locale,
    specifier: FormatSpecifier,
    input_kind: InputKind,
    limits: FormatLimits,
    layout: Layout,
}

impl Clone for Formatter {
    /// A formatter with the same locale, specifier, input kind, limits and layout.
    fn clone(&self) -> (c: Formatter)
        ensures
            c.spec_locale() == self.spec_locale(),
            c.spec_specifier() == self.spec_specifier(),
            c.spec_input_kind() == self.spec_input_kind(),
            c.spec_limits() == self.spec_limits(),
            c.spec_layout() == self.spec_layout(),
    {
        proof {
            use_type_invariant(self);
        }
        Formatter {
            locale: self.locale.duplicate(),
            specifier: self.specifier,
            input_kind: self.input_kind,
            limits: self.limits,
            layout: self.layout.clone(),
        }
    }
}

impl Formatter {
    /// What every compiled formatter keeps: the precision in force is at most 21,
    /// the clamp every type's precision goes through.
    #[verifier::type_invariant]
    spec fn compiled_precision(self) -> bool {
        self.layout.precision <= 21
    }

    pub closed spec fn spec_locale(&self) -> LocaleModel {
        self.locale@
    }

    pub closed spec fn spec_specifier(&self) -> Fields {
        self.specifier@
    }

    pub closed spec fn spec_input_kind(&self) -> InputKind {
        self.input_kind
    }

    pub closed spec fn spec_limits(&self) -> FormatLimits {
        self.limits
    }

    pub closed spec fn spec_layout(&self) -> Layout {
        self.layout
    }

    /// Everything d3's `newFormat` computes before it returns its closure.
    ///
    /// `prefix_suffix` and `prefix_scale` are the SI suffix and the scale (as the
    /// bits of a binary64 value) of a fixed-prefix formatter.
    pub fn compile(
        locale: Locale,
        specifier: FormatSpecifier,
        limits: FormatLimits,
        prefix_suffix: Option<&str>,
        prefix_scale: Option<u64>,
    ) -> (r: Result<Formatter, FormatError>)
        ensures
            match r {
                Ok(fmt) => {
                    let extra = match prefix_suffix {
                        Some(s) => s@,
                        None => Seq::<char>::empty(),
                    };
                    &&& spec_compile(locale@, specifier@, limits, extra) matches Ok((prefix, suffix))
                        && is_resolution(fmt.spec_layout(), specifier@, prefix, suffix, prefix_scale)
                    &&& fmt.spec_locale() == locale@
                    &&& fmt.spec_specifier() == specifier@
                    &&& fmt.spec_limits() == limits
                    &&& fmt.spec_input_kind() == resolved_type(specifier@.format_type).spec_input_kind()
                },
                Err(e) => spec_compile(
                    locale@,
                    specifier@,
                    limits,
                    match prefix_suffix {
                        Some(s) => s@,
                        None => Seq::<char>::empty(),
                    },
                ) == Err::<(Seq<char>, Seq<char>), FormatError>(e),
            },
    {
        let f = specifier.fields();
        let width = match f.width {
            Some(w) => w,
            None => 0,
        };
        if width > limits.max_width_utf16 {
            return Err(FormatError::WidthLimit { requested: width, maximum: limits.max_width_utf16 });
        }
        let mut comma = f.comma;
        let mut precision = f.precision;
        let mut trim = f.trim;
        let resolved = if f.format_type == FormatType::Grouped {
            comma = true;
            FormatType::General
        } else if !f.format_type.is_known() {
            if precision.is_none() {
                precision = Some(12);
            }
            trim = true;
            FormatType::General
        } else {
            f.format_type
        };
        let zero = f.zero || (f.fill == '0' && f.align == Align::AfterSign);
        let fill = if zero {
            '0'
        } else {
            f.fill
        };
        let align = if zero {
            Align::AfterSign
        } else {
            f.align
        };
        let base: &str = if resolved == FormatType::Binary {
            "0b"
        } else if resolved == FormatType::Octal {
            "0o"
        } else if resolved == FormatType::HexUpper || resolved == FormatType::HexLower {
            "0x"
        } else {
            ""
        };
        proof {
            reveal_strlit("");
        }
        let sym_prefix: &str = match f.symbol {
            Symbol::Currency => locale.currency_prefix(),
            Symbol::BasePrefix => base,
            Symbol::Absent => "",
        };
        let sym_suffix: &str = match f.symbol {
            Symbol::Currency => locale.currency_suffix(),
            _ => if resolved == FormatType::Percent || resolved == FormatType::RoundedPercent {
                locale.percent()
            } else {
                ""
            },
        };
        let extra: &str = match prefix_suffix {
            Some(s) => s,
            None => "",
        };
        let ghost extra_spec = match prefix_suffix {
            Some(s) => s@,
            None => Seq::<char>::empty(),
        };
        assert(extra@ == extra_spec);
        assert(f == specifier@);
        assert(resolved == resolved_type(f.format_type));
        assert(base@ == base_prefix(resolved));
        assert(sym_prefix@ == symbol_prefix(locale@, f));
        assert(sym_suffix@ == symbol_suffix(locale@, f));
        let prefix_parts = [sym_prefix];
        let prefix = match concat_bounded(&prefix_parts, &limits) {
            Ok(s) => s,
            Err(e) => {
                assert(Seq::new(prefix_parts@.len(), |i: int| prefix_parts@[i]@) =~= seq![sym_prefix@]);
                return Err(e);
            },
        };
        assert(Seq::new(prefix_parts@.len(), |i: int| prefix_parts@[i]@) =~= seq![sym_prefix@]);
        let suffix_parts = [sym_suffix, extra];
        let suffix = match concat_bounded(&suffix_parts, &limits) {
            Ok(s) => s,
            Err(e) => {
                assert(Seq::new(suffix_parts@.len(), |i: int| suffix_parts@[i]@) =~= seq![sym_suffix@, extra@]);
                assert(spec_concat_bounded(seq![symbol_prefix(locale@, f)], limits.max_output_bytes) == Ok::<Seq<char>, FormatError>(prefix@));
                assert(spec_concat_bounded(seq![symbol_suffix(locale@, f), extra_spec], limits.max_output_bytes) == Err::<Seq<char>, FormatError>(e));
                assert(spec_compile(locale@, f, limits, extra_spec) == Err::<(Seq<char>, Seq<char>), FormatError>(e));
                return Err(e);
            },
        };
        assert(Seq::new(suffix_parts@.len(), |i: int| suffix_parts@[i]@) =~= seq![sym_suffix@, extra@]);
        let precision: u32 = match precision {
            None => 6,
            Some(requested) => if resolved == FormatType::General || resolved
                == FormatType::RoundedPercent || resolved == FormatType::Rounded || resolved
                == FormatType::SiPrefix {
                if requested < 1 {
                    1
                } else if requested > 21 {
                    21
                } else {
                    requested
                }
            } else {
                if requested > 20 {
                    20
                } else {
                    requested
                }
            },
        };
        let maybe_suffix = resolved == FormatType::Decimal || resolved == FormatType::Exponent
            || resolved == FormatType::Fixed || resolved == FormatType::General || resolved
            == FormatType::RoundedPercent || resolved == FormatType::Rounded || resolved
            == FormatType::SiPrefix || resolved == FormatType::Percent;
        let layout = Layout {
            fill,
            align,
            sign: f.sign,
            zero,
            width,
            comma,
            precision,
            trim,
            resolved_type: resolved,
            maybe_suffix,
            prefix,
            suffix,
            prefix_scale,
        };
        Ok(
            Formatter {
                input_kind: resolved.input_kind(),
                locale,
                specifier,
                limits,
                layout,
            },
        )
    }

    /// The kind of input this formatter takes.
    pub fn input_kind(&self) -> (k: InputKind)
        ensures
            k == self.spec_input_kind(),
    {
        self.input_kind
    }

    /// The specifier this formatter was compiled from, before `n` becomes `,g` and
    /// an unknown type becomes `.12~g`.
    pub fn specifier(&self) -> (s: &FormatSpecifier)
        ensures
            s@ == self.spec_specifier(),
    {
        &self.specifier
    }

    /// The limits in force for this formatter.
    pub fn limits(&self) -> (l: FormatLimits)
        ensures
            l == self.spec_limits(),
    {
        self.limits
    }

    /// The resolution the specifier and the locale compiled to.
    pub fn layout(&self) -> (l: &Layout)
        ensures
            *l == self.spec_layout(),
            l.precision <= 21,
    {
        proof {
            use_type_invariant(self);
        }
        &self.layout
    }

    /// Refuses the input kind this formatter does not take.
    pub fn accept(&self, actual: InputKind) -> (r: Result<(), FormatError>)
        ensures
            r is Ok <==> actual == self.spec_input_kind(),
            r matches Err(e) ==> e == (FormatError::InputTypeMismatch {
                expected: self.spec_input_kind(),
                actual,
            }),
    {
        if self.input_kind == actual {
            return Ok(());
        }
        Err(FormatError::InputTypeMismatch { expected: self.input_kind, actual })
    }

    /// Lays out the parts of a value: assembly, then the locale's numerals.
    fn lay_out(&self, parts: ValueParts) -> (r: Result<Vec<char>, FormatError>)
        ensures
            match r {
                Ok(v) => spec_lay_out(
                    self.spec_layout(),
                    self.spec_locale().grouping,
                    self.spec_locale().numerals,
                    self.spec_limits().max_output_bytes,
                    parts@,
                ) == Ok::<Seq<char>, FormatError>(v@),
                Err(e) => spec_lay_out(
                    self.spec_layout(),
                    self.spec_locale().grouping,
                    self.spec_locale().numerals,
                    self.spec_limits().max_output_bytes,
                    parts@,
                ) == Err::<Seq<char>, FormatError>(e),
            },
    {
        let thousands = chars_of(self.locale.thousands());
        let sizes = self.locale.grouping();
        let max = self.limits.max_output_bytes;
        proof {
            reveal_strlit("");
            assert(grouping_of(sizes, thousands@) == self.spec_locale().grouping);
        }
        let assembled = match assemble(&self.layout, sizes, &thousands, max, parts) {
            Ok(a) => a,
            Err(e) => {
                return Err(e);
            },
        };
        match self.locale.numerals() {
            None => Ok(assembled),
            Some(n) => substitute_numerals(&assembled, n, max),
        }
    }

    /// Formats text, for a type `c` formatter.
    pub fn format_text(&self, value: &str) -> (r: Result<String, FormatError>)
        ensures
            match r {
                Ok(s) => spec_format_text(*self, value@) == Ok::<Seq<char>, FormatError>(s@),
                Err(e) => spec_format_text(*self, value@) == Err::<Seq<char>, FormatError>(e),
            },
    {
        self.accept(InputKind::Text)?;
        let mut empty: Vec<char> = Vec::new();
        let parts = ValueParts {
            sign_prefix: Vec::new(),
            value: Vec::new(),
            tail_decimal: Vec::new(),
            tail: chars_of(value),
            si_suffix: Vec::new(),
            close: Vec::new(),
        };
        assert(parts@ == text_parts(value@));
        match self.lay_out(parts) {
            Ok(v) => Ok(string_of(&v)),
            Err(e) => Err(e),
        }
    }

    /// Formats text into `out`, which is cleared first and left empty on error.
    pub fn format_text_into(&self, out: &mut String, value: &str) -> (r: Result<(), FormatError>)
        ensures
            match r {
                Ok(()) => spec_format_text(*self, value@) == Ok::<Seq<char>, FormatError>(
                    final(out)@,
                ),
                Err(e) => spec_format_text(*self, value@) == Err::<Seq<char>, FormatError>(e)
                    && final(out)@ == Seq::<char>::empty(),
            },
    {
        clear_string(out);
        match self.format_text(value) {
            Ok(s) => {
                out.append(s.as_str());
                Ok(())
            },
            Err(e) => Err(e),
        }
    }
}

/// What formatting text yields: only a type `c` formatter takes text, and its
/// text lands where a fractional tail would.
pub open spec fn spec_format_text(f: Formatter, text: Seq<char>) -> Result<Seq<char>, FormatError> {
    if f.spec_input_kind() != InputKind::Text {
        Err(
            FormatError::InputTypeMismatch {
                expected: f.spec_input_kind(),
                actual: InputKind::Text,
            },
        )
    } else {
        spec_lay_out(
            f.spec_layout(),
            f.spec_locale().grouping,
            f.spec_locale().numerals,
            f.spec_limits().max_output_bytes,
            text_parts(text),
        )
    }
}

/// Calls `String::clear`. Trusted to leave `s` with no characters; what becomes
/// of its capacity is left unsaid.
#[verifier::external_body]
fn clear_string(s: &mut String)
    ensures
        final(s)@ == Seq::<char>::empty(),
{
    s.clear();
}

/// Whether `fmt` is what compiling fields `f` against `loc` and `limits` gives,
/// with `extra` as the fixed SI suffix and `scale` as the fixed scale.
pub open spec fn compiled_from(
    fmt: Formatter,
    loc: LocaleModel,
    f: Fields,
    limits: FormatLimits,
    extra: Seq<char>,
    scale: Option<u64>,
) -> bool {
    &&& spec_compile(loc, f, limits, extra) matches Ok((prefix, suffix)) && is_resolution(
        fmt.spec_layout(),
        f,
        prefix,
        suffix,
        scale,
    )
    &&& fmt.spec_locale() == loc
    &&& fmt.spec_specifier() == f
    &&& fmt.spec_limits() == limits
    &&& fmt.spec_input_kind() == resolved_type(f.format_type).spec_input_kind()
}

/// What building a formatter from specifier text yields: the parse error, wrapped,
/// when the text is not in the grammar, and otherwise what compiling the parsed
/// fields yields.
pub open spec fn formatter_outcome(
    r: Result<Formatter, FormatError>,
    loc: LocaleModel,
    text: Seq<char>,
    limits: FormatLimits,
) -> bool {
    match crate::specifier::spec_parse(text) {
        Err(k) => r matches Err(FormatError::InvalidSpecifier(pe)) && pe.spec_input() == text
            && pe.spec_kind() == k,
        Ok(f) => match r {
            Ok(fmt) => compiled_from(fmt, loc, f, limits, Seq::<char>::empty(), None),
            Err(e) => spec_compile(loc, f, limits, Seq::<char>::empty()) == Err::<
                (Seq<char>, Seq<char>),
                FormatError,
            >(e),
        },
    }
}

impl Locale {
    /// Compiles a specifier against this locale, with the default limits.
    pub fn formatter(&self, spec: &str) -> (r: Result<Formatter, FormatError>)
        ensures
            formatter_outcome(r, self@, spec@, FormatLimits {
                max_width_utf16: crate::limits::DEFAULT_MAX_WIDTH_UTF16,
                max_output_bytes: crate::limits::DEFAULT_MAX_OUTPUT_BYTES,
            }),
    {
        self.formatter_with_limits(spec, FormatLimits::default())
    }

    /// Compiles a specifier against this locale, with the caller's limits.
    pub fn formatter_with_limits(&self, spec: &str, limits: FormatLimits) -> (r: Result<
        Formatter,
        FormatError,
    >)
        ensures
            formatter_outcome(r, self@, spec@, limits),
    {
        let specifier = match FormatSpecifier::parse(spec) {
            Ok(s) => s,
            Err(e) => {
                return Err(FormatError::InvalidSpecifier(e));
            },
        };
        proof {
            reveal_strlit("");
        }
        Formatter::compile(self.duplicate(), specifier, limits, None, None)
    }

    /// Compiles an already-parsed specifier, with the default limits: exactly
    /// `formatter(&spec.to_string())`.
    pub fn formatter_for(&self, spec: &FormatSpecifier) -> (r: Result<Formatter, FormatError>)
        ensures
            formatter_outcome(r, self@, crate::specifier::spec_render(spec@), FormatLimits {
                max_width_utf16: crate::limits::DEFAULT_MAX_WIDTH_UTF16,
                max_output_bytes: crate::limits::DEFAULT_MAX_OUTPUT_BYTES,
            }),
    {
        let text = spec.to_string();
        self.formatter(text.as_str())
    }

    /// Compiles an already-parsed specifier, with the caller's limits: exactly
    /// `formatter_with_limits(&spec.to_string(), limits)`.
    pub fn formatter_for_with_limits(&self, spec: &FormatSpecifier, limits: FormatLimits) -> (r:
        Result<Formatter, FormatError>)
        ensures
            formatter_outcome(r, self@, crate::specifier::spec_render(spec@), limits),
    {
        let text = spec.to_string();
        self.formatter_with_limits(text.as_str(), limits)
    }
}

/// The text a number lays out from: the locale's NaN text for a NaN and the
/// conversion otherwise, trimmed of insignificant zeros when the specifier asks.
pub open spec fn spec_number_body(l: Layout, nan: Seq<char>, converted: Option<Seq<char>>) -> Seq<char> {
    let text = match converted {
        Some(t) => t,
        None => nan,
    };
    if l.trim {
        spec_trim(text)
    } else {
        text
    }
}

/// What laying out a number yields, from its sign, its trimmed text, whether that
/// text reads as zero, and the SI exponent its conversion chose.
pub open spec fn spec_format_number(
    f: Formatter,
    negative: bool,
    body: Seq<char>,
    body_is_zero: bool,
    si_exponent: Option<i32>,
) -> Result<Seq<char>, FormatError> {
    if f.spec_input_kind() != InputKind::Number {
        Err(
            FormatError::InputTypeMismatch {
                expected: f.spec_input_kind(),
                actual: InputKind::Number,
            },
        )
    } else {
        spec_lay_out(
            f.spec_layout(),
            f.spec_locale().grouping,
            f.spec_locale().numerals,
            f.spec_limits().max_output_bytes,
            number_parts(
                f.spec_layout(),
                f.spec_locale().decimal,
                f.spec_locale().minus,
                negative,
                body,
                body_is_zero,
                si_exponent,
            ),
        )
    }
}

/// Whatever number a formatter lays out, the result fits the formatter's byte
/// budget, or is refused with an error that names the budget and a size over it.
pub proof fn lemma_number_output_within_budget(
    f: Formatter,
    negative: bool,
    body: Seq<char>,
    body_is_zero: bool,
    si_exponent: Option<i32>,
)
    ensures
        within_budget(
            spec_format_number(f, negative, body, body_is_zero, si_exponent),
            f.spec_limits().max_output_bytes,
        ),
{
    lemma_lay_out_within_budget(
        f.spec_layout(),
        f.spec_locale().grouping,
        f.spec_locale().numerals,
        f.spec_limits().max_output_bytes,
        number_parts(
            f.spec_layout(),
            f.spec_locale().decimal,
            f.spec_locale().minus,
            negative,
            body,
            body_is_zero,
            si_exponent,
        ),
    );
}

/// Whatever text a formatter lays out, the result fits the formatter's byte
/// budget, or is refused with an error that names the budget and a size over it.
pub proof fn lemma_text_output_within_budget(f: Formatter, text: Seq<char>)
    ensures
        within_budget(spec_format_text(f, text), f.spec_limits().max_output_bytes),
{
    lemma_lay_out_within_budget(
        f.spec_layout(),
        f.spec_locale().grouping,
        f.spec_locale().numerals,
        f.spec_limits().max_output_bytes,
        text_parts(text),
    );
}

/// With numerals that hold no ASCII digit, a formatted number holds none: the
/// substitution runs over the fill, the sign, the affixes and the digits alike.
pub proof fn lemma_number_numerals_reach_every_digit(
    f: Formatter,
    negative: bool,
    body: Seq<char>,
    body_is_zero: bool,
    si_exponent: Option<i32>,
)
    requires
        f.spec_locale().numerals matches Some(n) && n.len() == 10 && forall|k: int|
            0 <= k < 10 ==> !has_ascii_digit(#[trigger] n[k]),
    ensures
        spec_format_number(f, negative, body, body_is_zero, si_exponent) matches Ok(out)
            ==> !has_ascii_digit(out),
{
    lemma_lay_out_numerals_reach_every_digit(
        f.spec_layout(),
        f.spec_locale().grouping,
        f.spec_locale().numerals.unwrap(),
        f.spec_limits().max_output_bytes,
        number_parts(
            f.spec_layout(),
            f.spec_locale().decimal,
            f.spec_locale().minus,
            negative,
            body,
            body_is_zero,
            si_exponent,
        ),
    );
}

/// With numerals that hold no ASCII digit, formatted text holds none: even the
/// digits inside the text are substituted.
pub proof fn lemma_text_numerals_reach_every_digit(f: Formatter, text: Seq<char>)
    requires
        f.spec_locale().numerals matches Some(n) && n.len() == 10 && forall|k: int|
            0 <= k < 10 ==> !has_ascii_digit(#[trigger] n[k]),
    ensures
        spec_format_text(f, text) matches Ok(out) ==> !has_ascii_digit(out),
{
    lemma_lay_out_numerals_reach_every_digit(
        f.spec_layout(),
        f.spec_locale().grouping,
        f.spec_locale().numerals.unwrap(),
        f.spec_limits().max_output_bytes,
        text_parts(text),
    );
}

/// A width pads what the same specifier formats without it: compiled from a
/// specifier and from the same specifier without its width (same locale, limits,
/// affix and scale), the two formatters lay out the same number as the unpadded
/// text plus as many fill characters as the width is longer, in UTF-16 code
/// units, where the alignment puts them; zero fill goes after the sign and
/// prefix. Stated for locales without numerals and outside zero fill grouped with
/// a separator.
pub proof fn lemma_width_pads_the_unpadded_number(
    padded_fmt: Formatter,
    plain_fmt: Formatter,
    f: Fields,
    loc: LocaleModel,
    limits: FormatLimits,
    extra: Seq<char>,
    scale: Option<u64>,
    negative: bool,
    body: Seq<char>,
    body_is_zero: bool,
    si_exponent: Option<i32>,
)
    requires
        compiled_from(padded_fmt, loc, f, limits, extra, scale),
        compiled_from(plain_fmt, loc, (Fields { width: None, ..f }), limits, extra, scale),
        crate::specifier::fill_ok(f.fill),
        loc.numerals is None,
        !(zero_fill(f) && (f.comma || f.format_type == FormatType::Grouped) && loc.grouping is Some),
    ensures
        ({
            let l = padded_fmt.spec_layout();
            let parts = number_parts(l, loc.decimal, loc.minus, negative, body, body_is_zero, si_exponent);
            spec_format_number(padded_fmt, negative, body, body_is_zero, si_exponent) matches Ok(out)
                ==> (spec_format_number(plain_fmt, negative, body, body_is_zero, si_exponent) matches Ok(
                natural,
            ) ==> out == crate::layout::padded(
                l.align,
                l.fill,
                (if l.width > crate::text::utf16_len(natural) {
                    l.width - crate::text::utf16_len(natural)
                } else {
                    0
                }) as nat,
                natural,
                parts.sign_prefix.len() + l.prefix@.len(),
            ))
        }),
{
    let l = padded_fmt.spec_layout();
    let u = plain_fmt.spec_layout();
    let g = (Fields { width: None, ..f });
    assert(symbol_prefix(loc, g) == symbol_prefix(loc, f));
    assert(symbol_suffix(loc, g) == symbol_suffix(loc, f));
    assert(crate::layout::same_but_width(l, u));
    assert(u.width == 0);
    assert(crate::text::utf16_units(l.fill) == 1);
    let parts = number_parts(l, loc.decimal, loc.minus, negative, body, body_is_zero, si_exponent);
    assert(number_parts(u, loc.decimal, loc.minus, negative, body, body_is_zero, si_exponent) == parts);
    crate::layout::lemma_lay_out_pads_the_unpadded(
        l,
        u,
        loc.grouping,
        limits.max_output_bytes,
        parts,
    );
}

/// The sign text a number is laid out with, under no width, leads the output and
/// the closing text ends it.
proof fn lemma_number_ends(
    f: Formatter,
    negative: bool,
    body: Seq<char>,
    body_is_zero: bool,
    si_exponent: Option<i32>,
)
    requires
        f.spec_layout().width == 0,
        !crate::layout::has_ascii_digit(
            number_parts(f.spec_layout(), f.spec_locale().decimal, f.spec_locale().minus, negative, body, body_is_zero, si_exponent).sign_prefix,
        ),
        !crate::layout::has_ascii_digit(
            number_parts(f.spec_layout(), f.spec_locale().decimal, f.spec_locale().minus, negative, body, body_is_zero, si_exponent).close,
        ),
    ensures
        ({
            let parts = number_parts(
                f.spec_layout(),
                f.spec_locale().decimal,
                f.spec_locale().minus,
                negative,
                body,
                body_is_zero,
                si_exponent,
            );
            spec_format_number(f, negative, body, body_is_zero, si_exponent) matches Ok(out)
                ==> exists|middle: Seq<char>| out == parts.sign_prefix + middle + parts.close
        }),
{
    crate::layout::lemma_unpadded_starts_with_sign_and_ends_with_close(
        f.spec_layout(),
        f.spec_locale().grouping,
        f.spec_locale().numerals,
        f.spec_limits().max_output_bytes,
        number_parts(
            f.spec_layout(),
            f.spec_locale().decimal,
            f.spec_locale().minus,
            negative,
            body,
            body_is_zero,
            si_exponent,
        ),
    );
}

/// `(`: a negative number whose text does not read as zero is put in
/// parentheses. Laid out without a width, the output opens with `(` and closes
/// with `)`, whatever the locale, affixes and numerals.
pub proof fn lemma_parentheses_wrap_negatives(f: Formatter, body: Seq<char>, si_exponent: Option<i32>)
    requires
        f.spec_layout().sign == Sign::Parens,
        f.spec_layout().width == 0,
    ensures
        spec_format_number(f, true, body, false, si_exponent) matches Ok(out) ==> out.len() >= 2
            && out[0] == '(' && out[out.len() - 1] == ')',
{
    reveal_strlit("(");
    reveal_strlit(")");
    let parts = number_parts(f.spec_layout(), f.spec_locale().decimal, f.spec_locale().minus, true, body, false, si_exponent);
    let (front, back) = (parts.sign_prefix, parts.close);
    assert(front == "("@ && back == ")"@);
    assert(front.len() == 1 && front[0] == '(');
    assert(back.len() == 1 && back[0] == ')');
    assert(!crate::layout::has_ascii_digit(front));
    assert(!crate::layout::has_ascii_digit(back));
    lemma_number_ends(f, true, body, false, si_exponent);
    if let Ok(out) = spec_format_number(f, true, body, false, si_exponent) {
        let middle = choose|middle: Seq<char>| out == front + middle + back;
        assert(out == front + middle + back);
        assert(out[0] == front[0]);
        assert(out[out.len() - 1] == back[0]);
    }
}

/// ` `: a number that is not negative, or whose text reads as zero, is led by one
/// space. Laid out without a width, the output starts with ` `, and under this
/// sign nothing closes it.
pub proof fn lemma_space_leads_non_negatives(
    f: Formatter,
    negative: bool,
    body: Seq<char>,
    body_is_zero: bool,
    si_exponent: Option<i32>,
)
    requires
        f.spec_layout().sign == Sign::Space,
        f.spec_layout().width == 0,
        !negative || body_is_zero,
    ensures
        spec_format_number(f, negative, body, body_is_zero, si_exponent) matches Ok(out) ==> out.len()
            >= 1 && out[0] == ' ',
{
    reveal_strlit(" ");
    let parts = number_parts(f.spec_layout(), f.spec_locale().decimal, f.spec_locale().minus, negative, body, body_is_zero, si_exponent);
    let (front, back) = (parts.sign_prefix, parts.close);
    assert(front == " "@ && back.len() == 0);
    assert(front.len() == 1 && front[0] == ' ');
    assert(!crate::layout::has_ascii_digit(front));
    assert(!crate::layout::has_ascii_digit(back));
    lemma_number_ends(f, negative, body, body_is_zero, si_exponent);
    if let Ok(out) = spec_format_number(f, negative, body, body_is_zero, si_exponent) {
        let middle = choose|middle: Seq<char>| out == front + middle + back;
        assert(out == front + middle + back);
        assert(out[0] == front[0]);
    }
}

/// `+`: a number that is not negative is led by `+`. Laid out without a width,
/// the output starts with `+`.
pub proof fn lemma_plus_leads_non_negatives(
    f: Formatter,
    body: Seq<char>,
    body_is_zero: bool,
    si_exponent: Option<i32>,
)
    requires
        f.spec_layout().sign == Sign::Plus,
        f.spec_layout().width == 0,
    ensures
        spec_format_number(f, false, body, body_is_zero, si_exponent) matches Ok(out) ==> out.len()
            >= 1 && out[0] == '+',
{
    reveal_strlit("+");
    let parts = number_parts(f.spec_layout(), f.spec_locale().decimal, f.spec_locale().minus, false, body, body_is_zero, si_exponent);
    let (front, back) = (parts.sign_prefix, parts.close);
    assert(front == "+"@ && back.len() == 0);
    assert(front.len() == 1 && front[0] == '+');
    assert(!crate::layout::has_ascii_digit(front));
    assert(!crate::layout::has_ascii_digit(back));
    lemma_number_ends(f, false, body, body_is_zero, si_exponent);
    if let Ok(out) = spec_format_number(f, false, body, body_is_zero, si_exponent) {
        let middle = choose|middle: Seq<char>| out == front + middle + back;
        assert(out == front + middle + back);
        assert(out[0] == front[0]);
    }
}

/// `-`, `+` and ` `: a negative number whose text does not read as zero is led by
/// the locale's minus sign (one without ASCII digits). Laid out without a width,
/// the output starts with it.
pub proof fn lemma_minus_leads_negatives(f: Formatter, body: Seq<char>, si_exponent: Option<i32>)
    requires
        f.spec_layout().sign != Sign::Parens,
        f.spec_layout().width == 0,
        !crate::layout::has_ascii_digit(f.spec_locale().minus),
    ensures
        spec_format_number(f, true, body, false, si_exponent) matches Ok(out) ==> out.len()
            >= f.spec_locale().minus.len() && out.take(f.spec_locale().minus.len() as int)
            == f.spec_locale().minus,
{
    let minus = f.spec_locale().minus;
    assert(!crate::layout::has_ascii_digit(Seq::<char>::empty()));
    lemma_number_ends(f, true, body, false, si_exponent);
    if let Ok(out) = spec_format_number(f, true, body, false, si_exponent) {
        let middle = choose|middle: Seq<char>| out == minus + middle + Seq::<char>::empty();
        assert(out == minus + middle + Seq::<char>::empty());
        assert(out.take(minus.len() as int) =~= minus);
    }
}

/// A formatted number is at least as wide as the specifier's width, counted in
/// UTF-16 code units (with numerals of at least one code unit each or none and,
/// where zero fill is grouped, group sizes above zero and a separator of at least
/// one unit).
pub proof fn lemma_number_width_is_a_minimum(
    f: Formatter,
    negative: bool,
    body: Seq<char>,
    body_is_zero: bool,
    si_exponent: Option<i32>,
)
    requires
        f.spec_locale().numerals matches Some(n) ==> n.len() == 10 && forall|k: int|
            0 <= k < 10 ==> crate::text::utf16_len(#[trigger] n[k]) >= 1,
        crate::text::utf16_units(f.spec_layout().fill) == 1,
        f.spec_layout().comma && f.spec_layout().zero ==> crate::layout::grouping_separates(
            f.spec_locale().grouping,
        ),
    ensures
        spec_format_number(f, negative, body, body_is_zero, si_exponent) matches Ok(out)
            ==> crate::text::utf16_len(out) >= f.spec_layout().width,
{
    lemma_lay_out_width_is_a_minimum(
        f.spec_layout(),
        f.spec_locale().grouping,
        f.spec_locale().numerals,
        f.spec_limits().max_output_bytes,
        number_parts(
            f.spec_layout(),
            f.spec_locale().decimal,
            f.spec_locale().minus,
            negative,
            body,
            body_is_zero,
            si_exponent,
        ),
    );
}

impl Formatter {
    /// The text a number lays out from: `converted` (or the locale's NaN text when
    /// it is `None`), trimmed when the specifier asks for `~`.
    pub fn number_body(&self, converted: Option<&str>) -> (s: String)
        ensures
            s@ == spec_number_body(
                self.spec_layout(),
                self.spec_locale().nan,
                match converted {
                    Some(t) => Some(t@),
                    None => None,
                },
            ),
    {
        let text = match converted {
            Some(t) => chars_of(t),
            None => chars_of(self.locale.nan()),
        };
        if self.layout.trim {
            string_of(&trim_chars(&text))
        } else {
            string_of(&text)
        }
    }

    fn sign_text(&self, neg: bool) -> (v: Vec<char>)
        ensures
            v@ == (if neg {
                if self.spec_layout().sign == Sign::Parens {
                    "("@
                } else {
                    self.spec_locale().minus
                }
            } else {
                match self.spec_layout().sign {
                    Sign::Plus => "+"@,
                    Sign::Space => " "@,
                    _ => Seq::<char>::empty(),
                }
            }),
    {
        proof {
            reveal_strlit("");
        }
        if neg {
            if self.layout.sign == Sign::Parens {
                chars_of("(")
            } else {
                chars_of(self.locale.minus())
            }
        } else {
            match self.layout.sign {
                Sign::Plus => chars_of("+"),
                Sign::Space => chars_of(" "),
                _ => chars_of(""),
            }
        }
    }

    /// Lays out a number from its parts: whether it is negative, its trimmed text
    /// (see [`Formatter::number_body`]), whether that text reads as zero, and the SI
    /// exponent its conversion chose.
    pub fn format_number_parts(
        &self,
        negative: bool,
        body: &str,
        body_is_zero: bool,
        si_exponent: Option<i32>,
    ) -> (r: Result<String, FormatError>)
        ensures
            match r {
                Ok(s) => spec_format_number(*self, negative, body@, body_is_zero, si_exponent)
                    == Ok::<Seq<char>, FormatError>(s@),
                Err(e) => spec_format_number(*self, negative, body@, body_is_zero, si_exponent)
                    == Err::<Seq<char>, FormatError>(e),
            },
    {
        self.accept(InputKind::Number)?;
        let neg = negative && !(self.layout.sign != Sign::Plus && body_is_zero);
        let sign_prefix = self.sign_text(neg);
        proof {
            reveal_strlit("");
        }
        let si_suffix = match si_exponent {
            Some(e) => if self.layout.resolved_type == FormatType::SiPrefix {
                chars_of(crate::layout::si_prefix_of(e))
            } else {
                chars_of("")
            },
            None => chars_of(""),
        };
        let close = if neg && self.layout.sign == Sign::Parens {
            chars_of(")")
        } else {
            chars_of("")
        };
        let body_chars = chars_of(body);
        let (value, tail_decimal, tail) = if self.layout.maybe_suffix {
            let decimal = chars_of(self.locale.decimal());
            split_at_first_non_digit(&body_chars, &decimal)
        } else {
            (body_chars, chars_of(""), chars_of(""))
        };
        let parts = ValueParts { sign_prefix, value, tail_decimal, tail, si_suffix, close };
        let ghost np = number_parts(
            self.spec_layout(),
            self.spec_locale().decimal,
            self.spec_locale().minus,
            negative,
            body@,
            body_is_zero,
            si_exponent,
        );
        assert(parts@.sign_prefix == np.sign_prefix);
        assert(parts@.si_suffix == np.si_suffix);
        assert(parts@.close == np.close);
        assert(parts@.value == np.value);
        assert(parts@.tail == np.tail);
        assert(parts@.tail_decimal == np.tail_decimal);
        assert(parts@ == number_parts(
            self.spec_layout(),
            self.spec_locale().decimal,
            self.spec_locale().minus,
            negative,
            body@,
            body_is_zero,
            si_exponent,
        ));
        match self.lay_out(parts) {
            Ok(v) => Ok(string_of(&v)),
            Err(e) => Err(e),
        }
    }

    /// As [`Formatter::format_number_parts`], into `out`, which is cleared first and
    /// left empty on error.
    pub fn format_number_parts_into(
        &self,
        out: &mut String,
        negative: bool,
        body: &str,
        body_is_zero: bool,
        si_exponent: Option<i32>,
    ) -> (r: Result<(), FormatError>)
        ensures
            match r {
                Ok(()) => spec_format_number(*self, negative, body@, body_is_zero, si_exponent)
                    == Ok::<Seq<char>, FormatError>(final(out)@),
                Err(e) => spec_format_number(*self, negative, body@, body_is_zero, si_exponent)
                    == Err::<Seq<char>, FormatError>(e) && final(out)@ == Seq::<char>::empty(),
            },
    {
        clear_string(out);
        match self.format_number_parts(negative, body, body_is_zero, si_exponent) {
            Ok(s) => {
                out.append(s.as_str());
                Ok(())
            },
            Err(e) => Err(e),
        }
    }
}

impl Formatter {
    /// `format(value)` for a number, from the bits of the value after a fixed
    /// prefix's scale and those of its magnitude, multiplied by 100 for `%` and
    /// `p`: the conversion, the zero test that hides the sign of a value that
    /// formats as zero, and the layout.
    pub fn format_scaled_number(&self, scaled_bits: u64, conversion_bits: u64) -> (r: Result<
        String,
        FormatError,
    >)
        ensures
            exists|parts: Result<(bool, String, Option<i32>), FormatError>|
                #![trigger number_text_outcome(*self, scaled_bits, conversion_bits, parts)]
                number_text_outcome(*self, scaled_bits, conversion_bits, parts) && match parts {
                    Err(e) => r == Err::<String, FormatError>(e),
                    Ok((negative, body, si)) => lays_out_parts(*self, negative, body@, si, r),
                },
    {
        let parts = self.number_text(scaled_bits, conversion_bits);
        assert(number_text_outcome(*self, scaled_bits, conversion_bits, parts));
        let r = match parts {
            Err(e) => Err(e),
            Ok((negative, body, si)) => match crate::number_text::formats_as_zero(body.as_str()) {
                Some(zero) => self.format_number_parts(negative, body.as_str(), zero, si),
                None => Err(FormatError::AllocationFailed),
            },
        };
        r
    }
}

/// What a number contributes before layout: whether it is negative
/// (`value < 0 || 1 / value < 0`, false for every NaN), its converted text (the
/// locale's NaN text for a NaN) trimmed when the specifier asks, and type `s`'s
/// SI exponent.
pub open spec fn number_text_outcome(
    f: Formatter,
    scaled_bits: u64,
    conversion_bits: u64,
    res: Result<(bool, String, Option<i32>), FormatError>,
) -> bool {
    let negative = sign_bit(scaled_bits) && !is_nan_bits(scaled_bits);
    if f.spec_input_kind() != InputKind::Number {
        res == Err::<(bool, String, Option<i32>), FormatError>(
            FormatError::InputTypeMismatch {
                expected: f.spec_input_kind(),
                actual: InputKind::Number,
            },
        )
    } else if is_nan_bits(scaled_bits) {
        res matches Ok((n, body, si)) && !n && si is None && body@ == spec_number_body(
            f.spec_layout(),
            f.spec_locale().nan,
            None,
        )
    } else {
        exists|c: Result<(String, Option<i32>), FormatError>|
            #![trigger convert_outcome(f.spec_layout(), conversion_bits, f.spec_limits().max_output_bytes, c)]
            convert_outcome(f.spec_layout(), conversion_bits, f.spec_limits().max_output_bytes, c)
                && match c {
                Ok((t, si)) => res matches Ok((n, body, s)) && n == negative && s == si && body@
                    == spec_number_body(f.spec_layout(), f.spec_locale().nan, Some(t@)),
                Err(e) => res == Err::<(bool, String, Option<i32>), FormatError>(e),
            }
    }
}

/// `r` is the layout of a number's parts, with `body` read as zero exactly when
/// `ToNumber(body)` is zero; or `AllocationFailed` when that test, at the
/// underflow boundary, was refused memory.
pub open spec fn lays_out_parts(
    f: Formatter,
    negative: bool,
    body: Seq<char>,
    si_exponent: Option<i32>,
    r: Result<String, FormatError>,
) -> bool {
    let laid = spec_format_number(f, negative, body, crate::number_text::spec_reads_as_zero(body), si_exponent);
    match r {
        Ok(s) => laid == Ok::<Seq<char>, FormatError>(s@),
        Err(e) => laid == Err::<Seq<char>, FormatError>(e) || (e == FormatError::AllocationFailed
            && crate::number_text::spec_zero_test(body) is None),
    }
}

impl Formatter {
    /// Whether the conversion input is the magnitude multiplied by 100: types `%`
    /// and `p`.
    pub fn scales_by_hundred(&self) -> (b: bool)
        ensures
            b == (self.spec_layout().resolved_type == FormatType::Percent
                || self.spec_layout().resolved_type == FormatType::RoundedPercent),
    {
        match self.layout.resolved_type {
            FormatType::Percent | FormatType::RoundedPercent => true,
            _ => false,
        }
    }

    /// The first half of `format(value)` for a number: the sign decision, the
    /// conversion and the trim. `scaled_bits` are the bits of the value after a
    /// fixed prefix's scale; `conversion_bits` those of its magnitude, multiplied by
    /// 100 for `%` and `p`.
    pub fn number_text(&self, scaled_bits: u64, conversion_bits: u64) -> (r: Result<
        (bool, String, Option<i32>),
        FormatError,
    >)
        ensures
            number_text_outcome(*self, scaled_bits, conversion_bits, r),
    {
        proof {
            use_type_invariant(self);
        }
        self.accept(InputKind::Number)?;
        let nan = crate::decimal::is_nan_exec(scaled_bits);
        if nan {
            let body = self.number_body(None);
            return Ok((false, body, None));
        }
        let negative = scaled_bits >= 0x8000_0000_0000_0000;
        let c = self.layout.convert(conversion_bits, &self.limits);
        let ghost g = c;
        match c {
            Ok((text, si)) => {
                let body = self.number_body(Some(text.as_str()));
                let r: Result<(bool, String, Option<i32>), FormatError> = Ok((negative, body, si));
                assert(convert_outcome(
                    self.spec_layout(),
                    conversion_bits,
                    self.spec_limits().max_output_bytes,
                    g,
                ));
                r
            },
            Err(e) => {
                let r: Result<(bool, String, Option<i32>), FormatError> = Err(e);
                assert(convert_outcome(
                    self.spec_layout(),
                    conversion_bits,
                    self.spec_limits().max_output_bytes,
                    g,
                ));
                r
            },
        }
    }
}

/// What compiling `spec` with a fixed SI prefix gives: the type forced to `f`,
/// the suffix for `si_exponent` (none when it is `None`), and every value scaled
/// by the binary64 value `scale_bits` spell.
pub open spec fn prefix_outcome(
    loc: LocaleModel,
    spec: Seq<char>,
    si_exponent: Option<i32>,
    scale_bits: u64,
    limits: FormatLimits,
    r: Result<Formatter, FormatError>,
) -> bool {
    match crate::specifier::spec_parse(spec) {
        Err(k) => r matches Err(FormatError::InvalidSpecifier(pe)) && pe.spec_input() == spec
            && pe.spec_kind() == k,
        Ok(f) => {
            let g = Fields { format_type: FormatType::Fixed, ..f };
            let extra = match si_exponent {
                Some(e) => spec_si_prefix_of(e as int),
                None => Seq::<char>::empty(),
            };
            match r {
                Ok(fmt) => compiled_from(fmt, loc, g, limits, extra, Some(scale_bits)),
                Err(e) => spec_compile(loc, g, limits, extra) == Err::<
                    (Seq<char>, Seq<char>),
                    FormatError,
                >(e),
            }
        },
    }
}

impl Locale {
    /// Compiles a specifier with a fixed SI prefix: the type is forced to `f`, the
    /// suffix is the prefix for `si_exponent` (none when it is `None`), and the
    /// scale applied to every value is `scale_bits`, the bits of a binary64 value.
    pub fn prefix_formatter_parts(
        &self,
        spec: &str,
        si_exponent: Option<i32>,
        scale_bits: u64,
        limits: FormatLimits,
    ) -> (r: Result<Formatter, FormatError>)
        ensures
            prefix_outcome(self@, spec@, si_exponent, scale_bits, limits, r),
    {
        let specifier = match FormatSpecifier::parse(spec) {
            Ok(s) => s,
            Err(e) => {
                return Err(FormatError::InvalidSpecifier(e));
            },
        };
        let valid = specifier.is_valid();
        let fixed = match specifier.to_builder().format_type(FormatType::Fixed).build() {
            Ok(s) => s,
            Err(e) => {
                assert(crate::specifier::spec_build(Fields { format_type: FormatType::Fixed, ..specifier@ }) is Ok);
                assert(false);
                return Err(FormatError::InvalidSpecifier(e));
            },
        };
        assert(fixed@ == Fields { format_type: FormatType::Fixed, ..specifier@ });
        let suffix: &str = match si_exponent {
            Some(e) => crate::layout::si_prefix_of(e),
            None => "",
        };
        proof {
            reveal_strlit("");
        }
        let ghost extra = match si_exponent {
            Some(e) => spec_si_prefix_of(e as int),
            None => Seq::<char>::empty(),
        };
        assert(suffix@ == extra);
        let loc = self.duplicate();
        let r = Formatter::compile(loc, fixed, limits, Some(suffix), Some(scale_bits));
        assert(loc@ == self@);
        r
    }
}


/// The bits of the quiet NaN a degenerate prefix reference scales by.
pub const QUIET_NAN_BITS: u64 = 0x7FF8_0000_0000_0000;

impl Locale {
    /// `formatPrefix(spec, reference)`, with the default limits: the SI prefix and
    /// the scale come from the reference value whose bits are `reference`.
    pub fn prefix_formatter(&self, spec: &str, reference: u64) -> (r: Result<Formatter, FormatError>)
        ensures
            prefix_from_reference(self@, spec@, reference, FormatLimits {
                max_width_utf16: crate::limits::DEFAULT_MAX_WIDTH_UTF16,
                max_output_bytes: crate::limits::DEFAULT_MAX_OUTPUT_BYTES,
            }, r),
    {
        self.prefix_formatter_with_limits(spec, reference, FormatLimits::default())
    }

    /// `formatPrefix(spec, reference)`, with the caller's limits.
    pub fn prefix_formatter_with_limits(&self, spec: &str, reference: u64, limits: FormatLimits) -> (r:
        Result<Formatter, FormatError>)
        ensures
            prefix_from_reference(self@, spec@, reference, limits, r),
    {
        match crate::decimal::si_prefix_exponent(reference) {
            None => self.prefix_formatter_parts(spec, None, QUIET_NAN_BITS, limits),
            Some(p) => {
                proof {
                    assert(-24 <= p <= 24 && p % 3 == 0);
                }
                let scale = crate::decimal::si_scale_bits((p / 3 + 8) as usize);
                match scale {
                    Some(bits) => {
                        let r = self.prefix_formatter_parts(spec, Some(p), bits, limits);
                        assert(si_prefix_exponent_is(reference, p as int));
                        r
                    },
                    None => {
                        assert(false);
                        self.prefix_formatter_parts(spec, None, QUIET_NAN_BITS, limits)
                    },
                }
            },
        }
    }
}

/// What `formatPrefix(spec, reference)` compiles to: a zero, NaN or infinite
/// reference gives no suffix and a NaN scale; otherwise the reference's SI
/// exponent `p` gives the suffix and the scale `10^-p` from the pinned table.
pub open spec fn prefix_from_reference(
    loc: LocaleModel,
    spec: Seq<char>,
    reference: u64,
    limits: FormatLimits,
    r: Result<Formatter, FormatError>,
) -> bool {
    &&& split_of(reference) is None ==> prefix_outcome(loc, spec, None, QUIET_NAN_BITS, limits, r)
    &&& prefix_outcome(loc, spec, None, QUIET_NAN_BITS, limits, r) || exists|p: int|
        #![trigger si_prefix_exponent_is(reference, p)]
        -24 <= p <= 24 && p % 3 == 0 && si_prefix_exponent_is(reference, p) && prefix_outcome(
            loc,
            spec,
            Some(p as i32),
            si_scale_table(p / 3 + 8),
            limits,
            r,
        )
}

} // verus!
