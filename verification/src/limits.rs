//! Allocation limits and the error type formatting reports through.
use vstd::prelude::*;
use vstd::string::*;

use crate::specifier::ParseError;
use crate::text::{dec, push_decimal, string_of};
use crate::types::InputKind;

verus! {

broadcast use vstd::string::group_string_axioms;

/// Bounds on what a single formatting operation may allocate.
#[derive(Debug, Clone, Copy, PartialEq, Eq, Structural, Hash)]
pub struct FormatLimits {
    /// Largest padded width, in UTF-16 code units, a formatter may be built for.
    pub max_width_utf16: u32,
    /// Largest output, in UTF-8 bytes, a single formatting call may produce.
    pub max_output_bytes: usize,
}

/// The default width limit: one million code units.
pub const DEFAULT_MAX_WIDTH_UTF16: u32 = 1_000_000;

/// The default output limit: sixteen mebibytes.
pub const DEFAULT_MAX_OUTPUT_BYTES: usize = 16777216;

impl Default for FormatLimits {
    /// The defaults: one million code units, sixteen mebibytes.
    fn default() -> (l: FormatLimits)
        ensures
            l.max_width_utf16 == DEFAULT_MAX_WIDTH_UTF16,
            l.max_output_bytes == DEFAULT_MAX_OUTPUT_BYTES,
    {
        FormatLimits { max_width_utf16: DEFAULT_MAX_WIDTH_UTF16, max_output_bytes: DEFAULT_MAX_OUTPUT_BYTES }
    }
}

/// Why a formatting operation could not produce a string.
#[derive(Debug, PartialEq, Eq)]
#[non_exhaustive]
pub enum FormatError {
    /// The specifier text is not in the format grammar. Renders as the wrapped
    /// error does.
    InvalidSpecifier(ParseError),
    /// The specifier asks for a padded width above [`FormatLimits::max_width_utf16`].
    WidthLimit {
        /// Width the specifier asked for, in UTF-16 code units.
        requested: u32,
        /// The limit in force.
        maximum: u32,
    },
    /// The output would exceed [`FormatLimits::max_output_bytes`].
    OutputLimit {
        /// Bytes the operation would have needed.
        requested: usize,
        /// The limit in force.
        maximum: usize,
    },
    /// A buffer could not be grown.
    AllocationFailed,
    /// The formatter was handed the kind of input it does not take.
    InputTypeMismatch {
        /// The kind this formatter accepts.
        expected: InputKind,
        /// The kind the caller supplied.
        actual: InputKind,
    },
}

impl Clone for FormatError {
    /// The same error.
    fn clone(&self) -> (c: FormatError)
        ensures
            c == *self,
    {
        match self {
            FormatError::InvalidSpecifier(p) => FormatError::InvalidSpecifier(p.clone()),
            FormatError::WidthLimit { requested, maximum } => FormatError::WidthLimit {
                requested: *requested,
                maximum: *maximum,
            },
            FormatError::OutputLimit { requested, maximum } => FormatError::OutputLimit {
                requested: *requested,
                maximum: *maximum,
            },
            FormatError::AllocationFailed => FormatError::AllocationFailed,
            FormatError::InputTypeMismatch { expected, actual } => FormatError::InputTypeMismatch {
                expected: *expected,
                actual: *actual,
            },
        }
    }
}

/// The message each error renders as.
pub open spec fn error_message(e: FormatError) -> Seq<char> {
    match e {
        FormatError::InvalidSpecifier(p) => "invalid format: "@ + p.spec_input(),
        FormatError::WidthLimit { requested, maximum } => "specifier width "@ + dec(
            requested as nat,
        ) + " is over the "@ + dec(maximum as nat) + " code unit limit"@,
        FormatError::OutputLimit { requested, maximum } => "formatted output would be "@ + dec(
            requested as nat,
        ) + " bytes, over the "@ + dec(maximum as nat) + " byte limit"@,
        FormatError::AllocationFailed => "allocation failed"@,
        FormatError::InputTypeMismatch { expected, actual } => "this formatter takes "@
            + expected.spec_name() + " input, but was given "@ + actual.spec_name() + " input"@,
    }
}

fn push_str(v: &mut Vec<char>, s: &str)
    ensures
        final(v)@ == old(v)@ + s@,
{
    let n = s.unicode_len();
    let mut i: usize = 0;
    while i < n
        invariant
            i <= n,
            n == s@.len(),
            v@ == old(v)@ + s@.take(i as int),
        decreases n - i,
    {
        let c = s.get_char(i);
        v.push(c);
        assert(s@.take(i + 1) =~= s@.take(i as int).push(c));
        i = i + 1;
    }
    assert(s@.take(n as int) =~= s@);
}

impl FormatError {
    /// The message: a parse failure renders as the parse error does, so a
    /// formatter reports exactly the text that parsing reports.
    pub fn to_string(&self) -> (s: String)
        ensures
            s@ == error_message(*self),
    {
        match self {
            FormatError::InvalidSpecifier(error) => error.to_string(),
            FormatError::WidthLimit { requested, maximum } => {
                let mut v: Vec<char> = Vec::new();
                push_str(&mut v, "specifier width ");
                push_decimal(&mut v, *requested as u64);
                push_str(&mut v, " is over the ");
                push_decimal(&mut v, *maximum as u64);
                push_str(&mut v, " code unit limit");
                string_of(&v)
            },
            FormatError::OutputLimit { requested, maximum } => {
                let mut v: Vec<char> = Vec::new();
                push_str(&mut v, "formatted output would be ");
                push_decimal(&mut v, *requested as u64);
                push_str(&mut v, " bytes, over the ");
                push_decimal(&mut v, *maximum as u64);
                push_str(&mut v, " byte limit");
                string_of(&v)
            },
            FormatError::AllocationFailed => String::from_str("allocation failed"),
            FormatError::InputTypeMismatch { expected, actual } => {
                let mut v: Vec<char> = Vec::new();
                push_str(&mut v, "this formatter takes ");
                let e = expected.to_string();
                push_str(&mut v, e.as_str());
                push_str(&mut v, " input, but was given ");
                let a = actual.to_string();
                push_str(&mut v, a.as_str());
                push_str(&mut v, " input");
                string_of(&v)
            },
        }
    }

    /// The error this one wraps: the parse failure behind
    /// [`FormatError::InvalidSpecifier`], and nothing for the others.
    pub fn source(&self) -> (r: Option<&ParseError>)
        ensures
            match *self {
                FormatError::InvalidSpecifier(p) => r == Some(&p),
                _ => r is None,
            },
    {
        match self {
            FormatError::InvalidSpecifier(error) => Some(error),
            _ => None,
        }
    }
}

impl From<ParseError> for FormatError {
    fn from(error: ParseError) -> (e: FormatError) {
        FormatError::InvalidSpecifier(error)
    }
}

impl vstd::std_specs::convert::FromSpecImpl<ParseError> for FormatError {
    open spec fn obeys_from_spec() -> bool {
        true
    }

    open spec fn from_spec(v: ParseError) -> FormatError {
        FormatError::InvalidSpecifier(v)
    }
}

} // verus!
