//! d3's number-format mini-language: the specifier grammar, locales, compiled
//! formatters and the layout they apply to values.
use vstd::prelude::*;

pub mod bignat;
pub mod decimal;
pub mod formatter;
pub mod grouping;
pub mod layout;
pub mod limits;
pub mod locale;
pub mod number_text;
pub mod precision;
pub mod specifier;
pub mod text;
pub mod types;

pub use crate::formatter::Formatter;
pub use crate::limits::{FormatError, FormatLimits};
pub use crate::precision::{as_precision, precision_fixed, precision_prefix, precision_round};
pub use crate::locale::{Locale, LocaleBuilder, LocaleDefinition, LocaleError};
pub use crate::specifier::{FormatSpecifier, FormatSpecifierBuilder, ParseError, ParseErrorKind};
pub use crate::types::{Align, FormatType, InputKind, Sign, Symbol};

verus! {

} // verus!
