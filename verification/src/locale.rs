//! Locales: the definition a caller writes, the builder that validates it, and the
//! immutable resolved value formatters read.
use vstd::prelude::*;
use vstd::string::*;

use crate::text::{dec, push_decimal, string_of};

verus! {

broadcast use vstd::string::group_string_axioms;

/// A locale definition in the shape d3's `locale/*.json` files use.
///
/// Every field is optional and `None` means the key was absent, which is not the
/// same as an empty string: an absent key falls back to d3's default, and grouping
/// is disabled unless both `grouping` and `thousands` are present.
#[derive(Debug, PartialEq, Eq)]
pub struct LocaleDefinition {
    /// The decimal point. Defaults to `.`.
    pub decimal: Option<String>,
    /// The group separator. Grouping needs this *and* `grouping`.
    pub thousands: Option<String>,
    /// Group sizes, innermost first, cycling through the list. Needs `thousands`.
    pub grouping: Option<Vec<u32>>,
    /// The currency prefix and suffix. Both default to empty.
    pub currency: Option<[String; 2]>,
    /// Replacements for the ASCII digits, applied last. Exactly ten.
    pub numerals: Option<[String; 10]>,
    /// The percent sign. Defaults to `%`.
    pub percent: Option<String>,
    /// The minus sign. Defaults to U+2212 MINUS SIGN, not the ASCII hyphen.
    pub minus: Option<String>,
    /// The not-a-number text. Defaults to `NaN`.
    pub nan: Option<String>,
}

/// A definition as plain values.
pub struct DefinitionModel {
    pub decimal: Option<Seq<char>>,
    pub thousands: Option<Seq<char>>,
    pub grouping: Option<Seq<u32>>,
    pub currency: Option<(Seq<char>, Seq<char>)>,
    pub numerals: Option<Seq<Seq<char>>>,
    pub percent: Option<Seq<char>>,
    pub minus: Option<Seq<char>>,
    pub nan: Option<Seq<char>>,
}

/// The definition with every key absent.
pub open spec fn empty_definition() -> DefinitionModel {
    DefinitionModel {
        decimal: None,
        thousands: None,
        grouping: None,
        currency: None,
        numerals: None,
        percent: None,
        minus: None,
        nan: None,
    }
}

pub open spec fn opt_text(s: Option<String>) -> Option<Seq<char>> {
    match s {
        Some(s) => Some(s@),
        None => None,
    }
}

pub open spec fn ten_texts(a: [String; 10]) -> Seq<Seq<char>> {
    Seq::new(10, |i: int| a@[i]@)
}

impl View for LocaleDefinition {
    type V = DefinitionModel;

    open spec fn view(&self) -> DefinitionModel {
        DefinitionModel {
            decimal: opt_text(self.decimal),
            thousands: opt_text(self.thousands),
            grouping: match self.grouping {
                Some(v) => Some(v@),
                None => None,
            },
            currency: match self.currency {
                Some(c) => Some((c@[0]@, c@[1]@)),
                None => None,
            },
            numerals: match self.numerals {
                Some(n) => Some(ten_texts(n)),
                None => None,
            },
            percent: opt_text(self.percent),
            minus: opt_text(self.minus),
            nan: opt_text(self.nan),
        }
    }
}

/// A copy of an optional text.
fn clone_text(t: &Option<String>) -> (r: Option<String>)
    ensures
        opt_text(r) == opt_text(*t),
{
    match t {
        Some(s) => Some(s.clone()),
        None => None,
    }
}

/// A copy of a list of group sizes.
fn copy_sizes(v: &Vec<u32>) -> (r: Vec<u32>)
    ensures
        r@ == v@,
{
    let mut sizes: Vec<u32> = Vec::new();
    let mut i: usize = 0;
    while i < v.len()
        invariant
            i <= v@.len(),
            sizes@ == v@.take(i as int),
        decreases v@.len() - i,
    {
        sizes.push(v[i]);
        assert(v@.take(i + 1) =~= v@.take(i as int).push(v@[i as int]));
        i = i + 1;
    }
    assert(v@.take(v@.len() as int) =~= v@);
    sizes
}

impl Clone for LocaleDefinition {
    /// The same keys with the same values.
    fn clone(&self) -> (c: LocaleDefinition)
        ensures
            c@ == self@,
    {
        let currency = match &self.currency {
            Some(c) => {
                let pair = [c[0].clone(), c[1].clone()];
                assert(pair@[0] == c@[0] && pair@[1] == c@[1]);
                Some(pair)
            },
            None => None,
        };
        let numerals = match &self.numerals {
            Some(n) => {
                let ten = [
                    n[0].clone(),
                    n[1].clone(),
                    n[2].clone(),
                    n[3].clone(),
                    n[4].clone(),
                    n[5].clone(),
                    n[6].clone(),
                    n[7].clone(),
                    n[8].clone(),
                    n[9].clone(),
                ];
                assert(ten_texts(ten) =~= ten_texts(*n)) by {
                    assert forall|i: int| 0 <= i < 10 implies ten@[i] == n@[i] by {
                        assert(ten@[0] == n@[0]);
                        assert(ten@[1] == n@[1]);
                        assert(ten@[2] == n@[2]);
                        assert(ten@[3] == n@[3]);
                        assert(ten@[4] == n@[4]);
                        assert(ten@[5] == n@[5]);
                        assert(ten@[6] == n@[6]);
                        assert(ten@[7] == n@[7]);
                        assert(ten@[8] == n@[8]);
                        assert(ten@[9] == n@[9]);
                    }
                }
                Some(ten)
            },
            None => None,
        };
        LocaleDefinition {
            decimal: clone_text(&self.decimal),
            thousands: clone_text(&self.thousands),
            grouping: match &self.grouping {
                Some(v) => Some(copy_sizes(v)),
                None => None,
            },
            currency,
            numerals,
            percent: clone_text(&self.percent),
            minus: clone_text(&self.minus),
            nan: clone_text(&self.nan),
        }
    }
}

impl Default for LocaleDefinition {
    /// The definition with every key absent.
    fn default() -> (d: LocaleDefinition)
        ensures
            d.decimal is None,
            d.thousands is None,
            d.grouping is None,
            d.currency is None,
            d.numerals is None,
            d.percent is None,
            d.minus is None,
            d.nan is None,
    {
        LocaleDefinition {
            decimal: None,
            thousands: None,
            grouping: None,
            currency: None,
            numerals: None,
            percent: None,
            minus: None,
            nan: None,
        }
    }
}

/// Why a locale definition was refused.
#[derive(Debug, Clone, Copy, PartialEq, Eq, Structural)]
#[non_exhaustive]
pub enum LocaleError {
    /// A grouping size was zero, which would never consume a digit.
    ZeroGroupingSize {
        /// Position of the offending entry in the grouping list.
        index: usize,
    },
}

impl LocaleError {
    /// The message: `grouping size at index {index} is zero, which would never
    /// consume a digit`.
    pub fn to_string(&self) -> (s: String)
        ensures
            s@ == (match *self {
                LocaleError::ZeroGroupingSize { index } => "grouping size at index "@ + dec(
                    index as nat,
                ) + " is zero, which would never consume a digit"@,
            }),
    {
        match self {
            LocaleError::ZeroGroupingSize { index } => {
                let head = String::from_str("grouping size at index ");
                let mut v: Vec<char> = Vec::new();
                push_decimal(&mut v, *index as u64);
                let digits = string_of(&v);
                let s = head.concat(digits.as_str());
                s.concat(" is zero, which would never consume a digit")
            },
        }
    }
}

/// The resolved locale, as plain values.
pub struct LocaleModel {
    pub decimal: Seq<char>,
    /// The group sizes and the separator, present only when grouping is on.
    pub grouping: Option<(Seq<u32>, Seq<char>)>,
    pub currency_prefix: Seq<char>,
    pub currency_suffix: Seq<char>,
    pub numerals: Option<Seq<Seq<char>>>,
    pub percent: Seq<char>,
    pub minus: Seq<char>,
    pub nan: Seq<char>,
}

/// The first zero in a list of group sizes.
pub open spec fn first_zero(sizes: Seq<u32>) -> Option<int> {
    if exists|i: int| 0 <= i < sizes.len() && sizes[i] == 0 {
        Some(choose|i: int| 0 <= i < sizes.len() && sizes[i] == 0 && forall|j: int| 0 <= j < i ==> sizes[j] != 0)
    } else {
        None
    }
}

pub open spec fn or_default(s: Option<Seq<char>>, d: Seq<char>) -> Seq<char> {
    match s {
        Some(s) => s,
        None => d,
    }
}

/// What building a definition yields: a zero size anywhere in the list is refused,
/// with or without a separator; grouping is on when both keys are present and the
/// list is not empty; every other absent key takes d3's default.
pub open spec fn spec_build_locale(d: DefinitionModel) -> Result<LocaleModel, LocaleError> {
    let zero = match d.grouping {
        Some(sizes) => first_zero(sizes),
        None => None,
    };
    match zero {
        Some(i) => Err(LocaleError::ZeroGroupingSize { index: i as usize }),
        None => Ok(
            LocaleModel {
                decimal: or_default(d.decimal, "."@),
                grouping: match (d.grouping, d.thousands) {
                    (Some(sizes), Some(t)) => if sizes.len() > 0 {
                        Some((sizes, t))
                    } else {
                        None
                    },
                    _ => None,
                },
                currency_prefix: match d.currency {
                    Some(c) => c.0,
                    None => Seq::<char>::empty(),
                },
                currency_suffix: match d.currency {
                    Some(c) => c.1,
                    None => Seq::<char>::empty(),
                },
                numerals: d.numerals,
                percent: or_default(d.percent, "%"@),
                minus: or_default(d.minus, "\u{2212}"@),
                nan: or_default(d.nan, "NaN"@),
            },
        ),
    }
}

/// A group separator together with the sizes it separates.
#[derive(Debug, PartialEq, Eq)]
struct Grouping {
    sizes: Vec<u32>,
    thousands: String,
}

/// An immutable, validated locale.
#[derive(Debug, PartialEq, Eq)]
pub struct Locale {
    decimal: String,
    grouping: Option<Grouping>,
    currency: [String; 2],
    numerals: Option<[String; 10]>,
    percent: String,
    minus: String,
    nan: String,
}

impl View for Locale {
    type V = LocaleModel;

    closed spec fn view(&self) -> LocaleModel {
        LocaleModel {
            decimal: self.decimal@,
            grouping: match self.grouping {
                Some(g) => Some((g.sizes@, g.thousands@)),
                None => None,
            },
            currency_prefix: self.currency@[0]@,
            currency_suffix: self.currency@[1]@,
            numerals: match self.numerals {
                Some(n) => Some(ten_texts(n)),
                None => None,
            },
            percent: self.percent@,
            minus: self.minus@,
            nan: self.nan@,
        }
    }
}

/// What every locale keeps: group sizes are positive and there is at least one.
pub open spec fn locale_valid(m: LocaleModel) -> bool {
    match m.grouping {
        Some((sizes, _)) => sizes.len() > 0 && forall|i: int| 0 <= i < sizes.len() ==> sizes[i] > 0,
        None => true,
    }
}

/// Every definition that builds gives a locale whose grouping, when it has one,
/// is a non-empty list of positive sizes: the grouping walk always advances.
pub proof fn lemma_built_locale_is_valid(d: DefinitionModel)
    ensures
        spec_build_locale(d) matches Ok(m) ==> locale_valid(m),
{
    if let Some(sizes) = d.grouping {
        if first_zero(sizes) is None {
            assert forall|i: int| 0 <= i < sizes.len() implies sizes[i] > 0 by {
                if sizes[i] == 0 {
                    assert(exists|j: int| 0 <= j < sizes.len() && sizes[j] == 0);
                }
            }
        }
    }
}

/// The builder `b` after each key that `d` holds has been set on it, one
/// setter call per key, in the order the builder lists them.
pub open spec fn with_keys(b: DefinitionModel, d: DefinitionModel) -> DefinitionModel {
    let b1 = if d.decimal is Some { DefinitionModel { decimal: d.decimal, ..b } } else { b };
    let b2 = if d.thousands is Some { DefinitionModel { thousands: d.thousands, ..b1 } } else { b1 };
    let b3 = if d.grouping is Some { DefinitionModel { grouping: d.grouping, ..b2 } } else { b2 };
    let b4 = if d.currency is Some { DefinitionModel { currency: d.currency, ..b3 } } else { b3 };
    let b5 = if d.numerals is Some { DefinitionModel { numerals: d.numerals, ..b4 } } else { b4 };
    let b6 = if d.percent is Some { DefinitionModel { percent: d.percent, ..b5 } } else { b5 };
    let b7 = if d.minus is Some { DefinitionModel { minus: d.minus, ..b6 } } else { b6 };
    if d.nan is Some {
        DefinitionModel { nan: d.nan, ..b7 }
    } else {
        b7
    }
}

/// Where a list holds a zero, it holds a first one.
proof fn lemma_first_zero_exists(sizes: Seq<u32>, k: int)
    requires
        0 <= k < sizes.len(),
        sizes[k] == 0,
    ensures
        exists|i: int|
            0 <= i < sizes.len() && sizes[i] == 0 && forall|j: int| 0 <= j < i ==> sizes[j] != 0,
    decreases k,
{
    if forall|j: int| 0 <= j < k ==> sizes[j] != 0 {
        assert(0 <= k < sizes.len() && sizes[k] == 0 && forall|j: int| 0 <= j < k ==> sizes[j] != 0);
    } else {
        let j = choose|j: int| 0 <= j < k && sizes[j] == 0;
        lemma_first_zero_exists(sizes, j);
    }
}

/// A definition builds exactly as a fresh builder with each of its keys set:
/// `Locale::from_definition(def)` is `Locale::builder()` with every key `def`
/// holds set to that value, then `build()`. A zero grouping size is refused,
/// naming its first position, whether or not a separator is set.
pub proof fn lemma_from_definition_is_the_builder(d: DefinitionModel)
    requires
        d.grouping matches Some(sizes) ==> sizes.len() <= usize::MAX,
    ensures
        with_keys(empty_definition(), d) == d,
        spec_build_locale(with_keys(empty_definition(), d)) == spec_build_locale(d),
        (spec_build_locale(d) is Err) <==> (d.grouping matches Some(sizes) && first_zero(sizes) is Some),
        spec_build_locale(d) matches Err(LocaleError::ZeroGroupingSize { index }) ==> first_zero(
            d.grouping.unwrap(),
        ) == Some(index as int),
{
    assert(with_keys(empty_definition(), d) == d);
    if let Some(sizes) = d.grouping {
        if first_zero(sizes) is Some {
            let k = choose|k: int| 0 <= k < sizes.len() && sizes[k] == 0;
            lemma_first_zero_exists(sizes, k);
            let i = first_zero(sizes).unwrap();
            assert(0 <= i < sizes.len());
            assert((i as usize) as int == i);
        }
    }
}

impl Clone for Locale {
    /// The same locale.
    fn clone(&self) -> (l: Locale)
        ensures
            l@ == self@,
    {
        self.duplicate()
    }
}

impl Locale {
    /// d3's default locale: `.`, `,`, `[3]` and a `$` currency prefix.
    pub fn en_us() -> (l: Locale)
        ensures
            l@.decimal == "."@,
            l@.grouping == Some((seq![3u32], ","@)),
            l@.currency_prefix == "$"@,
            l@.currency_suffix == Seq::<char>::empty(),
            l@.numerals is None,
            l@.percent == "%"@,
            l@.minus == "\u{2212}"@,
            l@.nan == "NaN"@,
    {
        let mut sizes: Vec<u32> = Vec::new();
        sizes.push(3);
        assert(sizes@ == seq![3u32]);
        Locale {
            decimal: String::from_str("."),
            grouping: Some(Grouping { sizes, thousands: String::from_str(",") }),
            currency: [String::from_str("$"), String::new()],
            numerals: None,
            percent: String::from_str("%"),
            minus: String::from_str("\u{2212}"),
            nan: String::from_str("NaN"),
        }
    }

    /// A builder holding d3's defaults for every key.
    pub fn builder() -> (b: LocaleBuilder)
        ensures
            b@ == empty_definition(),
    {
        LocaleBuilder::new()
    }

    /// Validates a definition and freezes it.
    pub fn from_definition(value: LocaleDefinition) -> (r: Result<Locale, LocaleError>)
        ensures
            match r {
                Ok(l) => spec_build_locale(value@) == Ok::<LocaleModel, LocaleError>(l@),
                Err(e) => spec_build_locale(value@) == Err::<LocaleModel, LocaleError>(e),
            },
    {
        LocaleBuilder { definition: value }.build()
    }

    /// A copy of this locale.
    pub fn duplicate(&self) -> (l: Locale)
        ensures
            l@ == self@,
    {
        let grouping = match &self.grouping {
            Some(g) => {
                let mut sizes: Vec<u32> = Vec::new();
                let mut i: usize = 0;
                while i < g.sizes.len()
                    invariant
                        i <= g.sizes@.len(),
                        sizes@ == g.sizes@.take(i as int),
                    decreases g.sizes@.len() - i,
                {
                    sizes.push(g.sizes[i]);
                    assert(g.sizes@.take(i + 1) =~= g.sizes@.take(i as int).push(g.sizes@[i as int]));
                    i = i + 1;
                }
                assert(g.sizes@.take(i as int) =~= g.sizes@);
                Some(Grouping { sizes, thousands: g.thousands.clone() })
            },
            None => None,
        };
        let numerals = match &self.numerals {
            Some(n) => {
                let copy = [
                    n[0].clone(),
                    n[1].clone(),
                    n[2].clone(),
                    n[3].clone(),
                    n[4].clone(),
                    n[5].clone(),
                    n[6].clone(),
                    n[7].clone(),
                    n[8].clone(),
                    n[9].clone(),
                ];
                assert(ten_texts(copy) =~= ten_texts(*n));
                Some(copy)
            },
            None => None,
        };
        Locale {
            decimal: self.decimal.clone(),
            grouping,
            currency: [self.currency[0].clone(), self.currency[1].clone()],
            numerals,
            percent: self.percent.clone(),
            minus: self.minus.clone(),
            nan: self.nan.clone(),
        }
    }

    /// The decimal point.
    pub fn decimal(&self) -> (s: &str)
        ensures
            s@ == self@.decimal,
    {
        self.decimal.as_str()
    }

    /// The group separator, or `""` when grouping is disabled.
    pub fn thousands(&self) -> (s: &str)
        ensures
            s@ == (match self@.grouping {
                Some((_, t)) => t,
                None => Seq::<char>::empty(),
            }),
    {
        proof {
            reveal_strlit("");
        }
        match &self.grouping {
            Some(g) => g.thousands.as_str(),
            None => "",
        }
    }

    /// The group sizes, or `None` when grouping is disabled.
    pub fn grouping(&self) -> (r: Option<&[u32]>)
        ensures
            match self@.grouping {
                Some((sizes, _)) => r matches Some(s) && s@ == sizes,
                None => r is None,
            },
    {
        match &self.grouping {
            Some(g) => Some(g.sizes.as_slice()),
            None => None,
        }
    }

    /// The currency prefix.
    pub fn currency_prefix(&self) -> (s: &str)
        ensures
            s@ == self@.currency_prefix,
    {
        self.currency[0].as_str()
    }

    /// The currency suffix.
    pub fn currency_suffix(&self) -> (s: &str)
        ensures
            s@ == self@.currency_suffix,
    {
        self.currency[1].as_str()
    }

    /// The ten digit replacements, or `None` when the locale uses ASCII digits.
    pub fn numerals(&self) -> (r: Option<&[String; 10]>)
        ensures
            match self@.numerals {
                Some(n) => r matches Some(a) && ten_texts(*a) == n,
                None => r is None,
            },
    {
        match &self.numerals {
            Some(n) => Some(n),
            None => None,
        }
    }

    /// The percent sign.
    pub fn percent(&self) -> (s: &str)
        ensures
            s@ == self@.percent,
    {
        self.percent.as_str()
    }

    /// The minus sign.
    pub fn minus(&self) -> (s: &str)
        ensures
            s@ == self@.minus,
    {
        self.minus.as_str()
    }

    /// The not-a-number text.
    pub fn nan(&self) -> (s: &str)
        ensures
            s@ == self@.nan,
    {
        self.nan.as_str()
    }
}

/// A text argument: a `&str` or a `String`.
pub trait IntoText {
    spec fn text_view(&self) -> Seq<char>;

    fn into_text(self) -> (s: String)
        ensures
            s@ == self.text_view(),
    ;
}

impl IntoText for &str {
    open spec fn text_view(&self) -> Seq<char> {
        (*self)@
    }

    fn into_text(self) -> (s: String) {
        String::from_str(self)
    }
}

impl IntoText for String {
    open spec fn text_view(&self) -> Seq<char> {
        self@
    }

    fn into_text(self) -> (s: String) {
        self
    }
}

/// A list of group sizes: an array or a `Vec`.
pub trait IntoSizes {
    spec fn sizes_view(&self) -> Seq<u32>;

    fn into_sizes(self) -> (v: Vec<u32>)
        ensures
            v@ == self.sizes_view(),
    ;
}

impl IntoSizes for Vec<u32> {
    open spec fn sizes_view(&self) -> Seq<u32> {
        self@
    }

    fn into_sizes(self) -> (v: Vec<u32>) {
        self
    }
}

impl<const N: usize> IntoSizes for [u32; N] {
    open spec fn sizes_view(&self) -> Seq<u32> {
        self@
    }

    fn into_sizes(self) -> (v: Vec<u32>) {
        let mut v: Vec<u32> = Vec::new();
        let mut i: usize = 0;
        while i < N
            invariant
                i <= N,
                N == self@.len(),
                v@ == self@.take(i as int),
            decreases N - i,
        {
            v.push(self[i]);
            assert(self@.take(i + 1) =~= self@.take(i as int).push(self@[i as int]));
            i = i + 1;
        }
        assert(self@.take(N as int) =~= self@);
        v
    }
}

/// Builds a [`Locale`] one key at a time, starting from every key absent.
#[derive(Debug, PartialEq, Eq)]
pub struct LocaleBuilder {
    pub(crate) definition: LocaleDefinition,
}

impl Default for LocaleBuilder {
    fn default() -> (b: LocaleBuilder)
        ensures
            b@ == empty_definition(),
    {
        LocaleBuilder::new()
    }
}

impl View for LocaleBuilder {
    type V = DefinitionModel;

    closed spec fn view(&self) -> DefinitionModel {
        self.definition@
    }
}

impl Clone for LocaleBuilder {
    /// A builder holding the same keys.
    fn clone(&self) -> (c: LocaleBuilder)
        ensures
            c@ == self@,
    {
        LocaleBuilder { definition: self.definition.clone() }
    }
}

impl LocaleBuilder {
    /// A builder with every key absent.
    pub fn new() -> (b: LocaleBuilder)
        ensures
            b@ == empty_definition(),
    {
        LocaleBuilder {
            definition: LocaleDefinition {
                decimal: None,
                thousands: None,
                grouping: None,
                currency: None,
                numerals: None,
                percent: None,
                minus: None,
                nan: None,
            },
        }
    }

    /// Sets the decimal point.
    pub fn decimal<T: IntoText>(self, value: T) -> (b: LocaleBuilder)
        ensures
            b@ == (DefinitionModel { decimal: Some(value.text_view()), ..self@ }),
    {
        let mut d = self.definition;
        d.decimal = Some(value.into_text());
        LocaleBuilder { definition: d }
    }

    /// Sets the group separator. Grouping also needs
    /// [`grouping`](LocaleBuilder::grouping).
    pub fn thousands<T: IntoText>(self, value: T) -> (b: LocaleBuilder)
        ensures
            b@ == (DefinitionModel { thousands: Some(value.text_view()), ..self@ }),
    {
        let mut d = self.definition;
        d.thousands = Some(value.into_text());
        LocaleBuilder { definition: d }
    }

    /// Sets the group sizes. An empty list disables grouping; a zero size is
    /// refused by [`build`](LocaleBuilder::build).
    pub fn grouping<T: IntoSizes>(self, value: T) -> (b: LocaleBuilder)
        ensures
            b@ == (DefinitionModel { grouping: Some(value.sizes_view()), ..self@ }),
    {
        let mut d = self.definition;
        d.grouping = Some(value.into_sizes());
        LocaleBuilder { definition: d }
    }

    /// Sets the currency affixes.
    pub fn currency<P: IntoText, S: IntoText>(self, prefix: P, suffix: S) -> (b: LocaleBuilder)
        ensures
            b@ == (DefinitionModel {
                currency: Some((prefix.text_view(), suffix.text_view())),
                ..self@
            }),
    {
        let mut d = self.definition;
        let p = prefix.into_text();
        let s = suffix.into_text();
        let pair = [p, s];
        d.currency = Some(pair);
        LocaleBuilder { definition: d }
    }

    /// Sets the ten digit replacements.
    pub fn numerals(self, value: [String; 10]) -> (b: LocaleBuilder)
        ensures
            b@ == (DefinitionModel { numerals: Some(ten_texts(value)), ..self@ }),
    {
        let mut d = self.definition;
        d.numerals = Some(value);
        LocaleBuilder { definition: d }
    }

    /// Sets the percent sign.
    pub fn percent<T: IntoText>(self, value: T) -> (b: LocaleBuilder)
        ensures
            b@ == (DefinitionModel { percent: Some(value.text_view()), ..self@ }),
    {
        let mut d = self.definition;
        d.percent = Some(value.into_text());
        LocaleBuilder { definition: d }
    }

    /// Sets the minus sign.
    pub fn minus<T: IntoText>(self, value: T) -> (b: LocaleBuilder)
        ensures
            b@ == (DefinitionModel { minus: Some(value.text_view()), ..self@ }),
    {
        let mut d = self.definition;
        d.minus = Some(value.into_text());
        LocaleBuilder { definition: d }
    }

    /// Sets the not-a-number text.
    pub fn nan<T: IntoText>(self, value: T) -> (b: LocaleBuilder)
        ensures
            b@ == (DefinitionModel { nan: Some(value.text_view()), ..self@ }),
    {
        let mut d = self.definition;
        d.nan = Some(value.into_text());
        LocaleBuilder { definition: d }
    }

    /// Validates the definition and freezes it into a [`Locale`].
    pub fn build(self) -> (r: Result<Locale, LocaleError>)
        ensures
            match r {
                Ok(l) => spec_build_locale(self@) == Ok::<LocaleModel, LocaleError>(l@),
                Err(e) => spec_build_locale(self@) == Err::<LocaleModel, LocaleError>(e),
            },
    {
        let ghost dm = self@;
        let LocaleDefinition { decimal, thousands, grouping, currency, numerals, percent, minus, nan } =
            self.definition;
        if let Some(sizes) = &grouping {
            match find_zero(sizes) {
                Some(index) => {
                    return Err(LocaleError::ZeroGroupingSize { index });
                },
                None => {},
            }
        }
        let grouping = match (grouping, thousands) {
            (Some(sizes), Some(thousands)) => {
                if sizes.len() == 0 {
                    None
                } else {
                    Some(Grouping { sizes, thousands })
                }
            },
            _ => None,
        };
        let currency = match currency {
            Some(c) => c,
            None => [String::new(), String::new()],
        };
        let decimal = match decimal {
            Some(s) => s,
            None => String::from_str("."),
        };
        let percent = match percent {
            Some(s) => s,
            None => String::from_str("%"),
        };
        let minus = match minus {
            Some(s) => s,
            None => String::from_str("\u{2212}"),
        };
        let nan = match nan {
            Some(s) => s,
            None => String::from_str("NaN"),
        };
        let l = Locale { decimal, grouping, currency, numerals, percent, minus, nan };
        assert(l@ == spec_build_locale(dm).unwrap()) by {
            assert(l@.currency_prefix == spec_build_locale(dm).unwrap().currency_prefix);
        }
        Ok(l)
    }
}

/// The first zero in `sizes`, if any.
fn find_zero(sizes: &Vec<u32>) -> (r: Option<usize>)
    ensures
        match r {
            Some(i) => first_zero(sizes@) == Some(i as int),
            None => first_zero(sizes@) is None,
        },
{
    let mut i: usize = 0;
    while i < sizes.len()
        invariant
            i <= sizes.len(),
            forall|j: int| 0 <= j < i ==> sizes@[j] != 0,
        decreases sizes.len() - i,
    {
        if sizes[i] == 0 {
            proof {
                let k = choose|k: int| 0 <= k < sizes@.len() && sizes@[k] == 0 && forall|j: int|
                    0 <= j < k ==> sizes@[j] != 0;
                assert(0 <= i < sizes@.len() && sizes@[i as int] == 0);
                if k < i {
                } else if k > i {
                }
            }
            return Some(i);
        }
        i = i + 1;
    }
    None
}

} // verus!
