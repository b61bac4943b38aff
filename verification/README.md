# d3_format

d3's number-format mini-language (`[[fill]align][sign][symbol][0][width][,][.precision][~][type]`),
its locales, and the ECMAScript number conversions it is built on, as a Verus library.

Values cross the library boundary as the bits of a binary64 double: the conversions
(`toFixed`, `toExponential`, `toPrecision`, `Number::toString`, `toLocaleString("en")`,
`Math.round(x).toString(radix)`) are exact integer algorithms over those bits, proved against
specifications of what ECMAScript prints.

## Layout

- `src/specifier.rs` — the specifier grammar, its parser and its canonical rendering.
- `src/types.rs`, `src/limits.rs` — the field enums, the output limits and the error type.
- `src/locale.rs` — locale definitions, validation and the built locale.
- `src/bignat.rs` — the arbitrary-precision naturals the exact conversions run on.
- `src/decimal.rs` — the ECMAScript conversions and d3's `formatDecimal`, `formatRounded`,
  `formatPrefixAuto` and `exponent`.
- `src/number_text.rs` — the `+value === 0` test d3 applies to a formatted string.
- `src/precision.rs` — `precisionFixed`, `precisionRound`, `precisionPrefix`.
- `src/grouping.rs`, `src/layout.rs`, `src/text.rs` — grouping, padding, trimming, numeral
  substitution and UTF-16 measurement.
- `src/formatter.rs` — compiled formatters and the laws that hold of everything they produce.
- `app/` — the `f64` surface: the two double multiplications d3 performs (a fixed prefix's scale
  and the percent factor), formatting a double, and the serde form of a locale definition.
