# decimal64

Fixed-scale 64-bit decimals with a compile-time scale, verified with Verus.

- `Decimal64<S>` stores a signed value as an `i64` in units of `10^-S`;
  `UDecimal64<S>` does the same with a `u64`.
- `Scientific<D>` wraps either type to read and write scientific notation.

Every arithmetic, rounding, rescaling, parsing and formatting function in `src/`
carries a contract over the raw integer (`d@`) and is proved by Verus; the laws of
the library (text round trips, rounding-mode semantics, lossless rescaling, sign
conversions) are public proof functions.

Layout:

- `src/math.rs` — powers of ten, the rounded quotient that all divisions and
  rescalings are specified by, and the arithmetic laws.
- `src/digits.rs`, `src/text.rs` — digit sequences and the text the formatters write.
- `src/parse.rs`, `src/parse_unsigned.rs` — the decimal grammar and its readers.
- `src/decimal64.rs`, `src/udecimal64.rs`, `src/scientific.rs` — the public types.
- `app/` — what stays outside the verified library: `f64` conversions and serde
  support (through wrapper types that convert to and from the library types).
- `tests/` — executable tests of the library.
