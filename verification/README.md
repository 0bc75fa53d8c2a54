# locat

An ISO 6709 geographic coordinate parser and writer, verified with Verus.

```text
±Latitude±Longitude[±Altitude][CRS<id>]/
```

Latitude and longitude come as decimal degrees (`±DD.DDD`, `±DDD.DDD`),
degrees and minutes (`±DDMM.MMM`, `±DDDMM.MMM`) or degrees, minutes and
seconds (`±DDMMSS.SSS`, `±DDDMMSS.SSS`). Numbers are kept exactly as written
(`Decimal`), and a coordinate is written back in the notation it was read in.

## Layout

- `src/token.rs`: the tokens and the longest-match lexer, specified by `lex`.
- `src/parser.rs`: `parse`, whose result is exactly `parse_spec` of the input bytes.
- `src/types.rs`, `src/error.rs`: coordinates, their parts, errors, and their text
  (an out-of-range amount is written as a decimal where its expansion is finite).
- `src/arith.rs`: sums, small multiples and small divisions of digit strings.
- `src/decimal.rs`, `src/digits.rs`, `src/equality.rs`, `src/text.rs`: exact
  decimals, digit strings, equality by value, and fixed-point writing with
  rounding of halves to even (minutes and seconds that would round up to 60
  keep their own digits).
- `src/unwrap.rs`: `try_unwrap_*` on latitudes and longitudes.
- `src/roundtrip.rs`, `src/readback.rs`, `src/shapes.rs`, `src/ranges.rs`, `src/ending.rs`,
  `src/failures.rs`: the laws: a coordinate in normal form reads back from its
  text, and a text that reads as one (or that is in one of the written forms)
  is written back byte for byte; a
  coordinate is read from one text only; parsed angles are in range; bytes
  after the solidus are refused; errors point into the input.
- `app/lib.rs`: `f64` views of coordinates (decimal degrees, meters) and an
  error type with `std::error::Error`.
