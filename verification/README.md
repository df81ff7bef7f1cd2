# sizespan

Parsing and formatting of byte sizes (`1.5 MiB`, `2048`, `1kb`) and
durations (`1h30m`, `500ms`), with every parser and formatter proved
against its specification.

Layout:

- `src/text.rs`: Unicode white space and trimming, ASCII lower-casing.
- `src/float.rs`: rounding to double precision and half-to-even rounding,
  modelled on integers.
- `src/numeral.rs`: the strict numeral grammar (digits and at most one `.`),
  a numeral's exact value times a unit, and the same product in double
  precision.
- `src/bytes.rs`: `ByteSize`: parsing with binary and decimal units,
  formatting in binary units, and the laws that tie them together (a
  formatted size parses back to within a hundredth of its unit).
- `src/duration.rs`: `parse_duration`, `format_duration`, and the proofs
  that formatting then parsing gives the duration back (whenever its days
  times a day's milliseconds are exact in `f64`, as below 2^53 ms),
  that the text tells every two millisecond counts apart, and that letter
  case and surrounding white space do not change a duration.
- `src/cli.rs`: the command-line decisions that need no I/O (subcommand,
  `--json` flag, JSON text), and the proof that escaped text reads back as
  a JSON string.
- `app/main.rs`: the command-line program around the library.

A numeral is read as the nearest double-precision value, multiplied by
its unit with one more rounding to a double, and rounded half away from
zero, as a program doing the same work in `f64` would do: `0.5005kB` is
500 bytes. The exact decimal value decides overflow: a size whose exact
value is above `u64::MAX` is refused. `src/float.rs` holds the model of
that arithmetic in integers.
