# json_parser

A strict RFC 8259 JSON parser and serializer, written in Verus and proved against
a mathematical statement of the JSON grammar.

- `parse(input)` returns exactly what the grammar `parser::parse_spec` gives for the
  characters of `input`: the value, or the first error with its 1-based line, 1-based
  column (in characters) and byte offset.
- `to_string` and `to_string_pretty` return exactly the compact and indented texts
  `ser::compact` and `ser::pretty` of a value.
- Numbers keep their original lexeme; `Number::as_i64` / `as_u64` are proved to
  return the integer the lexeme writes, when it fits.

## Layout

- `src/text.rs`: characters, UTF-8 widths, small character classes, decimal text.
- `src/lexer.rs`: the token grammar `lex_at` and the `Lexer` that computes it.
- `src/string.rs`: decoding escape sequences in string literals.
- `src/number.rs`, `src/value.rs`: the value types and their views.
- `src/parser.rs`: the value grammar `parse_spec` and `parse`.
- `src/ser.rs`: the compact and indented texts of a value and their writers.
- `src/error.rs`: error kinds, positions and messages.
- `src/laws.rs`: writing a value and parsing the text gives the value back, for
  both output forms; every parsed value can be written and read back unchanged;
  decoding an escaped string gives the string back; every parsed number is, unchanged,
  the text of a number token of the input.
- `src/layout.rs`: deleting the line feeds and the spaces outside string literals from
  the indented text gives the compact text.
- `src/positions.rs`: every error is reported inside the text, on a line and a
  column counted from 1.
- `app/main.rs`: the command-line filter (stdin to indented stdout).
