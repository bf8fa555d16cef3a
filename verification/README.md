# tomli-rust

A TOML reader whose lexer, tokenizer, statement parser, error positions,
tables, datetime parser and datetime text carry contracts proved with Verus.

## Layout

- `src/text.rs`: spans of characters and the UTF-8 facts the rest rests on.
- `src/lexer.rs`: a cursor over the characters of a `&str` (whitespace,
  newlines, comments).
- `src/tokenizer.rs`: bare keys, literal and basic strings, punctuation.
- `src/parser.rs`: the statement parser. Keys are bare or quoted, and may be
  dotted. `[a.b]` headers make nested tables and `[[a.b]]` headers arrays of
  tables; dotted keys make the tables on their way. As in Python's `tomli`, a
  table declared twice, a dotted key that reaches into a table a header
  declared, a key given twice and a header or key over a value are errors.
  Booleans, integers (decimal, and hexadecimal, octal or binary with their
  prefix), one-line strings (basic ones with their escape sequences),
  multi-line literal strings and RFC 3339 datetimes (with `T` or a space
  between date and time) are read; other values (floats, arrays, inline
  tables, multi-line basic strings) are refused with "Invalid or unsupported
  value".
- `src/error.rs`: `TomlError`, with the line and column of each error.
- `src/value.rs`: `Value`, and `Table`, a map kept in increasing key order.
- `src/datetime.rs`: RFC 3339 dates and times (ranges, leap years, offsets),
  read from bytes and written as text.
- `src/playground.rs`: the routing decisions of the playground's web server.
- `app/`: the command-line program, the JavaScript export that turns a parse
  into JSON, and the playground server's socket handling.

Laws are public proof functions whose names start with `law_`.
