# access_log_parser

Converts Apache/Nginx Combined Log Format records to CSV. The parser is a
byte-oriented lexer; every step of it is verified with Verus against a
specification of what the line means.

Layout:

- `src/lexer.rs` — the lexer and the specification of each lexing step
  (unquoted, bracketed and quoted fields, separators, the end of a line).
- `src/line.rs` — `parse_line` and its specification `spec_parse_line`, split
  at the timestamp into `parse_head` and `finish_line`.
- `src/text.rs` — UTF-8 validation (the offset of the first invalid byte) and
  decoding, over the UTF-8 model of `vstd`.
- `src/target.rs` — splitting a request target into path, extension and query.
- `src/timestamp.rs` — the call into chrono that normalises timestamps to UTC.
- `src/record.rs`, `src/error.rs`, `src/decimal.rs` — the record and its CSV
  cells, the error type, decimal rendering and reading.
- `src/reader.rs`, `src/failure.rs` — line endings, what a rejected line means
  for a run, and how write failures end it.
- `src/laws.rs` — properties of the parser over all inputs.
- `app/main.rs` — the command-line program: arguments, files, CSV output.
