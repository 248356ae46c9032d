# tstring

Parsers and a formatter for template strings whose static text is JSON or
TOML, where interpolations may stand for whole values, keys, key segments or
fragments of strings. The library is written in Verus: each public function
states its behaviour in `requires` / `ensures` and the proofs are checked.

## Layout

- `src/syntax.rs`: template input, tokens and the character stream, source
  spans, diagnostics and backend errors, normalized values.
- `src/text.rs`: small string helpers.
- `src/cursor.rs`: a cursor over the character stream, shared by the parsers.
- `src/json.rs`: the JSON template parser and its grammar; `check_template`,
  and `format_template`, which writes canonical JSON text.
- `src/formatting.rs`: what both formatters share: interpolations written as
  their raw source, and the error for one that has none.
- `src/toml_grammar.rs`: the TOML template grammar as spec functions.
- `src/toml_backend.rs`: TOML profiles, the syntax tree, string rendering,
  date-time normalization, and the calls into the `toml` crate.
- `src/toml_parser.rs`: the TOML parser, proved against the grammar;
  `parse_template`, `check_template`.
- `src/toml_format.rs`: the canonical TOML formatter, `format_template`.
- `src/parse_cache.rs`: a bounded least-recently-used cache of parse results,
  and parsing of JSON and TOML templates through it.
- `app/`: conversions of parsed `serde_json` / `toml` values into normalized
  values (floats and big integers live there).
- `tests/`: tests that run the compiled library.

Laws proved in `src/` include: each formatter refuses exactly the templates
with an interpolation that has no raw source; a rendered basic string holds no
raw control char and, written as `v = <rendered>`, reads back as the text it
was made from under either profile; a quoted JSON string reads back as its
text and formats to itself; building a template from parts keeps its
texts and interpolations in order; the cache never holds more entries than its
capacity; metadata keeps its entries sorted by key, so errors that carry the
same metadata are equal whatever order it was added in; span merging is
associative; profile names read back as their profiles.
