# cfgwow

The core of a schema-driven config editor, verified with Verus.

- `src/text.rs` — Unicode whitespace, trimming and line splitting (the
  behaviour of `str::trim` and `str::lines`), with executable versions.
- `src/order.rs` — the order of `str` (byte-wise over UTF-8) and a
  comparison proved against it.
- `src/string_map.rs` — `StringMap`, a key-sorted map of text keys to text
  values, viewed as a `Map<Seq<char>, Seq<char>>`.
- `src/parsers/` — `Line` and the `key = value` reader `read`.
- `src/config_file.rs` — `render_config`, the text written back to a config
  file, and `expand_tilde_in`.
- `src/schema.rs` — schema types, merging of user schemas over the built-in
  ones, and recognition of schema files.
- `src/state.rs` — `AppState`: staged edits and value resolution.
- `src/round_trip.rs` — the laws that tie reading to writing back.
- `app/lib.rs` — TOML loading of schemas (serde, toml), the schema directory,
  `$HOME`, and the atomic file write.
