# llm_json_formatter

A JSON formatter for language-model prompts, written in Verus. Records that
look like entities (items of an array whose texts are short) stay on one line
while the structure around them is expanded, which saves tokens against the
usual indented layout. It also extracts compact type schemas, indexes the
paths of a document, reports structure figures and writes a prompt that asks
a model to name the entity paths.

## Layout

- `src/` — the verified library.
  - `value.rs`: the document type `JsonValue`, its model `Json`, and the
    compact and indented serialisations.
  - `parse.rs`: reading JSON text through `serde_json`; with the character
    append of `text.rs`, the only code whose contract is trusted rather
    than proved.
  - `formatter.rs`: configuration, key sorting, the smart layout, metadata
    and the prompt.
  - `stats.rs`: per-path statistics (lengths, samples, 90th percentile).
  - `index.rs`: the path index (`search`, `list_paths`).
  - `schema.rs`, `heuristics.rs`: type signatures, map detection, schemas.
  - `entities.rs`: reading a list of entity paths from an argument.
  - `sort.rs`, `table.rs`, `text.rs`: sorting, keyed tables, text helpers.
  - `layout.rs`, `laws.rs`: properties of the library as a whole, among them
    that the smart and indented layouts differ from the compact text only in
    whitespace between tokens, and that sorting is idempotent.
- `tests/` — tests against the compiled library.
- `app/` — the `jf` command line tool around the library.
