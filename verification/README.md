# forge-data

Structured data decomposition into tiles: CSV, TSV and JSON input is split
into `DataTile`s (one per row or node) that can be filtered, sorted,
summarised and written back out as CSV or JSON. The library in `src/` is written in
Verus and every function in it is verified against its contract, except
the few trusted wrappers that make the outside calls (`uuid`, `serde_json`,
`String::push`), whose contracts are stated and believed.

## Layout

- `src/text.rs` — whitespace, trimming, line and field splitting, joining,
  the lexicographic order of strings.
- `src/csv.rs` — the CSV row grammar (quoted fields, doubled quotes), field
  escaping, and the proof that an escaped row splits back into its fields.
- `src/value.rs` — cell values and their model, field maps (no name twice),
  the IEEE-754 order of numbers read from their bit patterns, the order of
  values, and the classification of a raw cell.
- `src/tile.rs` — tiles, data kinds, tile identifiers (`uuid`), metadata
  and count maps (no name twice), statistics.
- `src/decompose.rs` — format detection, CSV and TSV decomposition.
- `src/query.rs` — filtering, and the inputs of an aggregation.
- `src/sorting.rs` — the stable sort by a field and its laws.
- `src/summary.rs` — the schema of a set of tiles and statistics.
- `src/output.rs` — CSV output and the proof that its texts read back.
- `src/roundtrip.rs` — the proof that written tiles read back as the same
  tiles.
- `src/json.rs` — tiles from a JSON value.
- `src/json_tree.rs` — reading JSON text (`serde_json`) into a tree, the
  values it stands for, and JSON decomposition.
- `src/json_out.rs` — tiles as a JSON document, written by `serde_json`.
- `app/lib.rs` — the same data types with `f64` numbers, hash maps and serde
  support, and the operations that compute with floats or JSON text:
  reading numbers, aggregating and writing numbers.

## Numbers

The library holds a number as the bit pattern of its `f64` value, which it
orders exactly as the float is ordered. Where a float has to be read from
text, compared with a tolerance or written as text, the caller passes a
function that does it (`number_bits`, `close_to`, `show`); `app/` passes the
standard library's float operations.
