# lemons_search

A search core for an editor plugin: fuzzy search over record texts and
full-text search over an inverted index with a word catalog, with per-client
search sessions, all owned by a `SearchEngine` addressed by string
identifiers. The library is written in Verus and proved against its
contracts.

## Layout

- `src/` — the verified library.
  - `text.rs`, `tokenizer.rs`: char classes, lowercasing, string order,
    tokenization into maximal alphanumeric runs.
  - `record_table.rs`: sparse record storage with reusable vacant slots.
  - `top_scores.rs`, `search_result.rs`, `store_health.rs`: bounded
    top-score collection, search results with compact highlight ranges,
    health snapshots.
  - `matcher.rs`: the `nucleo_matcher` calls, behind trusted wrappers.
  - `fuzzy.rs`: the fuzzy datastore and its incremental narrowing.
  - `full_text/`: posting lists, the full-text store and its index
    invariant, query parsing and expansion, ranking, and what replaying the
    same updates on two stores gives (bulk loads, repeated upserts).
  - `datastore.rs`, `keyed.rs`, `engine.rs`: the datastore of either kind,
    sessions, and the engine.
- `tests/` — tests of the library.
- `app/` — WebAssembly bindings: JavaScript conversions, the panic hook, and
  the floating-point BM25 scoring of full-text query atoms, which ranking
  receives as integer scores.
