# RAGgy

A private, local search engine for documents, notes and code: files are
split into document → section → chunk graphs, entities (people,
organisations, dates, URLs, paths, identifiers) are extracted and linked,
and queries in plain English are read into plans for keyword, semantic and
entity-graph retrieval.

## Layout

- `src/` — the verified library, proved by Verus against its contracts:
  the extractors for Markdown, plain text, code, structured
  files, HTML, CSV and PDF text; entity extraction, span decoding and
  resolution; the query parser (negations, scope, type, date phrases and
  explicit `--from`/`--to` ranges); the breadth-first search between
  entities; and the decisions of ingestion, the HTTP and MCP servers and the
  file watcher. Calls into outside crates (regex, pulldown-cmark, csv,
  serde_json, serde_yaml, toml, sha2, chrono, tokenizers) and the few
  std calls Verus has no specification for (the clock, lowercasing, path
  parts) sit behind small trusted wrappers, marked `external_body`, whose
  contracts name what they return; those contracts are believed, not proved.
- `tests/` — tests of the library on concrete inputs.
- `app/` — the program: command line, SQLite store, Tantivy and vector
  indexes, ONNX models, servers and the file watcher, calling the library.
