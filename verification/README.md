# openace

The core of a code-intelligence engine: it parses source files in Python,
TypeScript/JavaScript, Rust, Go and Java into symbols, relations and
AST-aware chunks, decides what an incremental index run must touch,
resolves cross-file references, tokenizes code for BM25 (camelCase,
snake_case and CJK bigrams), encodes what the stores keep, and selects and
orders the candidates of a multi-signal search.

## Layout

- `src/` — the library, written in Verus. Each public function carries a
  contract proved by Verus; the public `lemma_*` proof functions state the
  laws that span several functions (round trips of encodings, the diff
  classification, traversal invariants, the accounting of an index run).
  Calls into tree-sitter and xxHash go through a few trusted wrappers whose
  contracts say what those crates' documentation promises.
- `tests/` — tests of the library on concrete values.
- `app/` — ordinary Rust around the library: SQLite, Tantivy and usearch
  storage, directory scanning and file watching, the indexing pipelines and
  the search engine's score fusion (floating point).
