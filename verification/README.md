# zg

`zg` is a local-first search tool for note-heavy directories: regex-shaped queries keep
grep semantics (through ripgrep), plain-text queries go to an explicit `.zg/` index with a
lexical (`fts`) or hybrid lexical + vector (`fts+vector`) level.

## Layout

- `src/` is the library, written and proved with Verus. It holds the decisions of the
  tool: query normalization and matching, regex-shape detection, line-based chunking and
  code-symbol extraction (over tree-sitter), the shared-chunk bookkeeping of the index,
  rank fusion and the ordering of hits, snippet rendering, reconcile and rebuild plans,
  status and message texts, and the search-quality evaluation and probe reports.
  Every public function states its result in its contract; the laws that span functions
  are public proof functions.
- `app/` is the command line around the library: argument parsing, the SQLite database,
  file walking, running ripgrep, the embedding model, and JSON output. It computes the
  channels' floating-point scores (BM25, vector similarity) and hands them to the library as
  order keys; the fused reciprocal-rank score is compared exactly in the library.
- `tests/` runs the library on concrete values.
