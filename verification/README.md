# bm25_cli

BM25 search over standard input, a file, a directory or a URL.

- `src/` is the verified library (Verus): paragraph chunking with byte
  offsets, the selection of non-overlapping hits, `--since` parsing and day
  counts, ages in words, glob base directories, the modification-time table
  and the indexing session's bookkeeping, the registry of sources, text
  decoding, article extraction to markdown, snippet rendering, and the
  analysis pipeline chosen from the command line.
- `app/` is the program around it: argument parsing, file and network I/O,
  directory walks, and the tantivy index and queries.
- `tests/` exercises the library on concrete values.
