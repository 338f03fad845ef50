# saya

The core of Saya, a launcher and clipboard-history tool, written in Verus
with its behaviour stated in contracts and proved.

## Layout

- `src/` — the verified library:
  - `matcher` — subsequence fuzzy scoring with word-boundary, consecutive
    and prefix bonuses, and the recency/frequency (MRU) bias; laws on
    matching, MRU bounds monotonicity and prefix dominance.
  - `launcher` — the app index kept in lowercased-name order, incremental
    insert/remove from filesystem events, the scan's rules (which entries
    are bundles, which directories are entered, ordering and
    de-duplication), the start-up choice between the cached list and a
    scan, and query ranking with its laws.
  - `sorting` — the stable keyed sort used for ranking and scanning.
  - `cli` — the dev-server request line, reply display and exit decision, and the log
    tail's line selection and follow steps.
  - `tokenizer` — jieba search-mode segmentation turned into index tokens.
  - `database`, `clipboard`, `search` — the store's rules (consecutive
    duplicates, LIKE escaping), the clipboard capture rules and poller,
    and the search lane sizes.
  - `icons` — the launch command and the result of running it, and the
    icon lookup's choice between the on-disk cache and a fresh extraction.
  - `paths`, `text`, `clock`, `error`, `ffi` — icon cache keys,
    well-known locations, character helpers, the clock, the error type and
    the records handed to the user interface.
- `tests/` — tests run against the compiled library.
- `app/` — the runtime around the library: SQLite and Tantivy storage,
  rank fusion, the filesystem scan and watcher, the macOS integration, the
  UniFFI surface and the command-line program.
