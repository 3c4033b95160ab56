# logspike_core

The indexing, parsing, searching and tailing core of a desktop log viewer,
written in Verus: every function in `src/` carries a contract that Verus
proves.

- `src/index.rs`: `LogFile`, the line index over a file's bytes (offset
  table, line materialisation, clamped ranges, incremental resync).
- `src/parser.rs`: level/timestamp detection and the plain, JSON, CMTrace and
  nginx line parsers; format detection from the first lines.
- `src/session.rs`: `Session` (files merged chronologically) and `View`
  (filtered, sortable selection of a session).
- `src/search.rs`: literal (Aho-Corasick) and regex search over line-aligned
  chunks, capped and ordered by line and position.
- `src/tail.rs`: what a file-system notification means for an index.
- `src/sort.rs`: stable sorting (merge sort proved equal to a stable
  insertion-sort specification).
- `src/text.rs`: byte-string helpers with their specifications.
- `src/trusted.rs`: the contracts taken on trust for calls into `memchr`,
  `regex`, `aho-corasick`, `serde_json` and parts of std.
- `src/handles.rs`: handle types and small facts the front end asks for.

`app/` is the Tauri shell around the library: file and folder I/O, the
file-system watcher, the registry of open files, and the IPC commands with
serialisable copies of the library's types.
