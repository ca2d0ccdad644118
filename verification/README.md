# y1_clipboard

A clipboard history manager for Wayland, with its core written in Verus and
proved against its specifications.

- `src/` is the verified library: the history store (ordering, deduplication
  by content hash, capacity, and search as SQLite's `LIKE` performs it, text
  read byte by byte as SQLite reads it, up to the first NUL), the
  command-line argument rules, the lines that `list` and `search` print, MIME
  type selection and compatibility, URI-list handling, and the database path.
- `app/` is the program around it: SQLite persistence, the Wayland protocol
  handlers, the daemon loop and terminal output. It asks the library for every
  decision and replays the library's reported changes into the database.
- `tests/` runs the library on concrete values.
