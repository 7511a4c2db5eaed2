# snipjar

The verified core of a local snippet launcher: snippets have a unique key, a
value and tags, are kept in SQLite, and are found by key and tag.

- `src/` is the library, proved with Verus:
  - `text` — trimming (Unicode white space), lower-casing, and the byte-level
    prefix, substring and order tests that `str` uses, with the proof that the
    byte order is a strict total order;
  - `order` — two arrangements sorted by one strict order are equal;
  - `timestamp` — the form of RFC 3339 timestamps, the instant each denotes,
    and the order of update times by that instant;
  - `model` — the records (`Entry`, `EntrySummary`, `EntryInput`,
    `PasteResult`) and `DataError` with its messages;
  - `input` — validation of snippet input, tag normalisation, and the fresh id
    and timestamp of a write;
  - `search` — the recent list and the search ranking, with their laws;
  - `store` — the database schema and the decisions around reads, writes,
    copies and pastes;
  - `launcher` — the decisions of the launcher window, tray menu and the
    hand-back to the previous application.
- `tests/` runs the library, with a real in-memory SQLite database for the
  schema and the unique-key rule.
- `app/` is the desktop shell (Tauri, SQLite file access, clipboard and
  keystrokes), which carries out what the library decides.
