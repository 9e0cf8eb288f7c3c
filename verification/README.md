# litelearn

A desktop knowledge base of code snippets, filed by technology stack and
stored in MySQL. This crate holds its verified core; `app/` is the Tauri
shell that runs it against the database.

## Layout

- `src/text.rs` — trimming, decimal numbers, searching and string
  conversions on characters.
- `src/csv.rs` — CSV quoting, reading a line back into fields, and writing
  the CSV backup (`build_csv`); the line round trip is proved here.
- `src/datetime.rs` — reading `YYYY-MM-DD HH:MM:SS` timestamps.
- `src/import.rs` — turning a CSV or JSON backup into an import plan, and the
  `Importer`, which carries a plan out one database request at a time; its
  guarantees are proved here: no overwrites, stacks matched by name and each
  counted once, exact counts, a backup imported into an empty database taken
  whole, and a re-import of a backup skipping every numbered snippet and
  creating no stack.
- `src/round_trip.rs` — what a backup gives back: an exported CSV reads back
  as its snippets (commas, quotes and line breaks in a text included), a
  JSON backup as its records, a timestamp as its time.
- `src/config.rs` — connection settings, environment overrides, validation.
- `src/commands.rs` — the checks and queries behind the application's
  commands.
- `src/model.rs` — the records shown to the front end.
- `app/` — the Tauri commands, the MySQL pool and the settings file.
