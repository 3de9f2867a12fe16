# qwato

A journal for the terminal: `qwa` appends one-line memos and checkboxes to
Markdown notes (one file per day, or sections of one file) and lists them
back as a timeline, filtered by date range, tags, notes or tasks.

The library under `src/` holds the program's logic, verified with Verus:

- `text`, `markdown`, `grammar` — the text model (whitespace and digit
  classes, trimming, `str::lines`) and the line kinds and entry grammar of
  journal files.
- `add`, `last_edit`, `frontmatter` — where a memo goes, what line it
  becomes, rewriting the last memo, and stamping frontmatter fields.
- `datalog`, `collect`, `list` — reading entries back per date, putting
  the logs of several files and commands together, and the listing.
- `tags`, `clock`, `paths`, `config`, `cli`, `done`, `error` — tag
  filters, dates and times (chrono behind trusted wrappers), paths and
  dates of journal files, layered configuration, command-line decisions,
  open tasks, and error texts.
- `properties` — laws that relate operations: a written memo reads back,
  `--last-edit` finds what was added, listings are ordered, in range and
  limited, a listing under two tags is the union of the one-tag listings,
  collected logs hold one log per date, sorts keep their items, configuration layering is associative,
  date stamps sort as dates, lines written out read back, ticking closes a
  task.

`app/` is the `qwa` program around it: argument parsing, configuration
files, reading and writing notes, and printing.
