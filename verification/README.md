# trade_journal

The logic of a trading journal, verified with Verus: reading MetaTrader 4/5
account statements (HTML tables or tab-separated text) into trades, deciding
which of them an import stores, naming and listing database backups, writing
the journal as CSV, and the small rules of journal entries.

- `src/` — the verified library.
  - `text` — characters, trimming, searching, splitting into lines and fields, replacing.
  - `number` — the texts that `str::parse::<f64>` accepts.
  - `markup` — the contents of `<tr>`/`<td>` elements of a statement, and removing tags.
  - `mt_import` — statement rows and statements into trades; duplicates; the import summary.
  - `import` — statement format, tickets already in the journal, the import plan.
  - `ticket_set` — a finite set of tickets.
  - `ordering` — text order, stable ordering and descending sort.
  - `csv_export`, `calendar`, `backup`, `journal` — export text, month pattern,
    backup names and listing, entry status and plan flag.
- `tests/` — tests of the library, several against the standard library and the `regex` crate.
- `app/` — SQLite storage (rusqlite), backup files (std::fs, chrono), the
  commands the front end calls, and the floating-point arithmetic of profits,
  equity and statistics.
