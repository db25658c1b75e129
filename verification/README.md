# ar_matcher

Matches customer payments against open invoices: given an accounts-receivable
workbook and one or more payment amounts, it finds every combination of a
customer's invoices whose total lies within a tolerance of a payment, and
writes the combinations to a result workbook. An HTTP API (upload, process,
download) sits in front of it.

## Layout

- `src/` — the verified library (Verus):
  - `engine.rs` — branch-and-bound combination search with its proof of
    soundness, completeness (for positive amounts) and agreement with an
    exhaustive enumeration; `combos.rs` holds the shared specifications.
  - `loader.rs`, `cleaning.rs` — reading the sheet's cells: header detection,
    column mapping, Total and date cleaning, grouping by customer.
  - `matcher.rs`, `writer.rs` — running all targets over all groups, result
    rows and the result workbook.
  - `config.rs`, `storage.rs`, `output_index.rs`, `xlsx_guard.rs` —
    configuration, file names, result ownership, upload checks.
  - `auth.rs`, `turnstile.rs`, `upstream.rs`, `routes.rs`, `error.rs` — the
    decisions of the HTTP handlers.
- `app/` — the HTTP service: routing, multipart and network I/O, the disk,
  and reading workbooks into cells.
- `tests/` — tests of the library.
