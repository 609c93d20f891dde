# import_utility

Copies the files of cameras and cards into `<base>/<project>/<camera>`, with a filter
on extensions and days, a rule for names that are taken, and a scan that counts files
by day and extension.

- `src/` decides, and is verified with Verus: which files are selected, what a scan
  lists, each step of an import, what is reported, and how the window's state changes.
  Percentages and speeds are computed as binary floating point on integers
  (`float.rs`, `float_order.rs`, `rounding.rs`), and shown as text (`format.rs`,
  `numeral.rs`). What holds over whole runs is stated in the files whose names end in
  `_laws`: of imports (`import_laws.rs`), their messages (`message_laws.rs`,
  `progress_laws.rs`) and the disk (`disk_laws.rs`, `copy_laws.rs`), of scans
  (`scan_laws.rs`, `period_laws.rs`), of the window (`app_laws.rs`), and of texts
  (`format_laws.rs`).
- `app/` acts: it draws the window, walks directories, copies bytes and keeps the state
  between runs.
- `tests/` runs the library on concrete values.

One call into `chrono` and one into `std` are believed, not proved:
`naive_date_text` in `src/date.rs` and `lowercased` in `src/scan.rs`.
