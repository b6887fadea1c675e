# compounder

A compound-growth calculator: each window holds a start date, a final date,
the span between them in years, months, weeks and days, a start amount, a
final amount and the compound annual growth rate that links them.

- `src/` is the verified library (Verus):
  - `calendar.rs`: leap years, month lengths, dates as plain values, a day
    count that orders them, and the split of a span into years, months, weeks
    and days, with the proof that stepping back through the parts reaches the
    final date.
  - `datetime.rs`: the trusted calls into `chrono` (reading and writing
    `%Y-%m-%d`, stepping by months and days, day differences).
  - `compounder.rs`: one calculator window and its date logic.
  - `mainview.rs`: the interface mode and the list of windows.
- `app/` is the `eframe` program around it, with the local clock, the floating-point
  growth arithmetic and persistence.
- `tests/` runs the library on concrete dates.
