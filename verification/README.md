# essvi

Tools for fitting the SSVI (surface SVI) implied-volatility model to option
market data: Black-76 pricing and implied volatility, SSVI calibration with
no-arbitrage constraints, derivative-free optimisers, market-data readers,
reports and plots.

## Layout

- `src/` — the verified library (Verus). It holds the discrete rules of the
  toolkit, each with a contract proved by Verus:
  - `calibration` — the calibration error kinds and their messages;
  - `csv` — the lines of a file as `str::lines` gives them (`split_lines`),
    fields of a CSV record (`split_fields`), `str::trim`-style field
    trimming (`trim_field`), column lookup by header name (`column_index`),
    record width checks (`covers_columns`), with the laws that splitting and
    re-joining a record are inverse;
  - `grouping` — grouping quotes by days to expiry through a `BTreeMap`,
    keys ascending, rows in file order (`group_rows_by_key`), and the
    uniqueness of that grouping;
  - `selection` — the expiries shown on a smile chart (`select_slice_indices`);
  - `synthetic` — the deterministic scatter code of the synthetic market;
  - `pricing` — option-type codes (`+1` call, `-1` put);
  - `float_bits` — clearing the low word of an `f64` bit pattern;
  - `surface` — which earlier slice the calendar penalty of a slice is taken
    against: the last one that was calibrated (`previous_fitted`).
- `app/` — everything that computes with floating-point numbers (the model,
  pricing, solvers, calibrators) or does file I/O (CSV readers, markdown
  reports, SVG plots through `plotters`), plus the command-line programs.
  It calls the verified library for the rules above.
- `tests/` — tests of the verified library.
