# pbench

Percentile-focused benchmarking: p50, p95, p99, p99.9 and p99.99 of a
benchmark's per-iteration time, with thread-count sweeps, throughput
counters, baselines and table, CSV or JSON output.

## Layout

- `src/` — the core, verified with Verus. Every function carries a
  contract; the laws that relate several functions are proof functions.
  - `time` — picosecond durations (`FineDuration`) and their display,
    `Duration` conversions, the decisions of timer calibration.
  - `stats` — exact percentiles, mean and standard deviation, sample
    collections, and the histogram recorder used for large runs.
  - `counter` — throughput counters and their per-sample values.
  - `bencher` — the decisions of the sampling loop: tuning the sample
    size, collecting until the time and sample budgets are met.
  - `config`, `cli` — option layering and resolution, command-line
    parsing.
  - `entry` — benchmark metadata and the benchmark tree: building,
    filtering and sorting it (natural order of names in `util`).
  - `output` — number formatting, the CSV text and the terminal table.
  - `baseline` — the stored form of statistics and schema versions.
  - `runner`, `attr`, `arg` — run actions, path filters, option
    layering, the acceptance of attribute options, argument access.
- `app/` — the runtime around the core: entry registration, clocks and
  timestamp counters, worker threads, the timed loop, JSON and baseline
  files, floating-point throughput and regression figures, the command
  line of the process.
- `tests/` — tests of the core.
