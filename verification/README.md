# dds_backend

Metrics, match bookkeeping, bench-report rules and inspector state for a
small DDS playground, written in Verus. The functions in `src/` are proved
against their contracts by Verus, except a few trusted wrappers around
outside code, whose contracts are assumed: the system-clock reads in
`clock.rs` (which state nothing of the time they return), the `csv` reader
in `rows.rs` and the JSON copy in `dto.rs`.

Layout:

- `src/` — the verified library.
  - `sub_metrics.rs` — per-publisher sequence tracking (gaps, duplicates,
    reorders, restarts), run-wide counters, latency and history.
  - `pub_metrics.rs`, `matches.rs` — publisher counters and reader match
    sessions.
  - `latency.rs` — log-2 latency histogram and its percentiles.
  - `history.rs` — rolling per-second buckets and sparklines.
  - `config.rs`, `rows.rs`, `bench.rs` — reading a bench CSV (header line,
    records through the `csv` crate, integer columns) and the verdict rules.
  - `registry.rs`, `dto.rs`, `hex.rs`, `demo.rs` — discovery registry,
    sample batching, GUID/vendor text, the demo message and QoS choice.
  - `clock.rs` — the system clock.
- `app/` — the runtime around it: thread-safe handles, the RustDDS and stub
  backends, the inspector service, JSON forms, and the floating-point parts
  of the bench report.
- `tests/` — tests of the library.
