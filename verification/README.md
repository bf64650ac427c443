# loglens

A log analyzer as a verified library: log lines are parsed into events
(timestamp, level, message), and events are folded into per-level
statistics, a ranking of recurring error messages, five-minute error spikes
and HTTP request summaries. Every function of the library carries a
contract that Verus proves; the program around it reads files, handles the
command line and prints reports.

- `src/text.rs`: characters, whitespace, trimming, UTF-8 lengths, decimal
  numbers and the order of strings.
- `src/wide.rs`: 256-bit unsigned arithmetic for the exact spike test.
- `src/time.rs`: timestamps; parsing and time distances through `chrono`.
- `src/model.rs`: levels, events and result types.
- `src/parser/`: plain-text lines (`text.rs`) and HTTP request lines
  (`http.rs`, through `regex`).
- `src/analyzer/`: counting and ranking (`tally.rs`), error time buckets in a `BTreeMap`
  (`buckets.rs`), statistics
  (`stats.rs`), recurring errors (`errors.rs`), error spikes (`spikes.rs`),
  HTTP summaries (`http.rs`) and the single-pass engine (`engine.rs`).
- `app/`: the `loglens` command line (file reading, JSON and terminal
  output).
- `tests/`: tests of the library.
