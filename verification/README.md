# Braid

Braid reads a Soroban contract's source and reports where its storage design
forces transactions into the same sequential cluster under parallel execution
(CAP-0063): two transactions that share a ledger entry, where at least one
writes it, cannot run at the same time.

## Layout

- `src/` is the library, verified with Verus.
  - `syntax.rs`: the syntax tree the scan reads.
  - `rust_parser.rs`: Rust source text to that tree, by `syn` (trusted: the
    parse result is a named function of the text).
  - `parse.rs`: the scan: storage accesses, `let` bindings and entry points.
  - `analyze.rs`: key classification, severities, findings, conflict edges.
  - `model.rs`: the report's types and the CI exit code.
  - `render_text.rs`, `render_html.rs`: the terminal and HTML reports.
  - `laws.rs`: properties that hold of every analysis and report.
  - `text.rs`: string helpers the rest is built on.
- `app/` is the `braid` command: arguments, walking and reading files, JSON
  output, writing the report.
- `tests/` runs the library on a corpus of small contracts and on its parts.

The sets the analysis builds (the entry points touching each ledger entry,
the writers, the counters) are held as sorted, duplicate-free vectors of
names rather than string-keyed maps and sets: with string keys, the map and
set types give contracts too weak to prove the report's order and contents.

