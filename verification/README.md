# Clarus

Static security analyzer for Clarity smart contracts, written in Verus. The
analysis itself — parsing, the detectors, the contract registry, the call
graph and project-wide reporting — is verified against specifications; the
command-line program around it is ordinary Rust.

## Layout

- `src/` — the verified library
  - `ast.rs` — syntax trees and their mathematical model (`Tree`)
  - `parser.rs` — the S-expression parser, with `parse_source` as its specification
  - `parser_laws.rs` — laws of parsing (comments, leading whitespace and line breaks)
  - `detector/` — reentrancy, integer underflow/overflow, access control,
    unchecked return values, trait dispatch and cross-contract reentrancy,
    each with a specification of exactly what it reports
  - `analyzer.rs` — single-file and project-wide analysis, severity-ordered reports
  - `registry.rs` — the contracts of a project, by name
  - `callgraph.rs` — call edges between contracts, lookups, and cycle detection
  - `loader.rs` — what loading a directory decides (which files, their names, their order)
  - `properties.rs` — laws relating the detectors and the call graph
  - `text.rs` — string helpers
- `app/` — the `clarus` command (`check` a file, `scan` a directory), file
  reading and terminal/JSON output
- `tests/` — tests of the library

## Usage

```bash
clarus check mycontract.clar [--json] [--strict]
clarus scan ./contracts [--json] [--strict]
```

`--strict` exits with status 1 when anything is found.
