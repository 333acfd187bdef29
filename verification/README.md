# tdb_search

The core of a semantic search store whose data is versioned and branchable, written in Rust and
verified with Verus. A domain is one dataset, a commit is a tagged version of it, and a branch is a
fork of a version. The library decides; a dataset engine stores and scans.

## Layout

- `src/` is the library. Every function has a contract that Verus proves.
  - Data: `schema`, `batch`, `distance`, `filter`, `config`, `pq`, `write`.
  - Search: `search`, `dedup`, `suggest`, `scan`, `resolve`.
  - Commits and branches: `tags`, `branch`, `delta`, `retag`, `sweep`, `rollup`, `index`.
  - The store: `store`, `tasks`, `cleanup`, `integrity`, `stats`, `domain_path`.
  - Groundwork: `text`, `words`, `pieces`, `order`, `grouping`, `table`.
- `tests/` runs the library on concrete values.
- `app/` is the store on disk around it: handles, locks, scans and conversion. It performs what the
  library plans and hands back what came of it. `Engine` and `Handle` say what it asks of a dataset
  engine; `LanceEngine` is the one on disk.

## Numbers

Stored vectors are single-precision bit patterns. A distance is the integer that orders as the
number with its bit pattern does. Fused search scores are exact integers in units of 2^-64.

## What is trusted

Four contracts are believed rather than proved. They are those of `String::push`,
`str::to_lowercase`, `form_urlencoded::byte_serialize` and `form_urlencoded::parse`.
