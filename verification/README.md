# scoop_search

Searches the manifests of [Scoop](https://scoop.sh/) buckets for packages by
name and by the executables they install, and suggests similar names when a
query has no literal match.

The library in `src/` is written in Verus. Its functions carry contracts that
Verus proves, except the few that call into `std`, `serde_json`, `strsim` and
`nucleo-matcher` (marked `external_body`), whose contracts are assumed from
those libraries' documentation and source:

- `lib.rs` — the command line (`parse_args`) and its laws.
- `text.rs` — string primitives over `Seq<char>`: search, affixes, path
  segments, ordering, case.
- `json.rs` — JSON documents as plain values, parsed from text through
  `serde_json`.
- `order.rs` — stable sorting by name and ordered listings of sets.
- `fuzzy.rs` — scoring a candidate against a query (literal, separator-free,
  typo-tolerant through `strsim`, subsequence through `nucleo-matcher`).
- `app.rs` — reading a manifest and matching one package.
- `bucket.rs` — literal and fuzzy search over the buckets, ranking of
  suggestions, remote buckets.
- `installed.rs` — installation records and the labels beside results.
- `scoop.rs` — locating Scoop's directories.
- `report.rs` — the lines the command prints.

`app/main.rs` is the command itself: it reads the environment, walks the bucket
directories, reads file texts on several threads, asks GitHub (through `ureq`) for
the packages of known buckets, and prints what the library decides.
