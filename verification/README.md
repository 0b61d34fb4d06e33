# community-analyzer

Organizational / community communication analysis over in-memory,
platform-agnostic chat data (messages, channels, users, reactions): thread
grouping, phrase detection, role and channel classification, a reply graph,
and the tallies behind five communication-health hypotheses (H1 exploration
vs justification, H2 psychological safety, H3 power gradient, H4
pseudo-consensus, H5 exploration capacity).

## Layout

- `src/` — the library, written in Verus. Its functions carry `requires` /
  `ensures` contracts over mathematical models (`Seq`, `Set`, `Map`, `int`);
  where an outside crate decides (whether lindera's dictionary loads, the
  random salt) the contract says what holds either way. The library's laws (grouping partitions the messages,
  timestamp order, rate bounds, quarter bounds, Gini bound, graph hierarchy
  bounds, name round trips, anonymization code format, ...) are public proof
  functions. Calls into outside crates (regex, aho-corasick, sha2,
  rand_chacha, petgraph, lindera, chrono, serde_json) go through small
  trusted wrappers whose contracts state what those crates document.
  The anonymizer keeps its reverse map as a `Vec` of `(id, code)` pairs with
  the invariant that no id occurs twice, rather than a `BTreeMap<String,
  String>`: vstd's `BTreeMap` specifications hold only for key types with a
  specified order, which `String` lacks, so the map's contents and its
  sorted rows could not be stated over it.
  Timestamps are epoch microseconds (UTC).
- `tests/` — the test suite, run against the compiled library.
- `app/` — ordinary Rust around the library: TOML configuration loading,
  serde forms of the library types, the floating-point report values (rates,
  entropies, PageRank, the health summary), SVG figures, the NLP backends
  (mock, candle, Python sidecar) and the enrichment drivers, and file output.
