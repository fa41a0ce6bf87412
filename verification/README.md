# semver-rs

Semantic versions with the behaviour of npm's `node-semver`: parsing
(strict and loose), precedence, ranges with their caret, tilde, X-range
and hyphen sugar, range relations, increments, and the small helpers
around them. Every function of the library is verified with Verus against
a contract written over mathematical models of versions and ranges.

## Layout

- `src/` — the verified library.
  - `text.rs`: character classes, decimal numbers, trimming, splitting.
  - `identifiers.rs`: prerelease identifiers and their order.
  - `semver.rs`: versions, precedence, rendering, and the version grammar.
  - `canonical.rs`: the canonical form reads back as the same version.
  - `increment.rs`: release kinds and `inc`.
  - `comparator.rs`: single comparators.
  - `desugar.rs`: partial versions and the rewrites a range goes through.
  - `range.rs`: comparator sets and ranges, how they are read and tested.
  - `witness.rs`: the few versions, built from a range's comparators,
    that stand for every version as far as those comparators can tell.
  - `relations.rs`: lowest version, intersection, subset, outside, each
    decided over all versions by trying those representatives.
  - `functions.rs`: coercion, diffs, sorting, truncation, simplification.
  - `readback.rs`: over canonical releases, the runs text that
    simplification proposes, read back through the range grammar, admits
    the same listed versions (so there it is always kept).
  - `differential.rs`: seeded generators of versions and ranges, the
    queries built from them with this library's answers, and the tally
    of answers that differ from node-semver's.
  - `lib.rs`: the top-level functions (`parse`, `compare`, `satisfies`, …).
- `tests/` — tests run against the compiled library.
- `app/` — the command-line program, the browser-facing functions, and
  the differential run that asks node-semver (through Node) the same
  queries.
