# observation

What a node publishes about itself, and how it got there, verified with Verus.

- `src/scope.rs` — scopes are paths over the execution tree. `beneath` is the
  prefix rule by path segments (trailing slashes of the asking scope are
  ignored); `lex_lt` is the order of scopes. Both have executable versions
  (`is_beneath`, `scope_less`) proved equal to the spec, and the rule is
  proved reflexive and transitive.
- `src/keyed.rs` — a sequence of records that carry their own keys, read as a
  map; the lemmas that relate vector edits to map edits.
- `src/snapshot.rs` — `Snapshot`: health records, counts, and the records kept
  for resume, each table a vector strictly ordered by key. Recording, pausing,
  resuming, the worst-first read-out, the rollup (`Fine` or `Holding` up the
  tree) and the summed measure, each with a contract over the map views, and
  the laws of the rollup and of pause/resume.
- `src/history.rs` — `History`: a bounded series per scope and per counted
  kind, oldest first, with the law that no series exceeds its capacity.
- `tests/` — the scenarios, run against the compiled library.
