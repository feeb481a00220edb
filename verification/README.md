# saddle_procgen_wfc

A Wave Function Collapse / model synthesis toolkit: tiles with adjacency rules (authored,
socket-derived, learned from a sample, or derived from overlapping patterns) are solved on
Cartesian 2D, Cartesian 3D and hex grids, with fixed cells, bans, borders, tile-count bounds,
backtracking and step-by-step debugging.

The library under `src/` is written in Verus. Its contracts state, among other things:

- which rulesets and requests are accepted, and the exact error reported for each refusal;
- that the compiled adjacency relation is the authored one, rotated for auto-rotated families;
- that constraint application and propagation never discard a cell value that belongs to a
  solution of the request, so a reported contradiction means that no solution exists;
- that every finished solution satisfies every adjacency rule, fixed cell, ban, border and
  tile-count bound of the request;
- that learned rules admit the sample they were learned from, socket-derived and
  overlap-derived rules are mutual, and the direction algebra behaves as expected.

Layout:

- `src/config.rs`: request and ruleset types, directions and their rotations;
- `src/bitset.rs`: the cell domains;
- `src/grid.rs`, `src/geometry.rs`: grid shapes, indexing and neighbours;
- `src/rules.rs`: ruleset compilation;
- `src/consistency.rs`: the mathematical model of candidate states and solutions;
- `src/solver.rs`, `src/step.rs`: propagation, observation, backtracking and the step API;
- `src/sockets.rs`, `src/learn.rs`, `src/overlap.rs`: the three ways of deriving rules;
- `src/debug.rs`, `src/weights.rs`, `src/text.rs`, `src/runtime.rs`: results, weights,
  message text and the job bookkeeping of the engine integration;
- `app/`: the random choice of cells and tiles, the solve loops, serde models of rulesets
  and the Bevy plugin, around the verified library;
- `tests/`: scenario tests.
