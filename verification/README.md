# phext-life

Self-replicating programs in nine-dimensional phext space. The rules of
the simulation are stated as contracts and proved by Verus; where a rule
draws random values, a verified function takes the draws as arguments
and the function that draws states its result for some record of draws.

- `src/coordinate.rs`: phext coordinates, their mixed-radix numbering,
  neighbors, Manhattan distance and the `L.S.C/V.B.K/P.G.W` address text.
- `src/program.rs`: the sixteen-instruction machine and one step of it.
- `src/universe.rs`: the universe of programs keyed by coordinate number,
  placement at drawn coordinates, a tick, density counts, statistics and
  the 2D projection.
- `src/soup.rs`: the tape soup shown in the browser: the two-headed tape
  interpreter, the neighbor grid and one epoch of pairing and mutation.
- `src/tally.rs`: sums over the keys of a map, independent of walk order.
- `src/random.rs`: the generators of `rand`, trusted for what holds of
  every draw.
- `app/`: the command-line runner, the statistics that need floating
  point, and the `wasm-bindgen` bindings.
