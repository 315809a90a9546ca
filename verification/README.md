# lab1

Blocked matrix multiplication over 12×12 tiles, with the schedule and layout proved in Verus.

- `src/matrix.rs` — `BlockMatrix<B>`: row-major grid of tiles (`data[i * cols + j]`), tile
  access, and `from_seed`, which fills tiles with 23-bit samples of a linear congruential
  generator.
- `src/multiply.rs` — `mul_add_tile` (scalar `c += a * b` inside one tile),
  `mul_add_tile_lanes` (the same, four adjacent scalars per step) and `matmul` (tile product of
  block matrices), all in `i`-`k`-`j` order with the arithmetic passed in as a step
  function; their contracts state every output cell as the fold of that step over `k`
  ascending, and lemmas show that steps computing the same function give the same result, and
  that the four-lane and scalar tile schedules agree when their arithmetic does.
- `src/cli.rs` — the command line: flags, value parsing, defaults and error messages.
- `src/timing.rs` — timing one call with a cycle counter and the wall clock.
- `app/` — the program: `f32` tiles, the auto-vectorised and SSE2 tile kernels, the float
  comparison of the two products, the time-stamp counter and the output.
