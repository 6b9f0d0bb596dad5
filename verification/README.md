# duan

Benchmark graphs and shortest-path machinery for bounded multi-source
shortest paths (BMSSP), with the integer and text logic verified by Verus.

## Layout

- `src/` — the verified library.
  - `algorithms/` — the constant-degree transform (`transform`), the
    constant-time-clearable index set (`epoch_map`), predecessor-path
    reconstruction (`path`), and the solver configuration types.
  - `generators/` — the Castro graph families: grids (`castro_grid`), the
    random-tree family D3 (`castro_d3`) and the Hamiltonian family H3
    (`castro_h3`). The grid generator is proved to give its exact edge
    count, weight ranges and strong connectivity. D3 and H3 are built one
    random attempt at a time: each step is proved to keep the graph simple,
    within its weight range and degree cap, and reachable (from node 0 for
    D3, all pairs for H3), and each step says how it moves the edge count
    toward its target; the target itself is reached once the retry loops in
    `app/` stop.
  - `dimacs.rs` — a reader for DIMACS `.gr` files, gzip-compressed or not:
    decompression and UTF-8 decoding, line splitting and the line parser.
  - `graph_repr.rs` — compressed adjacency graphs and their binary file
    format, with a proved encode/decode round trip.
  - `graph_source.rs`, `graph_store.rs` — graph-family names, their parsing,
    cache keys, file names, and the configuration and seed of each Castro
    family.
  - `alloc_counts.rs` — the update rule of the allocation counters.
  - `rng.rs`, `text.rs` — the calls into `rand` and `std` that the library
    trusts, each with its stated contract (the call into `flate2` stands in
    `dimacs.rs`).
- `app/` — ordinary Rust around the library: petgraph conversions, file
  I/O, the floating-point solvers (Dijkstra and BMSSP with its block
  priority structure), the float-weighted random graph families, and the
  loops that repeat the random D3/H3 draws until they succeed.
- `tests/` — tests of the library on concrete values.
