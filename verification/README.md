# spatial

Spatial and spectral views of a codebase, verified with Verus.

Functions are placed on the Eisenstein hexagonal lattice, calls and imports
become edges, modules get cell centers from a hexagonal ring spiral, and the
module graph is analysed for connected components, bridges between the two
sides of a partition, reorganization candidates and import cycles. A second
graph of file, function and module entities feeds a spectral solver and is cut
into communities by repeated Fiedler bisection.

Layout:

- `src/` — the verified library: `lattice` (lattice arithmetic, the ring
  spiral), `code_graph` (placement, calls, imports, distances, shortest call
  chains), `snap_navigation` (Pythagorean jumps, multi-cursor positions,
  nearest and related functions), `spatial_analysis` (module links, connected
  components, bridges, suggestions, cycles), `report` (notable pairs and the
  text pieces of reports), `spectral_analysis` (dependency graph, pair weights,
  degrees, Fiedler approximation, communities), `ranking` (top-k selection),
  `sample` (a sample dependency graph).
- `app/` — the language server, the editor extension, and everything that
  computes in floating point (the spectral solver, the Laplacian and its
  Fiedler vector, modularity, cursor coordinates, reports with scores).
- `tests/` — tests of the library.
