# wave-conservation

Wave propagation on graphs. The library (`src/`) holds the parts that are
exact and verified with Verus:

- `graph` — an undirected simple graph as adjacency lists: construction,
  edge insertion with deduplication, degrees, edge count, the integer
  Laplacian `L = D - A`, and a depth-first connectivity test, together with
  proved laws (handshake lemma, symmetry, Laplacian rows sum to zero,
  adding edges preserves connectivity, ...).
- `experiments` — adjacency matrices of path, cycle, complete, star and
  barbell graphs.
- `midi` — MIDI events and their text rendering.
- `error` — the error type and its messages.
- `text` — decimal rendering of integers.

The floating-point simulation (wave equation, eigenvalue solvers, frequency
sweeps, experiments) lives in the program under `app/`, which builds on the
library.
