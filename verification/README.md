# frey

The integer core of the Frey world simulator, written in Verus and proved
against its contracts: the icosphere mesh topology, the river-routing and
sink (fill-and-spill) graphs, plate partitions, the erosion automaton's work
queue, era scheduling, polity bookkeeping and snapshot naming.

Layout:

- `src/` — the verified library, one module per concern (`icosphere`,
  `icosphere_count`, `flow`,
  `basins`, `sinks`, `partial_rebuild`, `downstream`, `neighborhood`,
  `active_queue`, `automaton`, `plates`, `components`, `donor`,
  `boundary_vertices`, `surface_material`, `era`, `polity`, `snapshot`, ...).
- `tests/` — executable tests of the library.
- `app/` — the parts that need the file system, serde or floating point:
  JSON manifests and snapshot views, unit-sphere positions of the icosphere,
  and the weighted downstream network.
