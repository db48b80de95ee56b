# clank_wasm

An artificial-life simulation for the browser: creatures with small
recurrent neural brains roam a wrapped soil grid, eat, fight, breed and die.

- `src/` is the verified library (Verus): the mulberry32 generator that
  drives every random choice, the spatial hash grid of per-cell linked
  lists that answers neighbourhood queries, the cell stencils of soil
  deposits, the event log, and the integer bookkeeping of a tick (timers,
  eclipse countdown, trails, removal of the dead, spore replenishment,
  creature identities and gene clamping).
- `app/` is the WebAssembly side: the floating-point world (positions,
  energies, soil fields, brains), the exported entry points for the host
  page, and rkyv snapshots. It calls the library for everything above.
- `tests/` exercise the library on concrete values.
