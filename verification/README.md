# arborui

A terminal UI toolkit core whose logic is proved with Verus. `src/` is the
verified library; `app/` is the thin Rust around it that talks to the terminal
through crossterm and computes layout geometry through taffy.

## Library modules

- `retained`: the retained widget tree. Keyed reconciliation keeps node
  identities, hands fresh ones to built nodes and counts what it reused, built
  and dropped; dispatch aims an event at its target (pointer capture, hit
  testing, focus), runs handlers in capture, target and bubble order until one
  stops propagation, and updates focus, hover and capture.
- `layout`: the layout tree (`tree`), its ancestry lemmas (`graph`) and styles.
- `frame`: frame patches and their validation, renderer state identities.
- `backend`: the terminal-mode bookkeeping behind the crossterm backend: which
  commands move the terminal to a desired state, and how to restore it.
- `proxy`, `wake`: the bounded external-message ingress and its wake signal.
- `runtime`: invalidation, runtime options, and the runner's scheduling decisions.
- `terminal`, `style`, `cell`, `geometry`, `surface`: the values these share.
- `comparison`, `harness`, `probe`: logic of the comparison labs, test harness
  and memory probe that does not depend on their rendering back ends.
- `platform`: the trusted wrappers around std time, hashing and locking.

## Layout

- `src/`: the verified library.
- `tests/`: its tests.
- `app/`: terminal output, layout computation and receiver ownership.
