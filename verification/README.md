# drift

Determinism lints for game-simulation code. Each rule flags a construct
whose result can differ between peers of a lockstep or rollback
simulation: unseeded global RNGs, wall-clock reads, unordered parallel
dispatch, iteration over hash-ordered containers, pointer-width integers in
hashed state, and float arithmetic reachable from the simulation tick.

## Layout

- `src/` — the verified library (Verus). The rule logic of three front
  ends, proved against contracts over plain-value models of the syntax each
  one walks:
  - `lints.rs` — the Rust rules as rustc lint passes see them, and the
    call-graph reachability scoping configured by `tick_reachable_roots`;
  - `godot.rs` — the GDScript rules over the pre-order listing of a
    `gdck-syntax` tree;
  - `cxx.rs` — the Unreal C++ rules over a libclang entity tree;
  - `unreal.rs` — compile-command handling and the aggregation of the
    per-unit outputs;
  - `reach.rs`, `findings.rs`, `text.rs`, `config.rs` — reachability,
    sorted and deduplicated reports, text helpers, configuration.
- `tests/` — tests of the library on concrete inputs.
- `app/` — the command-line programs and the rustc lint-pass glue: file and
  process I/O, libclang and rustc access, and the serialised forms of the
  library's types.
