# general-mna

Modified nodal analysis of circuits given as SPICE netlists, with every algorithm verified by
Verus.

A netlist becomes the descriptor equation

```text
A x(t) + K dx(t)/dt = B u(t)
```

with symbolic entries. From it come numeric systems, phase averages, duty-cycle small-signal
inputs, state spaces, transfer functions and starting vectors. Block lines (`NAME kind=...`) of
the same netlist become a graph of signal blocks beside ideal diodes and switches.

## Layout

- `src/`: the verified library.
  - `expr`, `expression`: symbolic expressions, what they mean and how they are simplified.
  - `netlist`, `readability`, `hierarchy`: statements, the parser and the texts it returns on,
    subcircuit expansion.
  - `circuit`, `builder`, `system`: what a circuit's equation is, and how it is assembled.
  - `averaging`, `numeric`, `symbolic`, `initial_state`: what is computed from it.
  - `transient_source`: time-dependent sources.
  - `configuration`: build options from plain texts.
  - `block_*`, `static_blocks`, `dynamic_blocks`, `interface_blocks`, `system_builder`: blocks.
  - `*_laws`, `circuit_symmetry`, `field`, `determinant`: what holds of the library as a whole.
- `tests/`: tests on concrete values.
- `app/`: `f64`, error messages as `Display`, conversions to block types, Python bindings.

Numbers are of any type that implements `Scalar`; `app/` has `f64`, and `src/residue.rs` has an
exact one.

## What is trusted

- the netlist parser `general_spice_core` (`src/netlist.rs`) and which of its two dialects a value
  names (`src/readability.rs`),
- the function names known to `continuous_blocks` (`src/static_blocks.rs`),
- `String::push`, `core::slice::from_ref` and the `Debug` form of `str`.

Laws that speak of sums and products assume that the arithmetic is exact; rounding of `f64` is
outside of them.
