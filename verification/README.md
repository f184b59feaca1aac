# semigroup_math

A verified library for numerical semigroups: from a list of generators it
computes the minimal generators, the Apéry set, the Frobenius number and the
derived invariants (genus, type, pseudo-Frobenius numbers, reflected gaps,
Kunz coefficients, …), and builds on them the manipulations (toggling a
generator, descent and ascent, gluing, the symmetric partner), the Kunz-cone
inputs for Normaliz, the matrices of the diagonals view, the HTML views of the
explorer, the GAP check script and the arithmetic evaluator.

Every function under `src/` is proved by Verus against its contract, except
the few trusted wrappers (marked `#[verifier::external_body]`, in
`creators.rs` and `strata.rs`) that call the `rand` and `primal` crates:
their contracts state what those crates document and are not proved. The
laws of the library (Selmer's formula, the Kunz identities, the diagonal and
pair-relation identities, the closed form of `U(m)·C_red`, the containment
order, the invariance of `compute` under reordering, scaling and redundant
generators, the descent images, the `κ` coordinates and the `k*` slices of the
Kunz cone, …) are proof functions there.

- `src/` — the verified library (one module per topic, reached from `lib.rs`).
- `tests/` — its tests.
- `app/` — the command-line driver of the cone enumeration (file I/O, running
  Normaliz, parallel slices) and the exports the explorer page calls.
