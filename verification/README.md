# penrose_lattice

Penrose tilings and aperiodic lattices: the Fibonacci substitution matrix,
Farey sequences, the Stern–Brocot tree and the combinatorics of Penrose
inflation, with their behaviour stated in Verus contracts and proved.

## Layout

- `src/fibonacci.rs` — the Fibonacci numbers and their addition law.
- `src/substitution.rs` — `[[1, 1], [1, 0]]`, its powers by repeated squaring
  (`SubstitutionMatrix::apply_n`), 2×2 products, Cassini's identity.
- `src/number_theory.rs` — Euclid's `gcd`, Bézout coefficients, uniqueness of
  fractions in lowest terms.
- `src/farey.rs` — `FareySequence::of_order`, the Farey graph, mediants and the
  Stern–Brocot tree.
- `src/farey_laws.rs` — neighbouring Farey fractions satisfy `bc − ad = 1`,
  Farey sequences grow with the order, Stern–Brocot nodes are reduced.
- `src/penrose.rs` — nodes, edges and tile counts of a Penrose graph under
  inflation and deflation.
- `src/inflation.rs` — where inflation of a weighted graph puts its bridges.
- `app/main.rs` — the demo program and everything that computes with real
  numbers: positions, weights, Laplacians, Jacobi eigenvalues, ratios.
- `tests/` — tests of the library.
