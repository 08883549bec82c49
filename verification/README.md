# sparse_solvers

Sparse matrix storage and sparse direct solvers for finite-element systems,
written in Verus: the public functions of the library carry `requires` /
`ensures` contracts, and Verus proves every function of the library.

## Layout

- `src/` — the verified library, generic over a scalar type
  (`scalar::SparseScalar`):
  - `csr/`, `sym/`, `csc/` — compressed row, symmetric upper-triangle and
    compressed column storage: construction from patterns and DOF
    connectivity, lookup, accumulation, boundary conditions, products,
    iteration, validation;
  - `coo.rs` — triplet builder with duplicate summation;
  - `convert.rs` — conversions between the formats;
  - `ordering/` — adjacency graph, permutations, RCM and AMD orderings;
  - `cholesky/` — elimination tree, symbolic factor, numeric factor and
    triangular solves;
  - `linear/` — the three-phase `LinearSolver` interface with the Cholesky
    and LDLᵀ solvers;
  - `compressed.rs`, `line_ops.rs`, `rows.rs`, `text.rs` — the shared line
    storage model, sorted index lists and text rendering.
- `tests/` — the test suite, run against an `f64` scalar.
- `app/` — the host side: the `f64` scalar, diagnostic error types
  (`thiserror`, `miette`), Matrix Market files (`matrix-market-rs`),
  statistics, and the floating-point Lanczos eigensolver.

The contracts are stated over the arithmetic of the scalar type as its
operations are called, so they hold for any implementation of
`SparseScalar`; statements that need real-number algebra (such as
`L Lᵀ = K`) are left to the tests.
