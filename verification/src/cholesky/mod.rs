//! Sparse Cholesky factorization: symbolic analysis, numeric factorization
//! and triangular solves.
pub mod etree;
pub mod symbolic;
pub mod factor_spec;
pub mod numeric;
pub mod trace;
pub mod solve;
