//! Linear direct solvers for symmetric systems `K u = f`, driven through
//! the three phases analyze, factorize, solve.
pub mod cholesky;
pub mod ldlt;

use vstd::prelude::*;
use crate::csc::CscMatrix;
use crate::convert::{full_form, full_entry, full_value};
use crate::error::SolverError;
use crate::ordering::permutation::{source_of, zero_plus};
use crate::scalar::SparseScalar;
use crate::sym::SymCsrMatrix;

verus! {

/// `csc` holds the pattern of the full symmetric matrix `P K Pᵀ`: entry
/// `(i, j)` is stored exactly when entry `(p[i], p[j])` of `k` is.
pub open spec fn permuted_pattern<T>(csc: &CscMatrix<T>, k: &SymCsrMatrix<T>, p: Seq<usize>) -> bool {
    &&& csc.nrows == k.n
    &&& csc.ncols == k.n
    &&& forall|i: int, j: int| 0 <= i < k.n && 0 <= j < k.n ==>
        (#[trigger] csc.stored(i, j) <==> full_entry(k, p[i] as int, p[j] as int))
}

/// `csc` is the full symmetric matrix `P K Pᵀ`: entry `(i, j)` is entry
/// `(p[i], p[j])` of `k`.
pub open spec fn permuted_full<T>(csc: &CscMatrix<T>, k: &SymCsrMatrix<T>, p: Seq<usize>) -> bool {
    &&& permuted_pattern(csc, k, p)
    &&& forall|i: int, j: int| 0 <= i < k.n && 0 <= j < k.n && #[trigger] csc.stored(i, j) ==>
        csc.value_at(i, j) == full_value(k, p[i] as int, p[j] as int)
}

/// As `permuted_full`, each value accumulated once into a zero.
pub open spec fn permuted_full_accumulated<T: SparseScalar>(csc: &CscMatrix<T>, k: &SymCsrMatrix<T>, p: Seq<usize>) -> bool {
    &&& permuted_pattern(csc, k, p)
    &&& forall|i: int, j: int| 0 <= i < k.n && 0 <= j < k.n && #[trigger] csc.stored(i, j) ==>
        zero_plus(full_value(k, p[i] as int, p[j] as int), csc.value_at(i, j))
}

/// Upper-triangle correspondence of `kp` with `P K Pᵀ`, with values
/// related by `rel`.
pub open spec fn upper_permuted<T>(kp: &SymCsrMatrix<T>, k: &SymCsrMatrix<T>, p: Seq<usize>, rel: spec_fn(T, T) -> bool) -> bool {
    &&& kp.n == k.n
    &&& p.len() == k.n
    &&& forall|i: int, j: int| 0 <= i <= j < k.n ==> {
        let (a, b) = #[trigger] source_of(p, i, j);
        &&& kp.stored(i, j) <==> k.stored(a, b)
        &&& kp.stored(i, j) ==> rel(k.value_at(a, b), kp.value_at(i, j))
    }
}

/// The full form of a permuted upper triangle is the permuted full matrix.
pub proof fn lemma_permuted_full<T>(csc: &CscMatrix<T>, kp: &SymCsrMatrix<T>, k: &SymCsrMatrix<T>, p: Seq<usize>, rel: spec_fn(T, T) -> bool)
    requires
        full_form(csc, kp),
        upper_permuted(kp, k, p, rel),
    ensures
        permuted_pattern(csc, k, p),
        forall|i: int, j: int| 0 <= i < k.n && 0 <= j < k.n && #[trigger] csc.stored(i, j) ==>
            rel(full_value(k, p[i] as int, p[j] as int), csc.value_at(i, j)),
{
    let n = k.n as int;
    assert forall|i: int, j: int| 0 <= i < n && 0 <= j < n implies
        (#[trigger] csc.stored(i, j) <==> full_entry(k, p[i] as int, p[j] as int))
        && (csc.stored(i, j) ==> rel(full_value(k, p[i] as int, p[j] as int), csc.value_at(i, j))) by {
        if i <= j {
            let _ = source_of(p, i, j);
        } else {
            let _ = source_of(p, j, i);
        }
    }
}

/// Interface of the sparse direct solvers.
///
/// 1. `analyze`: fill-reducing ordering and pattern of the factor, once per
///    sparsity pattern;
/// 2. `factorize`: numeric factor, once per set of values;
/// 3. `solve`: `u = K⁻¹ f` by triangular solves, once per right-hand side.
pub trait LinearSolver<T: SparseScalar>: Sized {
    /// The solver's internal state is consistent.
    spec fn solver_ok(&self) -> bool;

    /// `analyze` can run on `k` (the ordering can be computed for it).
    spec fn can_analyze(&self, k: &SymCsrMatrix<T>) -> bool;

    /// `factorize` can run on `k` (its values fit the analysed pattern).
    spec fn can_factorize(&self, k: &SymCsrMatrix<T>) -> bool;

    /// What `analyze` on `k` does from this state: it returns `r` and
    /// leaves the solver as `after`.
    spec fn analyze_outcome(&self, k: &SymCsrMatrix<T>, r: Result<(), SolverError<T>>, after: Self) -> bool;

    /// What `factorize` on `k` does from this state: it returns `r` and
    /// leaves the solver as `after`.
    spec fn factorize_outcome(&self, k: &SymCsrMatrix<T>, r: Result<(), SolverError<T>>, after: Self) -> bool;

    /// Symbolic phase: ordering and pattern of the factor.
    fn analyze(&mut self, k: &SymCsrMatrix<T>) -> (r: Result<(), SolverError<T>>)
        requires
            old(self).solver_ok(),
            old(self).can_analyze(k),
            k.wf(),
        ensures
            final(self).solver_ok(),
            r is Ok ==> final(self).can_factorize(k),
            old(self).analyze_outcome(k, r, *final(self)),
    ;

    /// Numeric phase: values of the factor from `k`.
    fn factorize(&mut self, k: &SymCsrMatrix<T>) -> (r: Result<(), SolverError<T>>)
        requires
            old(self).solver_ok(),
            old(self).can_factorize(k),
            k.wf(),
        ensures
            final(self).solver_ok(),
            final(self).can_factorize(k),
            old(self).factorize_outcome(k, r, *final(self)),
    ;

    /// Triangular solve: `u = K⁻¹ f`, both in the original order.
    fn solve(&mut self, f: &[T], u: &mut [T]) -> (r: Result<(), SolverError<T>>)
        requires
            old(self).solver_ok(),
        ensures
            final(self).solver_ok(),
            final(u)@.len() == old(u)@.len(),
    ;

    /// `analyze`, then `factorize` if the analysis succeeded: a refused
    /// analysis is returned as it is; otherwise the result is that of
    /// factorizing `k` on the state the analysis left.
    fn analyze_and_factorize(&mut self, k: &SymCsrMatrix<T>) -> (r: Result<(), SolverError<T>>)
        requires
            old(self).solver_ok(),
            old(self).can_analyze(k),
            k.wf(),
        ensures
            final(self).solver_ok(),
            (r is Err && old(self).analyze_outcome(k, r, *final(self)))
                || (exists|ra: Result<(), SolverError<T>>, mid: Self| ra is Ok
                    && #[trigger] old(self).analyze_outcome(k, ra, mid) && mid.factorize_outcome(k, r, *final(self))),
    {
        let ra = self.analyze(k);
        let ghost mid = *self;
        match ra {
            Ok(()) => {
                let r = self.factorize(k);
                proof {
                    assert(ra is Ok && old(self).analyze_outcome(k, ra, mid));
                }
                r
            },
            Err(e) => Err(e),
        }
    }
}

} // verus!
