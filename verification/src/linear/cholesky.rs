//! Sparse Cholesky solver for symmetric positive definite systems.
use vstd::prelude::*;
use crate::cholesky::numeric::{self, NumericCholesky};
use crate::cholesky::solve as chol_solve;
use crate::cholesky::symbolic::{self, SymbolicCholesky};
use crate::cholesky::symbolic::reach_sets;
use crate::cholesky::etree::{is_etree, fill_walk};
use crate::csc::CscMatrix;
use crate::convert::{full_form, sym_to_csc};
use crate::error::SolverError;
use crate::linear::{LinearSolver, permuted_full, upper_permuted, lemma_permuted_full};
use crate::ordering::{Reordering, rcm_permutation};
use crate::ordering::amd::{min_degree_pick, elimination_state, pattern_adjacency};
use crate::ordering::permutation::{Permutation, is_perm, injective_map, source_of};
use crate::scalar::SparseScalar;
use crate::sym::SymCsrMatrix;

verus! {

/// Buffers kept between `analyze` and the later phases.
pub struct CholWorkspace<T> {
    /// Scratch vector of the solve phase.
    pub x_perm: Vec<T>,
    /// Storage map from `K` to its permuted copy.
    pub k_perm_map: Vec<usize>,
    /// The permuted matrix, refreshed by each `factorize`.
    pub k_perm: SymCsrMatrix<T>,
    /// Full column form of `k_perm`, the matrix that is factored.
    pub k_csc: CscMatrix<T>,
}

impl<T: SparseScalar> CholWorkspace<T> {
    /// Buffers for a system of dimension `n`.
    pub fn new(n: usize, k_perm: SymCsrMatrix<T>, k_perm_map: Vec<usize>, k_csc: CscMatrix<T>) -> (r: Self)
        ensures
            r.x_perm@.len() == n,
            r.k_perm == k_perm,
            r.k_perm_map == k_perm_map,
            r.k_csc == k_csc,
    {
        let mut x_perm: Vec<T> = Vec::new();
        let mut t: usize = 0;
        while t < n
            invariant
                0 <= t <= n,
                x_perm@.len() == t,
            decreases n - t,
        {
            x_perm.push(T::zero());
            t = t + 1;
        }
        CholWorkspace { x_perm, k_perm_map, k_perm, k_csc }
    }
}

/// Sparse Cholesky solver for symmetric positive definite systems.
///
/// The ordering is chosen before `analyze` (default: AMD); `analyze`
/// caches the permutation, the symbolic factor and the storage map of the
/// permuted matrix, which `factorize` and `solve` reuse.
pub struct CholeskySolver<T> {
    ordering: Reordering,
    perm: Option<Permutation>,
    /// The symbolic factor of the current analysis (`None` before
    /// `analyze`).
    pub symbolic: Option<SymbolicCholesky>,
    numeric: Option<NumericCholesky<T>>,
    workspace: Option<CholWorkspace<T>>,
    factorized: bool,
    analysed: Ghost<SymCsrMatrix<T>>,
}

impl<T: SparseScalar> CholeskySolver<T> {
    /// Internal consistency of the cached phases.
    pub closed spec fn inv(&self) -> bool {
        &&& (self.symbolic is Some <==> self.perm is Some)
        &&& (self.symbolic is Some <==> self.workspace is Some)
        &&& (self.symbolic is Some <==> self.numeric is Some)
        &&& self.factorized ==> self.symbolic is Some
        &&& self.symbolic is Some ==> {
            let sym = self.symbolic->0;
            let p = self.perm->0;
            let ws = self.workspace->0;
            let num = self.numeric->0;
            &&& sym.wf()
            &&& p@.len() == sym.n
            &&& ws.k_perm.wf()
            &&& ws.k_perm.n == sym.n
            &&& ws.k_perm_map@.len() == ws.k_perm.values@.len()
            &&& forall|t: int| 0 <= t < ws.k_perm_map@.len() ==> #[trigger] ws.k_perm_map@[t] < ws.k_perm.values@.len()
            &&& num.n == sym.n
            &&& num.values@.len() == sym.row_idx@.len()
            &&& ws.x_perm@.len() == sym.n
            &&& ws.k_csc.wf()
            &&& full_form(&ws.k_csc, &ws.k_perm)
            &&& is_perm(p@)
            &&& self.analysed@.wf()
            &&& self.analysed@.n == sym.n
            &&& ws.k_perm_map@.len() == self.analysed@.values@.len()
            &&& injective_map(ws.k_perm_map@)
            &&& forall|i: int, j: int| 0 <= i <= j < sym.n ==> {
                let (a, b) = #[trigger] source_of(p@, i, j);
                &&& ws.k_perm.stored(i, j) <==> self.analysed@.stored(a, b)
                &&& ws.k_perm.stored(i, j) ==> ws.k_perm_map@[self.analysed@.slot(a, b)] == ws.k_perm.slot(i, j)
            }
        }
    }

    /// The symbolic factor of the current analysis.
    pub closed spec fn analysis(&self) -> SymbolicCholesky {
        self.symbolic->0
    }

    /// The permutation of the current analysis (`perm[new] = old`).
    pub closed spec fn permutation(&self) -> Seq<usize> {
        self.perm->0@
    }

    /// The matrix given to the last successful `analyze`.
    pub closed spec fn analysed_matrix(&self) -> SymCsrMatrix<T> {
        self.analysed@
    }

    /// The permuted matrix, in full column form, of the last `factorize`
    /// (of `analyze` before any).
    pub closed spec fn factored_matrix(&self) -> CscMatrix<T> {
        self.workspace->0.k_csc
    }

    /// The values of the current factor `L`, on the pattern of `analysis()`.
    pub closed spec fn factor_values(&self) -> Seq<T> {
        self.numeric->0.values@
    }

    /// `analyze` has run and its result is current.
    pub closed spec fn analysis_done(&self) -> bool {
        self.symbolic is Some
    }

    /// `factorize` has succeeded since the last `analyze`.
    pub closed spec fn factor_done(&self) -> bool {
        self.factorized
    }

    /// Dimension of the analysed system.
    pub closed spec fn dim(&self) -> nat {
        match self.symbolic {
            Some(s) => s.n as nat,
            None => 0,
        }
    }

    /// The ordering strategy of the next `analyze`.
    pub closed spec fn strategy(&self) -> Reordering {
        self.ordering
    }

    /// Number of stored values of the matrix that was analysed.
    pub closed spec fn analysed_nnz(&self) -> nat {
        match self.workspace {
            Some(ws) => ws.k_perm_map@.len(),
            None => 0,
        }
    }

    /// A new solver with the AMD ordering (the default).
    pub fn new() -> (r: Self)
        ensures
            r.inv(),
            !r.analysis_done(),
            !r.factor_done(),
            r.strategy() is Amd,
    {
        CholeskySolver {
            ordering: Reordering::Amd,
            perm: None,
            symbolic: None,
            numeric: None,
            workspace: None,
            factorized: false,
            analysed: Ghost(vstd::pervasive::arbitrary()),
        }
    }

    /// A new solver with the RCM ordering.
    pub fn with_rcm() -> (r: Self)
        ensures
            r.inv(),
            !r.analysis_done(),
            !r.factor_done(),
            r.strategy() is Rcm,
    {
        let mut s = Self::new();
        s.ordering = Reordering::Rcm;
        s
    }

    /// Choose the ordering of the next `analyze`; any current analysis and
    /// factorization are discarded.
    pub fn set_ordering(&mut self, ordering: Reordering)
        ensures
            final(self).inv(),
            final(self).strategy() == ordering,
            !final(self).analysis_done(),
            !final(self).factor_done(),
    {
        self.ordering = ordering;
        self.perm = None;
        self.symbolic = None;
        self.numeric = None;
        self.workspace = None;
        self.factorized = false;
    }

    /// The ordering strategy of the next `analyze`.
    pub fn ordering(&self) -> (r: &Reordering)
        ensures
            *r == self.strategy(),
    {
        &self.ordering
    }

    /// `true` if `analyze` has run and its result is current.
    pub fn is_analyzed(&self) -> (r: bool)
        ensures
            r == self.analysis_done(),
    {
        self.symbolic.is_some()
    }

    /// `true` if `factorize` has succeeded since the last `analyze`.
    pub fn is_factorized(&self) -> (r: bool)
        ensures
            r == self.factor_done(),
    {
        self.factorized
    }

    /// The symbolic factor of the current analysis, if any.
    pub fn symbolic(&self) -> (r: Option<&SymbolicCholesky>)
        requires
            self.inv(),
        ensures
            r is Some <==> self.analysis_done(),
            r matches Some(s) ==> s.wf() && s.n == self.dim(),
    {
        match &self.symbolic {
            Some(s) => Some(s),
            None => None,
        }
    }
}

impl<T: SparseScalar> LinearSolver<T> for CholeskySolver<T> {
    open spec fn solver_ok(&self) -> bool {
        self.inv()
    }

    open spec fn can_analyze(&self, k: &SymCsrMatrix<T>) -> bool {
        (self.strategy() is Rcm || self.strategy() is Amd) ==> k.n > 0
    }

    open spec fn can_factorize(&self, k: &SymCsrMatrix<T>) -> bool {
        self.analysis_done() ==> k.values@.len() == self.analysed_nnz()
    }

    /// `analyze` on `k` from this state returns `r` and leaves `after`: on
    /// success the ordering of the strategy, the permuted full matrix and its
    /// symbolic factor (elimination tree and pattern of `L`); the error and
    /// an unchanged solver exactly for a custom permutation of the wrong
    /// length.
    open spec fn analyze_outcome(&self, k: &SymCsrMatrix<T>, r: Result<(), SolverError<T>>, after: Self) -> bool {
        &&& (r is Ok ==> after.analysis_done() && !after.factor_done() && after.dim() == k.n
            && after.analysed_nnz() == k.values@.len())
        &&& (r is Ok ==> {
            let p = after.permutation();
            let s = after.analysis();
            &&& after.analysed_matrix() == *k
            &&& p.len() == k.n
            &&& is_perm(p)
            &&& self.strategy() is Custom ==> p == self.strategy()->Custom_0@
            &&& self.strategy() is Natural ==> p == Seq::new(k.n as nat, |i: int| i as usize)
            &&& self.strategy() is Rcm ==> rcm_permutation(k, p)
            &&& self.strategy() is Amd ==> forall|t: int| 0 <= t < k.n ==> #[trigger] min_degree_pick(
                elimination_state(pattern_adjacency(k), p, t),
                p.take(t),
                p[t],
            )
            &&& crate::linear::permuted_pattern(&after.factored_matrix(), k, p)
            &&& s.wf()
            &&& s.n == k.n
            &&& forall|j: int, i: usize| 0 <= j < k.n ==> (#[trigger] s.col(j).contains(i) <==> (
                i == j || reach_sets(&after.factored_matrix(), s.parent@, k.n as int)[j].contains(i)))
            &&& is_etree(&after.factored_matrix(), s.parent@, k.n as int)
            &&& forall|j: int| 0 <= j < k.n ==> {
                &&& (#[trigger] s.parent@[j] == k.n <==> s.col(j).len() == 1)
                &&& (s.parent@[j] < k.n ==> s.col(j)[1] == s.parent@[j])
            }
            &&& forall|i: int, j: int| 0 <= j < i < k.n ==> (#[trigger] s.col(j).contains(i as usize)
                <==> exists|w: Seq<int>| fill_walk(&after.factored_matrix(), w, i, j))
        })
        &&& (after.strategy() == self.strategy())
        &&& (r is Err ==> after == *self)
        &&& (r is Err <==> (self.strategy() is Custom && self.strategy()->Custom_0@.len() != k.n))
        &&& (r matches Err(e) ==> e == SolverError::<T>::Sparse(crate::error::SparseError::DimensionMismatch {
            expected: k.n,
            got: self.strategy()->Custom_0@.len() as usize,
        }))
    }

    /// `factorize` on `k` from this state returns `r` and leaves `after`:
    /// the numeric factor of the permuted matrix on the analysed pattern, or
    /// the error and what it keeps.
    open spec fn factorize_outcome(&self, k: &SymCsrMatrix<T>, r: Result<(), SolverError<T>>, after: Self) -> bool {
        &&& (!self.analysis_done() ==> r == Err::<(), SolverError<T>>(SolverError::NotAnalyzed) && after == *self)
        &&& (after.analysis_done() == self.analysis_done())
        &&& (after.dim() == self.dim())
        &&& (after.strategy() == self.strategy())
        &&& (after.analysed_nnz() == self.analysed_nnz())
        &&& (after.analysis() == self.analysis())
        &&& (after.permutation() == self.permutation())
        &&& (after.analysed_matrix() == self.analysed_matrix())
        &&& (self.analysis_done() && k.same_pattern(&self.analysed_matrix()) ==>
            permuted_full(&after.factored_matrix(), k, self.permutation()))
        &&& (r is Ok ==> after.factor_done()
            && numeric::chol_factor(&after.analysis(), &after.factored_matrix(), after.factor_values()))
        &&& (r is Err ==> after.factor_done() == self.factor_done())
        &&& (self.analysis_done() ==> after.factor_values().len() == self.factor_values().len())
        &&& (self.analysis_done() && r is Err ==> (r->Err_0 matches SolverError::NotPositiveDefinite { index, value }
            && index < self.dim()
            && numeric::chol_fails_at(&self.analysis(), &after.factored_matrix(), index as int, value)
            && (forall|q: int| 0 <= q < index ==> #[trigger] numeric::chol_column(
                &after.analysis(), &after.factored_matrix(), after.factor_values(), q))
            && numeric::chol_pivot_fails(&after.analysis(), &after.factored_matrix(), after.factor_values(), index as int, value)
            && (forall|p: int| after.analysis().col_ptr@[index as int] <= p < after.factor_values().len()
                ==> #[trigger] after.factor_values()[p] == self.factor_values()[p])))
    }

    /// Compute the permutation of the ordering strategy, permute `k`,
    /// convert it to full column storage and run the symbolic phase.
    ///
    /// Error: `Sparse(DimensionMismatch)` when a custom permutation does
    /// not have `k.n` entries; the solver is then unchanged.
    fn analyze(&mut self, k: &SymCsrMatrix<T>) -> (r: Result<(), SolverError<T>>)
    {
        let strategy = self.ordering.clone();
        let perm = strategy.into_permutation(k);
        let (k_perm, k_perm_map) = match perm.permute_sym_with_map(k) {
            Ok(pair) => pair,
            Err(e) => {
                return Err(SolverError::Sparse(e));
            },
        };
        let k_csc = sym_to_csc(&k_perm);
        proof {
            use_type_invariant(&perm);
            perm.lemma_well_formed();
            lemma_permuted_full(&k_csc, &k_perm, k, perm@, |x: T, y: T| crate::ordering::permutation::zero_plus(x, y));
        }
        let sym = match symbolic::analyze(&k_csc) {
            Ok(s) => s,
            Err(e) => {
                return Err(e);
            },
        };
        let ghost kc = k_csc;
        let ghost sg = sym;
        let n = sym.n;
        let nnz = sym.nnz_l();
        self.numeric = Some(NumericCholesky::new(n, nnz));
        self.workspace = Some(CholWorkspace::new(n, k_perm, k_perm_map, k_csc));
        self.factorized = false;
        self.perm = Some(perm);
        self.symbolic = Some(sym);
        self.analysed = Ghost(*k);
        proof {
            assert(self.analysed_nnz() == k.values@.len());
            assert(self.can_factorize(k));
            assert(self.factored_matrix() == kc);
            assert(self.analysis() == sg);
        }
        Ok(())
    }

    /// Refresh the permuted matrix through the cached storage map and
    /// compute the numeric factor on the cached pattern.
    ///
    /// Errors: `NotAnalyzed` before `analyze` (solver unchanged);
    /// `NotPositiveDefinite` for the first failing pivot (the previous
    /// factor and the factorized flag are kept).
    fn factorize(&mut self, k: &SymCsrMatrix<T>) -> (r: Result<(), SolverError<T>>)
    {
        if self.symbolic.is_none() || self.perm.is_none() || self.workspace.is_none() || self.numeric.is_none() {
            return Err(SolverError::NotAnalyzed);
        }
        let mut ws = match self.workspace.take() {
            Some(ws) => ws,
            None => {
                return Err(SolverError::NotAnalyzed);
            },
        };
        let ghost kp0 = ws.k_perm;
        let ghost an = self.analysed@;
        proof {
            assert(old(self).inv());
            assert(ws == old(self).workspace->0);
            assert(forall|i: int, j: int| 0 <= i <= j < kp0.n ==> {
                let (a, b) = #[trigger] source_of(self.perm->0@, i, j);
                &&& kp0.stored(i, j) <==> an.stored(a, b)
                &&& kp0.stored(i, j) ==> ws.k_perm_map@[an.slot(a, b)] == kp0.slot(i, j)
            });
            assert(old(self).can_factorize(k));
            assert(old(self).analysed_nnz() == ws.k_perm_map@.len());
            assert(k.values@.len() == ws.k_perm_map@.len());
        }
        match &self.perm {
            Some(p) => {
                p.permute_sym_into(k, &mut ws.k_perm, &ws.k_perm_map);
            },
            None => {},
        }
        proof {
            assert(ws.k_perm.wf());
            let p = self.perm->0@;
            let n = kp0.n as int;
            if k.same_pattern(&an) {
                an.lemma_same_pattern_slot_all(*k);
                assert forall|i: int, j: int| 0 <= i <= j < n implies {
                    let (a, b) = #[trigger] source_of(p, i, j);
                    &&& ws.k_perm.stored(i, j) <==> k.stored(a, b)
                    &&& ws.k_perm.stored(i, j) ==> k.value_at(a, b) == ws.k_perm.value_at(i, j)
                } by {
                    let (a, b) = source_of(p, i, j);
                    assert(p[i] < n && p[j] < n);
                    assert(0 <= a <= b < n);
                    assert(kp0.stored(i, j) <==> an.stored(a, b));
                    if ws.k_perm.stored(i, j) {
                        let k0 = choose|k0: int| #[trigger] ws.k_perm.is_slot(i, j, k0);
                        assert(kp0.is_slot(i, j, k0));
                    }
                    if kp0.stored(i, j) {
                        let k0 = choose|k0: int| #[trigger] kp0.is_slot(i, j, k0);
                        assert(ws.k_perm.is_slot(i, j, k0));
                    }
                    assert(an.stored(a, b) <==> k.stored(a, b));
                    if kp0.stored(i, j) {
                        let t = an.slot(a, b);
                        let sl = kp0.slot(i, j);
                        assert(kp0.is_slot(i, j, sl));
                        ws.k_perm.lemma_slot_is(i, j, sl);
                        let tk = an.slot(a, b);
                        assert(an.is_slot(a, b, tk));
                        an.lemma_row_bounds(a);
                        assert(0 <= t < ws.k_perm_map@.len());
                        assert(ws.k_perm_map@[t] == sl);
                        assert(ws.k_perm.values@[sl] == k.values@[t]);
                    }
                }
                assert(upper_permuted(&ws.k_perm, k, p, |x: T, y: T| x == y));
            }
        }
        let k_csc = sym_to_csc(&ws.k_perm);
        proof {
            let p = self.perm->0@;
            if k.same_pattern(&an) {
                lemma_permuted_full(&k_csc, &ws.k_perm, k, p, |x: T, y: T| x == y);
            }
        }
        ws.k_csc = k_csc;
        let mut num = match self.numeric.take() {
            Some(num) => num,
            None => {
                proof {
                    assert(false);
                }
                return Err(SolverError::NotAnalyzed);
            },
        };
        let ghost lv0 = num.values@;
        let res = match &self.symbolic {
            Some(sym) => numeric::factorize_into(&ws.k_csc, sym, &mut num.values),
            None => Err(SolverError::NotAnalyzed),
        };
        self.numeric = Some(num);
        proof {
            let nkp = ws.k_perm;
            let p = self.perm->0@;
            assert(kp0.same_pattern(&nkp));
            kp0.lemma_same_pattern_slot_all(nkp);
            assert forall|i: int, j: int| 0 <= i <= j < kp0.n implies {
                let (a, b) = #[trigger] source_of(p, i, j);
                &&& nkp.stored(i, j) <==> an.stored(a, b)
                &&& nkp.stored(i, j) ==> ws.k_perm_map@[an.slot(a, b)] == nkp.slot(i, j)
            } by {
                let (a, b) = source_of(p, i, j);
                assert(kp0.stored(i, j) <==> nkp.stored(i, j));
            }
        }
        self.workspace = Some(ws);
        match res {
            Ok(()) => {
                self.factorized = true;
                Ok(())
            },
            Err(e) => Err(e),
        }
    }

    /// Solve `K u = f` with the current factor.
    ///
    /// Errors: `NotFactorized` before a successful `factorize`;
    /// `RhsSizeMismatch` when `f` (checked first) or `u` does not have the
    /// dimension of the system.  `u` is unchanged on error.
    fn solve(&mut self, f: &[T], u: &mut [T]) -> (r: Result<(), SolverError<T>>)
        ensures
            final(self).analysis_done() == old(self).analysis_done(),
            final(self).factor_done() == old(self).factor_done(),
            final(self).dim() == old(self).dim(),
            final(self).strategy() == old(self).strategy(),
            final(self).analysed_nnz() == old(self).analysed_nnz(),
            !old(self).factor_done() ==> r == Err::<(), SolverError<T>>(SolverError::NotFactorized) && final(u)@ == old(u)@,
            old(self).factor_done() && f@.len() != old(self).dim() ==> r == Err::<(), SolverError<T>>(
                SolverError::RhsSizeMismatch { expected: old(self).dim() as usize, got: f@.len() as usize },
            ) && final(u)@ == old(u)@,
            old(self).factor_done() && f@.len() == old(self).dim() && old(u)@.len() != old(self).dim()
                ==> r == Err::<(), SolverError<T>>(
                SolverError::RhsSizeMismatch { expected: old(self).dim() as usize, got: old(u)@.len() as usize },
            ) && final(u)@ == old(u)@,
            old(self).factor_done() && f@.len() == old(self).dim() && old(u)@.len() == old(self).dim() ==> r is Ok,
            *final(self) == *old(self),
            r is Ok ==> crate::cholesky::solve::chol_solution(
                &old(self).analysis(),
                old(self).factor_values(),
                old(self).permutation(),
                f@,
                final(u)@,
            ),
    {
        if !self.factorized {
            return Err(SolverError::NotFactorized);
        }
        match (&self.perm, &self.symbolic, &self.numeric) {
            (Some(perm), Some(sym), Some(num)) => chol_solve::solve(sym, num, perm, f, u),
            _ => Err(SolverError::NotFactorized),
        }
    }
}

impl<T: SparseScalar> CholeskySolver<T> {
    /// Solving in the original numbering: after `factorize(k)` and a
    /// successful `solve(f, u)`, with `p` the permutation (`p[new] = old`)
    /// under which entry `(i, j)` of the factored matrix is `K[p[i]][p[j]]`,
    /// the substitutions with `L` and `Lᵀ` run on the right-hand side
    /// `b[i] = f[p[i]]` (`b = P f`), and their result `x` is written back
    /// with `u[p[i]] = x[i]` (`u = Pᵀ x`), so that `u` answers `K u = f` and
    /// not the permuted system.
    pub proof fn law_solve_in_original_order(s: Self, k: SymCsrMatrix<T>, f: Seq<T>, u: Seq<T>)
        requires
            s.inv(),
            s.factor_done(),
            permuted_full(&s.factored_matrix(), &k, s.permutation()),
            chol_solve::chol_solution(&s.analysis(), s.factor_values(), s.permutation(), f, u),
        ensures
            ({
                let p = s.permutation();
                let n = s.dim() as int;
                let a = s.factored_matrix();
                &&& is_perm(p)
                &&& p.len() == n
                &&& u.len() == n
                &&& forall|i: int, j: int| 0 <= i < n && 0 <= j < n && #[trigger] a.stored(i, j) ==>
                    a.value_at(i, j) == crate::convert::full_value(&k, p[i] as int, p[j] as int)
                &&& exists|b: Seq<T>, x: Seq<T>, prods: Seq<T>| {
                    &&& b.len() == n
                    &&& forall|i: int| 0 <= i < n ==> #[trigger] b[i] == f[p[i] as int]
                    &&& #[trigger] crate::cholesky::trace::solved_by(
                        s.factor_values(),
                        s.factor_values(),
                        b,
                        x,
                        chol_solve::chol_solve_ops(&s.analysis()),
                        prods,
                    )
                    &&& forall|i: int| 0 <= i < n ==> #[trigger] u[p[i] as int] == x[i]
                }
            }),
    {
    }
}

impl<T: SparseScalar> Default for CholeskySolver<T> {
    fn default() -> (r: Self)
        ensures
            r.inv(),
            !r.analysis_done(),
            !r.factor_done(),
            r.strategy() is Amd,
    {
        Self::new()
    }
}

} // verus!
