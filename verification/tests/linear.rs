use sparse_solvers::coo::CooBuilder;
use sparse_solvers::error::{SolverError, SparseError};
use sparse_solvers::linear::cholesky::CholeskySolver;
use sparse_solvers::linear::ldlt::LdltSolver;
use sparse_solvers::linear::LinearSolver;
use sparse_solvers::ordering::permutation::Permutation;
use sparse_solvers::ordering::Reordering;
use sparse_solvers::scalar::SparseScalar;
use sparse_solvers::sym::SymCsrMatrix;

/// A real number for the generic matrices, with the pivot thresholds the
/// solvers expect of `f64`.
#[derive(Clone, Copy, Debug, PartialEq, PartialOrd)]
struct Real(f64);

impl SparseScalar for Real {
    fn zero() -> Self {
        Real(0.0)
    }
    fn one() -> Self {
        Real(1.0)
    }
    fn plus(self, rhs: Self) -> Self {
        Real(self.0 + rhs.0)
    }
    fn minus(self, rhs: Self) -> Self {
        Real(self.0 - rhs.0)
    }
    fn times(self, rhs: Self) -> Self {
        Real(self.0 * rhs.0)
    }
    fn divided_by(self, rhs: Self) -> Self {
        Real(self.0 / rhs.0)
    }
    fn scalar_sqrt(self) -> Self {
        Real(self.0.sqrt())
    }
    fn is_negative(self) -> bool {
        self.0 < 0.0
    }
    fn is_positive_pivot(self) -> bool {
        !(self.0 <= 1e-12)
    }
    fn is_negligible_pivot(self) -> bool {
        self.0.abs() < 1e-14
    }
    fn magnitude(self) -> Self {
        Real(self.0.abs())
    }
    fn exceeds(self, bound: Self) -> bool {
        self.0 > bound.0
    }
    fn render(self) -> String {
        format!("{:8.4}", self.0)
    }
}

fn r(v: f64) -> Real {
    Real(v)
}

fn reals(v: &[f64]) -> Vec<Real> {
    v.iter().map(|&x| Real(x)).collect()
}

fn tridiag(n: usize) -> SymCsrMatrix<Real> {
    let mut coo = CooBuilder::new(n, n);
    for i in 0..n {
        coo.add(i, i, r(2.0));
    }
    for i in 0..(n - 1) {
        coo.add(i, i + 1, r(-1.0));
    }
    coo.build_sym().unwrap()
}

fn shifted_tridiag(n: usize, d: f64) -> SymCsrMatrix<Real> {
    let mut coo = CooBuilder::new(n, n);
    for i in 0..n {
        coo.add(i, i, r(d));
    }
    for i in 0..(n - 1) {
        coo.add(i, i + 1, r(-1.0));
    }
    coo.build_sym().unwrap()
}

/// Symmetric indefinite tridiagonal: diagonal = +2 except d[k] = -2.
fn indefinite_tridiag(n: usize, k: usize) -> SymCsrMatrix<Real> {
    let mut coo = CooBuilder::new(n, n);
    for i in 0..n {
        coo.add(i, i, r(if i == k { -2.0 } else { 2.0 }));
    }
    for i in 0..(n - 1) {
        coo.add(i, i + 1, r(-1.0));
    }
    coo.build_sym().unwrap()
}

fn diagonal(vals: &[f64]) -> SymCsrMatrix<Real> {
    let n = vals.len();
    let mut coo = CooBuilder::new(n, n);
    for (i, &v) in vals.iter().enumerate() {
        coo.add(i, i, r(v));
    }
    coo.build_sym().unwrap()
}

fn dense_3() -> SymCsrMatrix<Real> {
    let mut coo = CooBuilder::new(3, 3);
    coo.add(0, 0, r(4.0));
    coo.add(0, 1, r(1.0));
    coo.add(0, 2, r(1.0));
    coo.add(1, 1, r(4.0));
    coo.add(1, 2, r(1.0));
    coo.add(2, 2, r(4.0));
    coo.build_sym().unwrap()
}

fn check_residual(k: &SymCsrMatrix<Real>, f: &[Real], u: &[Real]) {
    let ku = k.matvec(u).unwrap();
    for (i, (kui, fi)) in ku.iter().zip(f.iter()).enumerate() {
        let err = (kui.0 - fi.0).abs();
        assert!(err < 1e-9, "residual[{i}] = {err:.2e}");
    }
}

fn ramp(n: usize) -> Vec<Real> {
    (1..=n).map(|i| r(i as f64)).collect()
}

// ================================================================
// Cholesky solver
// ================================================================

#[test]
fn analyze_factorize_solve_tridiag_3() {
    let k = tridiag(3);
    let f = reals(&[1.0, 0.0, 1.0]);
    let mut u = vec![r(0.0); 3];
    let mut solver = CholeskySolver::new();
    solver.analyze(&k).unwrap();
    solver.factorize(&k).unwrap();
    solver.solve(&f, &mut u).unwrap();
    check_residual(&k, &f, &u);
}

#[test]
fn analyze_and_factorize_convenience() {
    let k = tridiag(5);
    let f = vec![r(1.0); 5];
    let mut u = vec![r(0.0); 5];
    let mut solver = CholeskySolver::<Real>::new();
    solver.analyze_and_factorize(&k).unwrap();
    solver.solve(&f, &mut u).unwrap();
    check_residual(&k, &f, &u);
}

#[test]
fn rcm_ordering_same_solution() {
    let k = tridiag(20);
    let f = ramp(20);
    let mut u = vec![r(0.0); 20];
    let mut solver = CholeskySolver::with_rcm();
    solver.analyze_and_factorize(&k).unwrap();
    solver.solve(&f, &mut u).unwrap();
    check_residual(&k, &f, &u);
}

#[test]
fn natural_ordering_same_solution() {
    let k = tridiag(10);
    let f = vec![r(1.0); 10];
    let mut u = vec![r(0.0); 10];
    let mut solver = CholeskySolver::<Real>::new();
    solver.set_ordering(Reordering::Natural);
    solver.analyze_and_factorize(&k).unwrap();
    solver.solve(&f, &mut u).unwrap();
    check_residual(&k, &f, &u);
}

#[test]
fn set_ordering_invalidates_previous_analysis() {
    let k = tridiag(4);
    let mut solver = CholeskySolver::<Real>::new();
    solver.analyze(&k).unwrap();
    assert!(solver.is_analyzed());
    solver.set_ordering(Reordering::Rcm);
    assert!(!solver.is_analyzed());
    assert!(!solver.is_factorized());
}

#[test]
fn cholesky_refactorize_reuses_symbolic() {
    let k1 = tridiag(4);
    let k2 = shifted_tridiag(4, 3.0);
    let f = vec![r(1.0); 4];
    let mut solver = CholeskySolver::new();
    solver.analyze(&k1).unwrap();
    let mut u1 = vec![r(0.0); 4];
    solver.factorize(&k1).unwrap();
    solver.solve(&f, &mut u1).unwrap();
    check_residual(&k1, &f, &u1);
    let mut u2 = vec![r(0.0); 4];
    solver.factorize(&k2).unwrap();
    solver.solve(&f, &mut u2).unwrap();
    check_residual(&k2, &f, &u2);
}

#[test]
fn cholesky_factorize_before_analyze_errors() {
    let k = tridiag(3);
    let mut solver = CholeskySolver::<Real>::new();
    assert!(matches!(solver.factorize(&k).unwrap_err(), SolverError::NotAnalyzed));
}

#[test]
fn cholesky_solve_before_factorize_errors() {
    let k = tridiag(3);
    let mut solver = CholeskySolver::<Real>::new();
    solver.analyze(&k).unwrap();
    let mut u = vec![r(0.0); 3];
    assert!(matches!(
        solver.solve(&reals(&[1.0, 0.0, 0.0]), &mut u).unwrap_err(),
        SolverError::NotFactorized
    ));
}

#[test]
fn not_positive_definite_errors() {
    let k = diagonal(&[-4.0, 4.0]);
    let mut solver = CholeskySolver::<Real>::new();
    solver.analyze(&k).unwrap();
    assert!(matches!(solver.factorize(&k).unwrap_err(), SolverError::NotPositiveDefinite { .. }));
    assert!(!solver.is_factorized());
}

#[test]
fn cholesky_is_analyzed_and_is_factorized() {
    let k = tridiag(4);
    let mut solver = CholeskySolver::<Real>::new();
    assert!(!solver.is_analyzed());
    assert!(!solver.is_factorized());
    solver.analyze(&k).unwrap();
    assert!(solver.is_analyzed());
    assert!(!solver.is_factorized());
    solver.factorize(&k).unwrap();
    assert!(solver.is_analyzed());
    assert!(solver.is_factorized());
}

#[test]
fn cholesky_rhs_size_mismatch() {
    let k = tridiag(3);
    let mut solver = CholeskySolver::<Real>::new();
    solver.analyze_and_factorize(&k).unwrap();
    let mut u = vec![r(0.0); 3];
    assert_eq!(
        solver.solve(&reals(&[1.0, 2.0]), &mut u).unwrap_err(),
        SolverError::RhsSizeMismatch { expected: 3, got: 2 }
    );
    let mut u5 = vec![r(0.0); 5];
    assert_eq!(
        solver.solve(&reals(&[1.0, 2.0, 3.0]), &mut u5).unwrap_err(),
        SolverError::RhsSizeMismatch { expected: 3, got: 5 }
    );
}

#[test]
fn custom_ordering_of_wrong_length_is_refused() {
    let k = tridiag(3);
    let mut solver = CholeskySolver::<Real>::new();
    solver.set_ordering(Reordering::Custom(Permutation::identity(4)));
    assert_eq!(
        solver.analyze(&k).unwrap_err(),
        SolverError::Sparse(SparseError::DimensionMismatch { expected: 3, got: 4 })
    );
    assert!(!solver.is_analyzed());
    assert!(matches!(solver.ordering(), Reordering::Custom(_)));
}

#[test]
fn solver_defaults() {
    assert!(matches!(CholeskySolver::<Real>::default().ordering(), Reordering::Amd));
    assert!(matches!(CholeskySolver::<Real>::with_rcm().ordering(), Reordering::Rcm));
    assert!(matches!(LdltSolver::<Real>::default().ordering(), Reordering::Amd));
    assert!(matches!(LdltSolver::<Real>::with_rcm().ordering(), Reordering::Rcm));
    assert!(matches!(Reordering::default(), Reordering::Rcm));
}

// ================================================================
// LDLᵀ solver
// ================================================================

#[test]
fn spd_tridiag_3_residual() {
    let k = tridiag(3);
    let f = reals(&[1.0, 0.0, 1.0]);
    let mut u = vec![r(0.0); 3];
    let mut solver = LdltSolver::new();
    solver.analyze(&k).unwrap();
    solver.factorize(&k).unwrap();
    solver.solve(&f, &mut u).unwrap();
    check_residual(&k, &f, &u);
}

#[test]
fn spd_tridiag_10_residual() {
    let k = tridiag(10);
    let f = ramp(10);
    let mut u = vec![r(0.0); 10];
    let mut solver = LdltSolver::<Real>::new();
    solver.analyze_and_factorize(&k).unwrap();
    solver.solve(&f, &mut u).unwrap();
    check_residual(&k, &f, &u);
}

#[test]
fn spd_diagonal_residual() {
    let k = diagonal(&[1.0, 4.0, 9.0]);
    let f = reals(&[1.0, 4.0, 9.0]);
    let mut u = vec![r(0.0); 3];
    let mut solver = LdltSolver::<Real>::new();
    solver.analyze_and_factorize(&k).unwrap();
    solver.solve(&f, &mut u).unwrap();
    for (i, ui) in u.iter().enumerate() {
        assert!((ui.0 - 1.0).abs() < 1e-12, "u[{i}] = {}", ui.0);
    }
}

#[test]
fn spd_dense_3_residual() {
    let k = dense_3();
    let f = reals(&[6.0, 6.0, 6.0]);
    let mut u = vec![r(0.0); 3];
    let mut solver = LdltSolver::<Real>::new();
    solver.analyze_and_factorize(&k).unwrap();
    solver.solve(&f, &mut u).unwrap();
    check_residual(&k, &f, &u);
}

#[test]
fn indefinite_2x2_residual() {
    let k = diagonal(&[-4.0, 4.0]);
    let f = reals(&[1.0, 1.0]);
    let mut u = vec![r(0.0); 2];
    let mut solver = LdltSolver::<Real>::new();
    solver.analyze_and_factorize(&k).unwrap();
    solver.solve(&f, &mut u).unwrap();
    check_residual(&k, &f, &u);
    assert!((u[0].0 - (-0.25)).abs() < 1e-12, "u[0] = {}", u[0].0);
    assert!((u[1].0 - 0.25).abs() < 1e-12, "u[1] = {}", u[1].0);
}

#[test]
fn indefinite_tridiag_n5_residual() {
    let k = indefinite_tridiag(5, 2);
    let f = reals(&[1.0, 2.0, 3.0, 2.0, 1.0]);
    let mut u = vec![r(0.0); 5];
    let mut solver = LdltSolver::<Real>::new();
    solver.analyze_and_factorize(&k).unwrap();
    solver.solve(&f, &mut u).unwrap();
    check_residual(&k, &f, &u);
}

#[test]
fn indefinite_tridiag_n10_residual() {
    let k = indefinite_tridiag(10, 5);
    let f = ramp(10);
    let mut u = vec![r(0.0); 10];
    let mut solver = LdltSolver::<Real>::new();
    solver.analyze_and_factorize(&k).unwrap();
    solver.solve(&f, &mut u).unwrap();
    check_residual(&k, &f, &u);
}

#[test]
fn fully_negative_definite_residual() {
    let mut coo = CooBuilder::new(3, 3);
    coo.add(0, 0, r(-4.0));
    coo.add(1, 1, r(-4.0));
    coo.add(2, 2, r(-4.0));
    coo.add(0, 1, r(1.0));
    coo.add(1, 2, r(1.0));
    let k = coo.build_sym().unwrap();
    let f = reals(&[1.0, 0.0, 1.0]);
    let mut u = vec![r(0.0); 3];
    let mut solver = LdltSolver::<Real>::new();
    solver.analyze_and_factorize(&k).unwrap();
    solver.solve(&f, &mut u).unwrap();
    check_residual(&k, &f, &u);
    assert_eq!(solver.negative_pivots(), Some(3));
}

#[test]
fn negative_pivots_spd_is_zero() {
    let k = tridiag(5);
    let mut solver = LdltSolver::<Real>::new();
    solver.analyze_and_factorize(&k).unwrap();
    assert_eq!(solver.negative_pivots(), Some(0));
}

#[test]
fn negative_pivots_before_factorize_is_none() {
    let k = tridiag(5);
    let mut solver = LdltSolver::<Real>::new();
    solver.analyze(&k).unwrap();
    assert_eq!(solver.negative_pivots(), None);
}

#[test]
fn negative_pivots_indefinite_nonzero() {
    let k = indefinite_tridiag(5, 2);
    let mut solver = LdltSolver::<Real>::new();
    solver.analyze_and_factorize(&k).unwrap();
    assert!(solver.negative_pivots().unwrap() > 0);
}

#[test]
fn rcm_ordering_correct() {
    let k = tridiag(20);
    let f = ramp(20);
    let mut u = vec![r(0.0); 20];
    let mut solver = LdltSolver::with_rcm();
    solver.analyze_and_factorize(&k).unwrap();
    solver.solve(&f, &mut u).unwrap();
    check_residual(&k, &f, &u);
}

#[test]
fn natural_ordering_correct() {
    let k = tridiag(10);
    let f = vec![r(1.0); 10];
    let mut u = vec![r(0.0); 10];
    let mut solver = LdltSolver::<Real>::new();
    solver.set_ordering(Reordering::Natural);
    solver.analyze_and_factorize(&k).unwrap();
    solver.solve(&f, &mut u).unwrap();
    check_residual(&k, &f, &u);
}

#[test]
fn set_ordering_invalidates_analysis() {
    let k = tridiag(4);
    let mut solver = LdltSolver::<Real>::new();
    solver.analyze(&k).unwrap();
    assert!(solver.is_analyzed());
    solver.set_ordering(Reordering::Rcm);
    assert!(!solver.is_analyzed());
    assert!(!solver.is_factorized());
}

#[test]
fn ldlt_refactorize_reuses_symbolic() {
    let k1 = tridiag(6);
    let k2 = shifted_tridiag(6, 3.0);
    let f = vec![r(1.0); 6];
    let mut solver = LdltSolver::new();
    solver.analyze(&k1).unwrap();
    let mut u1 = vec![r(0.0); 6];
    solver.factorize(&k1).unwrap();
    solver.solve(&f, &mut u1).unwrap();
    check_residual(&k1, &f, &u1);
    let mut u2 = vec![r(0.0); 6];
    solver.factorize(&k2).unwrap();
    solver.solve(&f, &mut u2).unwrap();
    check_residual(&k2, &f, &u2);
}

#[test]
fn ldlt_factorize_before_analyze_errors() {
    let k = tridiag(3);
    let mut solver = LdltSolver::<Real>::new();
    assert!(matches!(solver.factorize(&k).unwrap_err(), SolverError::NotAnalyzed));
}

#[test]
fn ldlt_solve_before_factorize_errors() {
    let k = tridiag(3);
    let mut solver = LdltSolver::<Real>::new();
    solver.analyze(&k).unwrap();
    let mut u = vec![r(0.0); 3];
    assert!(matches!(
        solver.solve(&reals(&[1.0, 0.0, 0.0]), &mut u).unwrap_err(),
        SolverError::NotFactorized
    ));
}

#[test]
fn singular_matrix_errors() {
    let mut coo = CooBuilder::new(2, 2);
    coo.add(0, 0, r(1.0));
    coo.add(0, 1, r(1.0));
    coo.add(1, 1, r(1.0));
    let k = coo.build_sym().unwrap();
    let mut solver = LdltSolver::<Real>::new();
    solver.analyze(&k).unwrap();
    assert!(matches!(solver.factorize(&k).unwrap_err(), SolverError::NotPositiveDefinite { .. }));
}

#[test]
fn ldlt_rhs_size_mismatch_f() {
    let k = tridiag(3);
    let mut solver = LdltSolver::<Real>::new();
    solver.analyze_and_factorize(&k).unwrap();
    let mut u = vec![r(0.0); 3];
    assert!(matches!(
        solver.solve(&reals(&[1.0, 2.0]), &mut u).unwrap_err(),
        SolverError::RhsSizeMismatch { expected: 3, got: 2 }
    ));
}

#[test]
fn ldlt_rhs_size_mismatch_u() {
    let k = tridiag(3);
    let mut solver = LdltSolver::<Real>::new();
    solver.analyze_and_factorize(&k).unwrap();
    let mut u = vec![r(0.0); 5];
    assert!(matches!(
        solver.solve(&reals(&[1.0, 2.0, 3.0]), &mut u).unwrap_err(),
        SolverError::RhsSizeMismatch { expected: 3, got: 5 }
    ));
}

#[test]
fn ldlt_is_analyzed_and_is_factorized() {
    let k = tridiag(4);
    let mut solver = LdltSolver::<Real>::new();
    assert!(!solver.is_analyzed());
    assert!(!solver.is_factorized());
    solver.analyze(&k).unwrap();
    assert!(solver.is_analyzed());
    assert!(!solver.is_factorized());
    solver.factorize(&k).unwrap();
    assert!(solver.is_analyzed());
    assert!(solver.is_factorized());
}

#[test]
fn pivots_accessor() {
    let k = tridiag(4);
    let mut solver = LdltSolver::<Real>::new();
    assert!(solver.pivots().is_none());
    solver.analyze_and_factorize(&k).unwrap();
    let pivots = solver.pivots().unwrap();
    assert_eq!(pivots.len(), 4);
    for &d in pivots {
        assert!(d.0 > 0.0, "pivot = {}", d.0);
    }
}

#[test]
fn ldlt_pivots_of_a_diagonal_are_its_entries() {
    let k = diagonal(&[2.0, -3.0, 5.0]);
    let mut solver = LdltSolver::<Real>::new();
    solver.set_ordering(Reordering::Natural);
    solver.analyze_and_factorize(&k).unwrap();
    assert_eq!(solver.pivots().unwrap(), reals(&[2.0, -3.0, 5.0]).as_slice());
    assert_eq!(solver.negative_pivots(), Some(1));
}

#[test]
fn cholesky_failed_refactorization_overwrites_columns_before_the_bad_pivot() {
    // diag(4, 4) factors to diag(2, 2); refactorizing diag(9, -1) on the same
    // pattern writes column 0 (L[0,0] = 3) and stops at column 1, whose old
    // value 2 stays; the solver stays factorized with the mixed factor.
    let k1 = diagonal(&[4.0, 4.0]);
    let k2 = diagonal(&[9.0, -1.0]);
    let mut solver = CholeskySolver::new();
    solver.set_ordering(Reordering::Natural);
    solver.analyze(&k1).unwrap();
    solver.factorize(&k1).unwrap();
    match solver.factorize(&k2) {
        Err(SolverError::NotPositiveDefinite { index, value }) => {
            assert_eq!(index, 1);
            assert_eq!(value, r(-1.0));
        }
        other => panic!("expected a pivot failure, got {other:?}"),
    }
    assert!(solver.is_factorized());
    let mut u = vec![r(0.0); 2];
    solver.solve(&reals(&[9.0, 4.0]), &mut u).unwrap();
    assert_eq!(u, reals(&[1.0, 1.0]));
}
