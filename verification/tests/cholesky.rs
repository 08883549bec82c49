use sparse_solvers::cholesky::numeric::{factorize, NumericCholesky};
use sparse_solvers::cholesky::solve::solve;
use sparse_solvers::cholesky::symbolic::{analyze, build_children, elimination_tree, SymbolicCholesky};
use sparse_solvers::coo::CooBuilder;
use sparse_solvers::convert::sym_to_csc;
use sparse_solvers::csc::CscMatrix;
use sparse_solvers::error::SolverError;
use sparse_solvers::linear::cholesky::CholeskySolver;
use sparse_solvers::linear::LinearSolver;
use sparse_solvers::ordering::graph::Graph;
use sparse_solvers::ordering::permutation::Permutation;
use sparse_solvers::ordering::rcm::rcm;
use sparse_solvers::scalar::SparseScalar;
use sparse_solvers::sym::SymCsrMatrix;

/// A real number for the generic matrices, with the pivot thresholds the
/// solvers expect of `f64`.
#[derive(Clone, Copy, Debug, PartialEq, PartialOrd)]
struct Real(f64);

impl SparseScalar for Real {
    fn zero() -> Self {
        Real(0.0)
    }
    fn one() -> Self {
        Real(1.0)
    }
    fn plus(self, rhs: Self) -> Self {
        Real(self.0 + rhs.0)
    }
    fn minus(self, rhs: Self) -> Self {
        Real(self.0 - rhs.0)
    }
    fn times(self, rhs: Self) -> Self {
        Real(self.0 * rhs.0)
    }
    fn divided_by(self, rhs: Self) -> Self {
        Real(self.0 / rhs.0)
    }
    fn scalar_sqrt(self) -> Self {
        Real(self.0.sqrt())
    }
    fn is_negative(self) -> bool {
        self.0 < 0.0
    }
    fn is_positive_pivot(self) -> bool {
        !(self.0 <= 1e-12)
    }
    fn is_negligible_pivot(self) -> bool {
        self.0.abs() < 1e-14
    }
    fn magnitude(self) -> Self {
        Real(self.0.abs())
    }
    fn exceeds(self, bound: Self) -> bool {
        self.0 > bound.0
    }
    fn render(self) -> String {
        format!("{:8.4}", self.0)
    }
}

fn r(v: f64) -> Real {
    Real(v)
}

fn reals(v: &[f64]) -> Vec<Real> {
    v.iter().map(|&x| Real(x)).collect()
}

// ---- matrix builders ----

fn tridiag(n: usize) -> SymCsrMatrix<Real> {
    let mut coo = CooBuilder::new(n, n);
    for i in 0..n {
        coo.add(i, i, r(2.0));
    }
    for i in 0..(n - 1) {
        coo.add(i, i + 1, r(-1.0));
    }
    coo.build_sym().unwrap()
}

fn diagonal_mat(vals: &[f64]) -> SymCsrMatrix<Real> {
    let n = vals.len();
    let mut coo = CooBuilder::new(n, n);
    for (i, &v) in vals.iter().enumerate() {
        coo.add(i, i, r(v));
    }
    coo.build_sym().unwrap()
}

fn diagonal(n: usize) -> SymCsrMatrix<Real> {
    let mut coo = CooBuilder::new(n, n);
    for i in 0..n {
        coo.add(i, i, r((i + 1) as f64));
    }
    coo.build_sym().unwrap()
}

/// K = [[4,1,1],[1,4,1],[1,1,4]]
fn dense_3() -> SymCsrMatrix<Real> {
    let mut coo = CooBuilder::new(3, 3);
    coo.add(0, 0, r(4.0));
    coo.add(0, 1, r(1.0));
    coo.add(0, 2, r(1.0));
    coo.add(1, 1, r(4.0));
    coo.add(1, 2, r(1.0));
    coo.add(2, 2, r(4.0));
    coo.build_sym().unwrap()
}

/// Star with the hub as the last node.
fn star_hub_last(n: usize) -> SymCsrMatrix<Real> {
    let hub = n - 1;
    let mut coo = CooBuilder::new(n, n);
    for i in 0..n {
        coo.add(i, i, r((n as f64) + 1.0));
    }
    for i in 0..hub {
        coo.add(i, hub, r(-1.0));
    }
    coo.build_sym().unwrap()
}

/// k x k grid Laplacian, row-major numbering.
fn grid_laplacian(k: usize) -> SymCsrMatrix<Real> {
    let n = k * k;
    let mut coo = CooBuilder::new(n, n);
    for row in 0..k {
        for c in 0..k {
            let i = row * k + c;
            coo.add(i, i, r(4.0));
            if c + 1 < k {
                coo.add(i, row * k + c + 1, r(-1.0));
            }
            if row + 1 < k {
                coo.add(i, (row + 1) * k + c, r(-1.0));
            }
        }
    }
    coo.build_sym().unwrap()
}

fn to_csc(sym: &SymCsrMatrix<Real>) -> CscMatrix<Real> {
    sym_to_csc(sym)
}

// ---- numeric factor ----

fn factorize_direct(k: &SymCsrMatrix<Real>) -> (SymbolicCholesky, NumericCholesky<Real>) {
    let csc = sym_to_csc(k);
    let sym = analyze(&csc).unwrap();
    let num = factorize(&csc, &sym).unwrap();
    (sym, num)
}

/// Reconstruct LLᵀ densely and compare it with K entry by entry.
fn check_llt(k: &SymCsrMatrix<Real>) {
    let (sym, num) = factorize_direct(k);
    let n = sym.n;
    let mut llt = vec![vec![0.0f64; n]; n];
    for j in 0..n {
        let l_start = sym.col_ptr[j];
        let l_end = sym.col_ptr[j + 1];
        for pos_i in l_start..l_end {
            let i = sym.row_idx[pos_i];
            let lij = num.values[pos_i].0;
            for pos_r in l_start..=pos_i {
                let rr = sym.row_idx[pos_r];
                let lrj = num.values[pos_r].0;
                llt[i][rr] += lij * lrj;
                if i != rr {
                    llt[rr][i] += lij * lrj;
                }
            }
        }
    }
    for row in 0..n {
        for col in 0..n {
            let kval = k.get(row, col).unwrap().0;
            let diff = (llt[row][col] - kval).abs();
            assert!(diff < 1e-10, "LLᵀ[{row},{col}]={} K={kval} diff={diff:.2e}", llt[row][col]);
        }
    }
}

#[test]
fn diagonal_1x1() {
    let (sym, num) = factorize_direct(&diagonal_mat(&[4.0]));
    let diag = num.values[sym.col_ptr[0]].0;
    assert!((diag - 2.0).abs() < 1e-14, "L[0,0]={diag} expected 2");
}

#[test]
fn diagonal_llt() {
    check_llt(&diagonal_mat(&[1.0, 4.0, 9.0]));
}

#[test]
fn diagonal_values_are_sqrt() {
    let vals = [1.0_f64, 4.0, 9.0, 16.0];
    let (sym, num) = factorize_direct(&diagonal_mat(&vals));
    for (i, &v) in vals.iter().enumerate() {
        let diag = num.values[sym.col_ptr[i]].0;
        assert!((diag - v.sqrt()).abs() < 1e-13, "L[{i},{i}]={diag}");
    }
}

#[test]
fn tridiag_3_llt() {
    check_llt(&tridiag(3));
}

#[test]
fn tridiag_5_llt() {
    check_llt(&tridiag(5));
}

#[test]
fn tridiag_10_llt() {
    check_llt(&tridiag(10));
}

#[test]
fn tridiag_20_llt() {
    check_llt(&tridiag(20));
}

#[test]
fn dense_3_llt() {
    check_llt(&dense_3());
}

#[test]
fn indefinite_returns_not_positive_definite() {
    let mut coo = CooBuilder::new(2, 2);
    coo.add(0, 0, r(-1.0));
    coo.add(1, 1, r(1.0));
    let k = coo.build_sym().unwrap();
    let csc = sym_to_csc(&k);
    let sym = analyze(&csc).unwrap();
    assert!(matches!(
        factorize(&csc, &sym).unwrap_err(),
        SolverError::NotPositiveDefinite { index: 0, .. }
    ));
}

#[test]
fn singular_returns_not_positive_definite() {
    let mut coo = CooBuilder::new(2, 2);
    coo.add(0, 0, r(1.0));
    coo.add(0, 1, r(1.0));
    coo.add(1, 1, r(1.0));
    let k = coo.build_sym().unwrap();
    let csc = sym_to_csc(&k);
    let sym = analyze(&csc).unwrap();
    assert!(matches!(factorize(&csc, &sym).unwrap_err(), SolverError::NotPositiveDefinite { .. }));
}

#[test]
fn n_field_correct() {
    let (_, num) = factorize_direct(&tridiag(7));
    assert_eq!(num.n, 7);
}

#[test]
fn values_len_matches_nnz_l() {
    let (sym, num) = factorize_direct(&tridiag(8));
    assert_eq!(num.values.len(), sym.nnz_l());
}

// ---- triangular solves ----

fn solve_direct(k: &SymCsrMatrix<Real>, f: &[Real]) -> Vec<Real> {
    let p = Permutation::identity(k.n);
    let (sym, num) = factorize_direct(k);
    let mut u = vec![r(0.0); k.n];
    solve(&sym, &num, &p, f, &mut u).unwrap();
    u
}

fn solve_rcm(k: &SymCsrMatrix<Real>, f: &[Real]) -> Vec<Real> {
    let perm = rcm(&Graph::from_sym(k));
    let kp = perm.permute_sym(k).unwrap();
    let (sym, num) = factorize_direct(&kp);
    let mut u = vec![r(0.0); k.n];
    solve(&sym, &num, &perm, f, &mut u).unwrap();
    u
}

fn check_residual(k: &SymCsrMatrix<Real>, f: &[Real], u: &[Real]) {
    let ku = k.matvec(u).unwrap();
    for (i, (kui, fi)) in ku.iter().zip(f.iter()).enumerate() {
        let err = (kui.0 - fi.0).abs();
        assert!(err < 1e-9, "residual[{i}] = {err:.2e}");
    }
}

#[test]
fn one_by_one() {
    let k = diagonal_mat(&[9.0]);
    let u = solve_direct(&k, &reals(&[3.0]));
    assert!((u[0].0 - 1.0 / 3.0).abs() < 1e-13);
}

#[test]
fn diagonal_3() {
    let k = diagonal_mat(&[1.0, 4.0, 9.0]);
    let u = solve_direct(&k, &reals(&[1.0, 4.0, 9.0]));
    for (i, ui) in u.iter().enumerate() {
        assert!((ui.0 - 1.0).abs() < 1e-13, "u[{i}]={}", ui.0);
    }
}

#[test]
fn two_by_two_known() {
    let mut coo = CooBuilder::new(2, 2);
    coo.add(0, 0, r(4.0));
    coo.add(0, 1, r(-1.0));
    coo.add(1, 1, r(4.0));
    let k = coo.build_sym().unwrap();
    let u = solve_direct(&k, &reals(&[3.0, 3.0]));
    assert!((u[0].0 - 1.0).abs() < 1e-12);
    assert!((u[1].0 - 1.0).abs() < 1e-12);
}

#[test]
fn tridiag_3_residual() {
    let k = tridiag(3);
    let f = reals(&[1.0, 0.0, 1.0]);
    check_residual(&k, &f, &solve_direct(&k, &f));
}

#[test]
fn tridiag_10_residual() {
    let k = tridiag(10);
    let f: Vec<Real> = (1..=10).map(|i| r(i as f64)).collect();
    check_residual(&k, &f, &solve_direct(&k, &f));
}

#[test]
fn tridiag_50_residual() {
    let k = tridiag(50);
    let f = vec![r(1.0); 50];
    check_residual(&k, &f, &solve_direct(&k, &f));
}

#[test]
fn tridiag_3_rcm_residual() {
    let k = tridiag(3);
    let f = reals(&[1.0, 0.0, 1.0]);
    check_residual(&k, &f, &solve_rcm(&k, &f));
}

#[test]
fn tridiag_10_rcm_residual() {
    let k = tridiag(10);
    let f: Vec<Real> = (1..=10).map(|i| r(i as f64)).collect();
    check_residual(&k, &f, &solve_rcm(&k, &f));
}

#[test]
fn tridiag_50_rcm_residual() {
    let k = tridiag(50);
    let f = vec![r(1.0); 50];
    check_residual(&k, &f, &solve_rcm(&k, &f));
}

#[test]
fn tridiag_100_rcm_residual() {
    let k = tridiag(100);
    let f: Vec<Real> = (1..=100).map(|i| r(i as f64)).collect();
    check_residual(&k, &f, &solve_rcm(&k, &f));
}

#[test]
fn dense_3_rcm_residual() {
    let k = dense_3();
    let f = reals(&[6.0, 6.0, 6.0]);
    check_residual(&k, &f, &solve_rcm(&k, &f));
}

#[test]
fn rcm_and_direct_agree() {
    let k = tridiag(15);
    let f: Vec<Real> = (1..=15).map(|i| r(i as f64)).collect();
    let u_direct = solve_direct(&k, &f);
    let u_rcm = solve_rcm(&k, &f);
    for (i, (a, b)) in u_direct.iter().zip(u_rcm.iter()).enumerate() {
        assert!((a.0 - b.0).abs() < 1e-10, "u_direct[{i}]={} u_rcm[{i}]={}", a.0, b.0);
    }
}

#[test]
fn solve_rhs_size_mismatch_f() {
    let (sym, num) = factorize_direct(&tridiag(3));
    let p = Permutation::identity(3);
    let mut u = vec![r(0.0); 3];
    assert!(matches!(
        solve(&sym, &num, &p, &reals(&[1.0, 2.0]), &mut u).unwrap_err(),
        SolverError::RhsSizeMismatch { expected: 3, got: 2 }
    ));
}

#[test]
fn solve_rhs_size_mismatch_u() {
    let (sym, num) = factorize_direct(&tridiag(3));
    let p = Permutation::identity(3);
    let mut u = vec![r(0.0); 5];
    assert!(matches!(
        solve(&sym, &num, &p, &reals(&[1.0, 2.0, 3.0]), &mut u).unwrap_err(),
        SolverError::RhsSizeMismatch { expected: 3, got: 5 }
    ));
    assert_eq!(u, vec![r(0.0); 5]);
}

// ---- elimination tree and pattern of L ----

#[test]
fn etree_diagonal_all_roots() {
    let parent = elimination_tree(&to_csc(&diagonal(4)));
    assert_eq!(parent, vec![4, 4, 4, 4]);
}

#[test]
fn etree_tridiag_3_chain() {
    let parent = elimination_tree(&to_csc(&tridiag(3)));
    assert_eq!(parent[0], 1);
    assert_eq!(parent[1], 2);
    assert_eq!(parent[2], 3);
}

#[test]
fn etree_tridiag_n_is_chain() {
    let n = 8;
    let parent = elimination_tree(&to_csc(&tridiag(n)));
    for j in 0..(n - 1) {
        assert_eq!(parent[j], j + 1, "parent[{j}] should be {}", j + 1);
    }
    assert_eq!(parent[n - 1], n);
}

#[test]
fn etree_dense_3() {
    let parent = elimination_tree(&to_csc(&dense_3()));
    assert_eq!(parent[0], 1);
    assert_eq!(parent[1], 2);
    assert_eq!(parent[2], 3);
}

#[test]
fn children_lists_follow_parents() {
    let children = build_children(&[2, 2, 3, 4], 4);
    assert_eq!(children, vec![vec![], vec![], vec![0, 1], vec![2]]);
}

#[test]
fn pattern_diagonal_no_fill() {
    let sym = analyze(&to_csc(&diagonal(3))).unwrap();
    assert_eq!(sym.nnz_l(), 3);
    assert_eq!(sym.col_ptr, vec![0, 1, 2, 3]);
    assert_eq!(sym.row_idx, vec![0, 1, 2]);
}

#[test]
fn pattern_tridiag_3_bidiagonal() {
    let sym = analyze(&to_csc(&tridiag(3))).unwrap();
    assert_eq!(sym.nnz_l(), 5);
    assert_eq!(&sym.row_idx[sym.col_ptr[0]..sym.col_ptr[1]], &[0, 1]);
    assert_eq!(&sym.row_idx[sym.col_ptr[1]..sym.col_ptr[2]], &[1, 2]);
    assert_eq!(&sym.row_idx[sym.col_ptr[2]..sym.col_ptr[3]], &[2]);
}

#[test]
fn pattern_tridiag_4_nnz_7() {
    assert_eq!(analyze(&to_csc(&tridiag(4))).unwrap().nnz_l(), 7);
}

#[test]
fn pattern_dense_3_full_lower() {
    let sym = analyze(&to_csc(&dense_3())).unwrap();
    assert_eq!(sym.nnz_l(), 6);
    assert_eq!(&sym.row_idx[sym.col_ptr[0]..sym.col_ptr[1]], &[0, 1, 2]);
    assert_eq!(&sym.row_idx[sym.col_ptr[1]..sym.col_ptr[2]], &[1, 2]);
    assert_eq!(&sym.row_idx[sym.col_ptr[2]..sym.col_ptr[3]], &[2]);
}

#[test]
fn star_hub_last_fill() {
    let n = 5;
    let hub = n - 1;
    let sym = analyze(&to_csc(&star_hub_last(n))).unwrap();
    for col in 0..hub {
        let rows = &sym.row_idx[sym.col_ptr[col]..sym.col_ptr[col + 1]];
        assert_eq!(rows, &[col, hub], "col {col}: got {rows:?}");
    }
    assert_eq!(&sym.row_idx[sym.col_ptr[hub]..sym.col_ptr[hub + 1]], &[hub]);
}

#[test]
fn grid_3x3_fill_not_underestimated() {
    let sym = analyze(&to_csc(&grid_laplacian(3))).unwrap();
    let col3_rows: Vec<usize> = sym.row_idx[sym.col_ptr[3]..sym.col_ptr[4]].to_vec();
    assert!(col3_rows.contains(&5), "col3={col3_rows:?}");
    let col6_rows: Vec<usize> = sym.row_idx[sym.col_ptr[6]..sym.col_ptr[7]].to_vec();
    assert!(col6_rows.contains(&8), "col6={col6_rows:?}");
}

fn check_invariants(sym: &SymbolicCholesky) {
    let n = sym.n;
    assert_eq!(sym.col_ptr.len(), n + 1);
    assert_eq!(sym.col_ptr[0], 0);
    assert_eq!(*sym.col_ptr.last().unwrap(), sym.row_idx.len());
    for col in 0..n {
        let rows = &sym.row_idx[sym.col_ptr[col]..sym.col_ptr[col + 1]];
        assert!(rows.contains(&col), "diagonal missing in col {col}");
        for &row in rows {
            assert!(row >= col, "upper-triangle entry ({row},{col}) in L");
        }
        for w in rows.windows(2) {
            assert!(w[0] < w[1], "rows not sorted in col {col}");
        }
    }
}

#[test]
fn invariants_diagonal() {
    check_invariants(&analyze(&to_csc(&diagonal(5))).unwrap());
}

#[test]
fn invariants_tridiag_small() {
    check_invariants(&analyze(&to_csc(&tridiag(3))).unwrap());
}

#[test]
fn invariants_tridiag_large() {
    check_invariants(&analyze(&to_csc(&tridiag(20))).unwrap());
}

#[test]
fn invariants_dense_3() {
    check_invariants(&analyze(&to_csc(&dense_3())).unwrap());
}

#[test]
fn invariants_star_hub_last() {
    check_invariants(&analyze(&to_csc(&star_hub_last(6))).unwrap());
}

#[test]
fn invariants_grid_3x3() {
    check_invariants(&analyze(&to_csc(&grid_laplacian(3))).unwrap());
}

#[test]
fn invariants_grid_5x5() {
    check_invariants(&analyze(&to_csc(&grid_laplacian(5))).unwrap());
}

#[test]
fn n_field_matches_input() {
    assert_eq!(analyze(&to_csc(&tridiag(7))).unwrap().n, 7);
}

// ---- the symbolic phase through the public entry points ----

#[test]
fn symbolic_tridiag_nnz_l_equals_2n_minus_1() {
    for n in [3, 5, 10, 20] {
        let sym = analyze(&sym_to_csc(&tridiag(n))).unwrap();
        assert_eq!(sym.nnz_l(), 2 * n - 1);
    }
}

#[test]
fn symbolic_col_ptr_monotone_nondecreasing() {
    let sym = analyze(&sym_to_csc(&tridiag(10))).unwrap();
    for w in sym.col_ptr.windows(2) {
        assert!(w[0] <= w[1]);
    }
}

#[test]
fn symbolic_row_idx_in_lower_triangle() {
    let sym = analyze(&sym_to_csc(&tridiag(8))).unwrap();
    for col in 0..sym.n {
        for &row in &sym.row_idx[sym.col_ptr[col]..sym.col_ptr[col + 1]] {
            assert!(row >= col);
        }
    }
}

#[test]
fn symbolic_diagonal_entries_present_in_all_columns() {
    let sym = analyze(&sym_to_csc(&tridiag(6))).unwrap();
    for col in 0..sym.n {
        let rows = &sym.row_idx[sym.col_ptr[col]..sym.col_ptr[col + 1]];
        assert!(rows.contains(&col));
    }
}

#[test]
fn sparse_solver_analyze_then_factorize_error() {
    let k = tridiag(4);
    let mut solver = CholeskySolver::new();
    assert!(matches!(solver.factorize(&k).unwrap_err(), SolverError::NotAnalyzed));
    solver.analyze(&k).unwrap();
    solver.factorize(&k).unwrap();
}

#[test]
fn sparse_solver_solve_before_factorize_errors() {
    let k = tridiag(3);
    let mut solver = CholeskySolver::new();
    solver.analyze(&k).unwrap();
    let mut u = vec![r(0.0); 3];
    assert!(matches!(
        solver.solve(&reals(&[1.0, 0.0, 0.0]), &mut u).unwrap_err(),
        SolverError::NotFactorized
    ));
}

#[test]
fn csc_of_symmetric_holds_both_triangles() {
    let csc = to_csc(&dense_3());
    assert_eq!(csc.col_ptr(), &[0, 3, 6, 9]);
    assert_eq!(csc.row_idx(), &[0, 1, 2, 0, 1, 2, 0, 1, 2]);
    assert_eq!(csc.values(), reals(&[4.0, 1.0, 1.0, 1.0, 4.0, 1.0, 1.0, 1.0, 4.0]).as_slice());
    assert_eq!(csc.nnz(), 9);
}

// ---- the elimination tree is the first sub-diagonal row of each column of L ----

fn first_subdiagonal_rows(s: &SymbolicCholesky) -> Vec<usize> {
    (0..s.n)
        .map(|j| {
            let col = &s.row_idx[s.col_ptr[j]..s.col_ptr[j + 1]];
            assert_eq!(col[0], j, "column {j} starts with its diagonal");
            if col.len() > 1 { col[1] } else { s.n }
        })
        .collect()
}

#[test]
fn etree_parent_is_first_row_below_diagonal() {
    for m in [tridiag(6), diagonal(4), dense_3(), star_hub_last(5), grid_laplacian(3)] {
        let s = analyze(&to_csc(&m)).unwrap();
        assert_eq!(s.parent, first_subdiagonal_rows(&s));
    }
}

#[test]
fn etree_follows_fill_not_only_entries() {
    // arrow with the hub first: K[0, j] != 0 for all j, no other coupling.
    // Column 0 of L reaches every row; eliminating it fills the rest, so the
    // tree is the chain 0 -> 1 -> 2 -> 3 although K[1, 2] and K[2, 3] are 0.
    let n = 4;
    let pattern: Vec<Vec<usize>> = (0..n).map(|i| if i == 0 { (0..n).collect() } else { vec![i] }).collect();
    let m = SymCsrMatrix::<Real>::from_pattern(n, &pattern).unwrap();
    let s = analyze(&to_csc(&m)).unwrap();
    assert_eq!(s.parent, vec![1, 2, 3, 4]);
    assert_eq!(s.parent, first_subdiagonal_rows(&s));
    assert_eq!(s.nnz_l(), 10);
}

/// A walk from `i` to `j` in the graph of `k` whose inner nodes are below `j`.
fn joined_below(k: &CscMatrix<Real>, i: usize, j: usize) -> bool {
    let n = k.ncols;
    let mut seen = vec![false; n];
    let mut stack = vec![i];
    seen[i] = true;
    while let Some(u) = stack.pop() {
        for &v in &k.row_idx[k.col_ptr[u]..k.col_ptr[u + 1]] {
            if v == j {
                return true;
            }
            if v < j && !seen[v] {
                seen[v] = true;
                stack.push(v);
            }
        }
    }
    false
}

#[test]
fn fill_path_characterises_pattern_of_l() {
    for m in [tridiag(5), star_hub_last(5), grid_laplacian(3), dense_3()] {
        let csc = to_csc(&m);
        let s = analyze(&csc).unwrap();
        for j in 0..s.n {
            let col = &s.row_idx[s.col_ptr[j]..s.col_ptr[j + 1]];
            for i in (j + 1)..s.n {
                assert_eq!(col.contains(&i), joined_below(&csc, i, j), "entry ({i}, {j})");
            }
        }
    }
}
