//! Stress tests of the Cholesky pipeline on structural and PDE-like systems.

use sparse_solvers::cholesky::symbolic::analyze;
use sparse_solvers::coo::CooBuilder;
use sparse_solvers::convert::sym_to_csc;
use sparse_solvers::error::SolverError;
use sparse_solvers::linear::cholesky::CholeskySolver;
use sparse_solvers::linear::LinearSolver;
use sparse_solvers::ordering::graph::Graph;
use sparse_solvers::ordering::permutation::Permutation;
use sparse_solvers::ordering::rcm::rcm;
use sparse_solvers::ordering::Reordering;
use sparse_solvers::scalar::SparseScalar;
use sparse_solvers::sym::SymCsrMatrix;

/// A real number for the generic matrices, with the pivot thresholds the
/// solvers expect of `f64`.
#[derive(Clone, Copy, Debug, PartialEq, PartialOrd)]
struct Real(f64);

impl SparseScalar for Real {
    fn zero() -> Self {
        Real(0.0)
    }
    fn one() -> Self {
        Real(1.0)
    }
    fn plus(self, rhs: Self) -> Self {
        Real(self.0 + rhs.0)
    }
    fn minus(self, rhs: Self) -> Self {
        Real(self.0 - rhs.0)
    }
    fn times(self, rhs: Self) -> Self {
        Real(self.0 * rhs.0)
    }
    fn divided_by(self, rhs: Self) -> Self {
        Real(self.0 / rhs.0)
    }
    fn scalar_sqrt(self) -> Self {
        Real(self.0.sqrt())
    }
    fn is_negative(self) -> bool {
        self.0 < 0.0
    }
    fn is_positive_pivot(self) -> bool {
        !(self.0 <= 1e-12)
    }
    fn is_negligible_pivot(self) -> bool {
        self.0.abs() < 1e-14
    }
    fn magnitude(self) -> Self {
        Real(self.0.abs())
    }
    fn exceeds(self, bound: Self) -> bool {
        self.0 > bound.0
    }
    fn render(self) -> String {
        format!("{:8.4}", self.0)
    }
}

fn r(v: f64) -> Real {
    Real(v)
}

fn reals(v: &[f64]) -> Vec<Real> {
    v.iter().map(|&x| Real(x)).collect()
}

/// 1-D spring chain with `n` free DOFs and pinned supports at both ends:
/// every DOF is attached to two springs of stiffness `k_spring`, so the
/// diagonal is `2k` and the off-diagonal `-k`.
fn spring_chain(n: usize, k_spring: f64) -> SymCsrMatrix<Real> {
    assert!(n >= 2, "spring chain needs at least 2 nodes");
    let mut coo = CooBuilder::new(n, n);
    for i in 0..n {
        coo.add(i, i, r(2.0 * k_spring));
    }
    for i in 0..(n - 1) {
        coo.add(i, i + 1, r(-k_spring));
    }
    coo.build_sym().unwrap()
}

/// 2-D grid Laplacian (5-point stencil) on `nx × ny` interior nodes.
fn laplacian_2d(nx: usize, ny: usize) -> SymCsrMatrix<Real> {
    assert!(nx >= 1 && ny >= 1);
    let n = nx * ny;
    let mut coo = CooBuilder::new(n, n);
    for iy in 0..ny {
        for ix in 0..nx {
            let i = ix + iy * nx;
            coo.add(i, i, r(4.0));
            if ix + 1 < nx {
                coo.add(i, (ix + 1) + iy * nx, r(-1.0));
            }
            if iy + 1 < ny {
                coo.add(i, ix + (iy + 1) * nx, r(-1.0));
            }
        }
    }
    coo.build_sym().unwrap()
}

/// `‖Au − f‖∞ / ‖f‖∞`.
fn relative_residual(a: &SymCsrMatrix<Real>, f: &[Real], u: &[Real]) -> f64 {
    let au = a.matvec(u).unwrap();
    let norm_f: f64 = f.iter().map(|x| x.0.abs()).fold(0.0_f64, f64::max);
    let norm_f = norm_f.max(1e-300);
    au.iter().zip(f.iter()).map(|(aui, fi)| (aui.0 - fi.0).abs()).fold(0.0_f64, f64::max) / norm_f
}

fn full_solve(a: &SymCsrMatrix<Real>, f: &[Real]) -> Vec<Real> {
    let mut solver = CholeskySolver::new();
    solver.analyze_and_factorize(a).unwrap();
    let mut u = vec![r(0.0); f.len()];
    solver.solve(f, &mut u).unwrap();
    u
}

fn rhs_sin(n: usize) -> Vec<Real> {
    (0..n).map(|i| r(((i + 1) as f64).sin())).collect()
}

fn rhs_ones(n: usize) -> Vec<Real> {
    vec![r(1.0); n]
}

fn max_value(u: &[Real]) -> f64 {
    u.iter().map(|x| x.0).fold(f64::NEG_INFINITY, f64::max)
}

// ================================================================
// A — spring chains
// ================================================================

fn run_spring_chain(n: usize) {
    let k = spring_chain(n, 1.0);
    assert_eq!(k.n, n);
    let f = rhs_sin(n);
    let u = full_solve(&k, &f);
    let res = relative_residual(&k, &f, &u);
    assert!(res < 1e-8, "spring chain n={n}: relative residual {res:.2e}");
}

#[test]
fn a1_spring_chain_n100() {
    run_spring_chain(100);
}

#[test]
fn a2_spring_chain_n500() {
    run_spring_chain(500);
}

#[test]
fn a3_spring_chain_n1000() {
    run_spring_chain(1000);
}

#[test]
fn a4_spring_chain_n2000() {
    run_spring_chain(2000);
}

/// Pinned chain of `n` DOFs (`n + 1` springs) under a unit load at DOF `m`:
/// the displacement there is `(m + 1)(n − m) / (n + 1)`.
#[test]
fn spring_chain_point_load_displacement() {
    let n = 100_usize;
    let k = spring_chain(n, 1.0);
    let mid = n / 2;
    let mut f = vec![r(0.0); n];
    f[mid] = r(1.0);
    let u = full_solve(&k, &f);
    assert!(relative_residual(&k, &f, &u) < 1e-10);
    let exact = ((mid + 1) * (n - mid)) as f64 / (n + 1) as f64;
    let rel_err = (max_value(&u) - exact).abs() / exact;
    assert!(rel_err < 1e-10, "computed={}, exact={exact}", max_value(&u));
}

#[test]
fn a6_spring_chain_stiffness_scaling() {
    let n = 200_usize;
    let f = rhs_sin(n);
    let u1 = full_solve(&spring_chain(n, 1.0), &f);
    let u2 = full_solve(&spring_chain(n, 4.0), &f);
    for (i, (a, b)) in u1.iter().zip(u2.iter()).enumerate() {
        let rel = (4.0 * b.0 - a.0).abs() / a.0.abs().max(1e-15);
        assert!(rel < 1e-9, "DOF {i}: rel={rel:.2e}");
    }
}

// ================================================================
// B — 2-D grid Laplacian
// ================================================================

fn run_laplacian(nx: usize, ny: usize) {
    let n = nx * ny;
    let a = laplacian_2d(nx, ny);
    assert_eq!(a.n, n);
    let f = rhs_sin(n);
    let u = full_solve(&a, &f);
    let res = relative_residual(&a, &f, &u);
    assert!(res < 1e-8, "Laplacian {nx}×{ny}: relative residual {res:.2e}");
}

#[test]
fn b1_laplacian_10x10() {
    run_laplacian(10, 10);
}

#[test]
fn b2_laplacian_20x20() {
    run_laplacian(20, 20);
}

#[test]
fn b3_laplacian_40x40() {
    run_laplacian(40, 40);
}

#[test]
fn b4_laplacian_50x30() {
    run_laplacian(50, 30);
}

#[test]
fn b5_laplacian_solution_magnitude_bound() {
    let nx = 10;
    let ny = 10;
    let n = nx * ny;
    let a = laplacian_2d(nx, ny);
    let mut f = vec![r(0.0); n];
    f[nx / 2 + (ny / 2) * nx] = r(1.0);
    let u = full_solve(&a, &f);
    let lambda_min_approx = 0.081_f64;
    assert!(max_value(&u) < 1.0 / lambda_min_approx * 1.1);
    assert!(relative_residual(&a, &f, &u) < 1e-8);
}

#[test]
fn b6_laplacian_rcm_validity_and_correctness() {
    let nx = 20;
    let ny = 20;
    let k = laplacian_2d(nx, ny);
    let n = k.n;

    let g = Graph::from_sym(&k);
    let perm = rcm(&g);
    assert_eq!(perm.len(), n);
    let mut seen = vec![false; n];
    for new_i in 0..n {
        let old = perm.old_index(new_i);
        assert!(!seen[old], "duplicate old-index {old} in RCM permutation");
        seen[old] = true;
    }
    assert!(seen.iter().all(|&s| s));

    let k_perm = perm.permute_sym(&k).unwrap();
    k_perm.validate().unwrap();

    let f = rhs_sin(n);
    let u_natural = full_solve(&k, &f);
    let u_rcm = {
        let mut solver = CholeskySolver::new();
        solver.set_ordering(Reordering::Custom(perm.clone()));
        solver.analyze_and_factorize(&k).unwrap();
        let mut u = vec![r(0.0); n];
        solver.solve(&f, &mut u).unwrap();
        u
    };
    for (i, (un, ur)) in u_natural.iter().zip(u_rcm.iter()).enumerate() {
        let rel = (un.0 - ur.0).abs() / un.0.abs().max(1e-14);
        assert!(rel < 1e-10, "b6: dof {i} rel_diff={rel:.2e}");
    }

    let nnz_natural = analyze(&sym_to_csc(&k)).unwrap().nnz_l();
    let nnz_rcm = analyze(&sym_to_csc(&k_perm)).unwrap().nnz_l();
    assert!(nnz_rcm <= nnz_natural * 3, "b6: {nnz_rcm} vs {nnz_natural}");
}

fn matrix_bandwidth(k: &SymCsrMatrix<Real>) -> usize {
    let mut bw = 0_usize;
    for row in 0..k.n {
        let start = k.row_ptr()[row];
        let end = k.row_ptr()[row + 1];
        for &col in &k.col_idx()[start..end] {
            bw = bw.max(col.abs_diff(row));
        }
    }
    bw
}

#[test]
fn b7_laplacian_rcm_helps_on_badly_ordered_mesh() {
    let nx = 15;
    let ny = 15;
    let k_natural = laplacian_2d(nx, ny);
    let n = k_natural.n;
    let bad_perm_vec: Vec<usize> = (0..n).map(|i| (i * 7) % n).collect();
    let mut check = vec![false; n];
    for &v in &bad_perm_vec {
        check[v] = true;
    }
    assert!(check.iter().all(|&c| c));
    let bad_perm = Permutation::new(bad_perm_vec).unwrap();
    let k_bad = bad_perm.permute_sym(&k_natural).unwrap();

    let bw_natural = matrix_bandwidth(&k_natural);
    let bw_bad = matrix_bandwidth(&k_bad);
    assert!(bw_bad > bw_natural * 5, "bw_natural={bw_natural}, bw_bad={bw_bad}");

    let g = Graph::from_sym(&k_bad);
    let k_rcm = rcm(&g).permute_sym(&k_bad).unwrap();
    let bw_rcm = matrix_bandwidth(&k_rcm);
    assert!(bw_rcm < bw_bad, "bw_bad={bw_bad}, bw_rcm={bw_rcm}");
    assert!(bw_rcm <= bw_natural * 4, "bw_rcm={bw_rcm}, bw_natural={bw_natural}");

    // The badly-ordered system is K_bad = P K Pᵀ: with the right-hand side
    // permuted the same way, its solution is the natural one, permuted.
    let f = rhs_sin(n);
    let u_natural = full_solve(&k_natural, &f);
    let f_bad = bad_perm.apply_to_slice(&f);
    let u_bad = full_solve(&k_bad, &f_bad);
    for i in 0..n {
        let un = u_natural[bad_perm.old_index(i)];
        let ub = u_bad[i];
        let rel = (un.0 - ub.0).abs() / un.0.abs().max(1e-14);
        assert!(rel < 1e-9, "b7: solution mismatch at dof {i}");
    }
}

// ================================================================
// C — conditioning
// ================================================================

fn ill_conditioned_diagonal(n: usize, scale_lo: f64, scale_hi: f64) -> SymCsrMatrix<Real> {
    assert!(scale_hi >= scale_lo && scale_lo > 0.0);
    let eps = 1e-3 * scale_lo * scale_lo;
    let mut coo = CooBuilder::new(n, n);
    for i in 0..n {
        let t = i as f64 / (n - 1).max(1) as f64;
        let m_i = scale_lo * (scale_hi / scale_lo).powf(t);
        coo.add(i, i, r(m_i * m_i + eps));
    }
    coo.build_sym().unwrap()
}

fn mixed_stiffness_tridiag(n: usize) -> SymCsrMatrix<Real> {
    let scales: Vec<f64> = (0..n).map(|i| if i < n / 2 { 1e6_f64 } else { 1.0_f64 }).collect();
    let mut coo = CooBuilder::new(n, n);
    for i in 0..n {
        coo.add(i, i, r(scales[i]));
        if i + 1 < n {
            coo.add(i, i + 1, r(-0.1 * scales[i].min(scales[i + 1])));
        }
    }
    coo.build_sym().unwrap()
}

#[test]
fn c1_diagonal_contrast_1e6() {
    let n = 200;
    let a = ill_conditioned_diagonal(n, 1.0, 1e3);
    let f = rhs_sin(n);
    let u = full_solve(&a, &f);
    assert!(relative_residual(&a, &f, &u) < 1e-6);
}

#[test]
fn c2_diagonal_contrast_1e12() {
    let n = 100;
    let a = ill_conditioned_diagonal(n, 1.0, 1e6);
    let f = rhs_ones(n);
    let u = full_solve(&a, &f);
    assert!(relative_residual(&a, &f, &u) < 1e-3);
}

#[test]
fn c3_mixed_stiffness_half_stiff_half_flexible() {
    let n = 300;
    let a = mixed_stiffness_tridiag(n);
    let f = rhs_sin(n);
    let u = full_solve(&a, &f);
    assert!(relative_residual(&a, &f, &u) < 1e-6);
}

#[test]
fn c4_diagonal_exact_solution_verification() {
    let n = 50;
    let scales: Vec<f64> = (0..n).map(|i| 10.0_f64.powi(i as i32 % 13)).collect();
    let mut coo = CooBuilder::new(n, n);
    for (i, &s) in scales.iter().enumerate() {
        coo.add(i, i, r(s));
    }
    let a = coo.build_sym().unwrap();
    let f = reals(&scales);
    let u = full_solve(&a, &f);
    for (i, ui) in u.iter().enumerate() {
        let err = (ui.0 - 1.0).abs();
        assert!(err < 1e-10, "c4: u[{i}]={:.6e}", ui.0);
    }
}

// ================================================================
// D — near-singular systems
// ================================================================

#[test]
fn d1_near_zero_diagonal_single_dof() {
    let n = 50_usize;
    let bad_dof = 25_usize;
    let tiny = 1e-11_f64;
    let mut coo = CooBuilder::new(n, n);
    for i in 0..n {
        coo.add(i, i, r(if i == bad_dof { tiny } else { 2.0 }));
        if i + 1 < n {
            coo.add(i, i + 1, r(-1.0));
        }
    }
    let a = coo.build_sym().unwrap();
    let mut solver = CholeskySolver::new();
    solver.analyze(&a).unwrap();
    match solver.factorize(&a) {
        Err(SolverError::NotPositiveDefinite { .. }) => {}
        Ok(()) => {
            let f = rhs_ones(n);
            let mut u = vec![r(0.0); n];
            solver.solve(&f, &mut u).unwrap();
            let res = relative_residual(&a, &f, &u);
            assert!(res > 1e-3, "d1: suspiciously tight residual {res:.2e}");
        }
        Err(e) => panic!("d1: unexpected error: {e:?}"),
    }
}

#[test]
fn d2_explicitly_indefinite_matrix() {
    let mut coo = CooBuilder::new(3, 3);
    coo.add(0, 0, r(1.0));
    coo.add(1, 1, r(1.0));
    coo.add(2, 2, r(-1.0));
    let a = coo.build_sym().unwrap();
    let mut solver = CholeskySolver::new();
    solver.analyze(&a).unwrap();
    assert!(matches!(solver.factorize(&a), Err(SolverError::NotPositiveDefinite { .. })));
}

#[test]
fn d3_singular_matrix_rank_deficient() {
    let mut coo = CooBuilder::new(2, 2);
    coo.add(0, 0, r(1.0));
    coo.add(0, 1, r(1.0));
    coo.add(1, 1, r(1.0));
    let a = coo.build_sym().unwrap();
    let mut solver = CholeskySolver::new();
    solver.analyze(&a).unwrap();
    assert!(matches!(solver.factorize(&a), Err(SolverError::NotPositiveDefinite { .. })));
}

#[test]
fn d4_weak_spring_structural_singularity() {
    let n = 100;
    let epsilon = 1e-8_f64;
    let mut coo = CooBuilder::new(n, n);
    for i in 0..n {
        let mut diag = 0.0_f64;
        if i > 0 {
            diag += if i == n / 2 { epsilon } else { 1.0 };
        }
        if i + 1 < n {
            diag += if i == n / 2 { epsilon } else { 1.0 };
        }
        coo.add(i, i, r(diag.max(epsilon)));
        if i + 1 < n {
            coo.add(i, i + 1, r(-(if i == n / 2 { epsilon } else { 1.0 })));
        }
    }
    let a = coo.build_sym().unwrap();
    let mut solver = CholeskySolver::new();
    solver.analyze(&a).unwrap();
    match solver.factorize(&a) {
        Err(SolverError::NotPositiveDefinite { .. }) => {}
        Ok(()) => {
            let f = rhs_ones(n);
            let mut u = vec![r(0.0); n];
            solver.solve(&f, &mut u).unwrap();
            let res = relative_residual(&a, &f, &u);
            assert!(res < 1e-5, "d4: weak spring residual {res:.2e}");
        }
        Err(e) => panic!("d4: unexpected error: {e:?}"),
    }
}

// ================================================================
// E — repeated factorization
// ================================================================

#[test]
fn e1_repeated_factorize_diagonal_scaling() {
    let n = 300_usize;
    let f = rhs_sin(n);
    let mut solver = CholeskySolver::new();
    solver.analyze(&spring_chain(n, 1.0)).unwrap();
    let mut u_first: Option<Vec<Real>> = None;
    for &s in &[1.0_f64, 2.0, 4.0, 8.0, 16.0] {
        let k = spring_chain(n, s);
        solver.factorize(&k).unwrap();
        let mut u = vec![r(0.0); n];
        solver.solve(&f, &mut u).unwrap();
        assert!(relative_residual(&k, &f, &u) < 1e-8);
        if let Some(ref u1) = u_first {
            for (i, (ui, u1i)) in u.iter().zip(u1.iter()).enumerate() {
                let expected = u1i.0 / s;
                let rel = (ui.0 - expected).abs() / expected.abs().max(1e-15);
                assert!(rel < 1e-9, "e1 scale={s} dof={i}: rel={rel:.2e}");
            }
        } else {
            u_first = Some(u);
        }
    }
}

#[test]
fn e2_repeated_factorize_laplacian_shifts() {
    let nx = 20;
    let ny = 20;
    let n = nx * ny;
    let f = rhs_sin(n);
    let mut solver = CholeskySolver::new();
    solver.analyze(&laplacian_2d(nx, ny)).unwrap();
    for &t in &[0.0_f64, 1e-4, 1e-2, 1.0, 10.0] {
        let mut coo = CooBuilder::new(n, n);
        for iy in 0..ny {
            for ix in 0..nx {
                let i = ix + iy * nx;
                coo.add(i, i, r(4.0 + t));
                if ix + 1 < nx {
                    coo.add(i, (ix + 1) + iy * nx, r(-1.0));
                }
                if iy + 1 < ny {
                    coo.add(i, ix + (iy + 1) * nx, r(-1.0));
                }
            }
        }
        let a_shifted = coo.build_sym().unwrap();
        solver.factorize(&a_shifted).unwrap();
        let mut u = vec![r(0.0); n];
        solver.solve(&f, &mut u).unwrap();
        assert!(relative_residual(&a_shifted, &f, &u) < 1e-8, "e2 shift={t}");
    }
}

#[test]
fn e3_reanalyze_invalidates_numeric() {
    let k = spring_chain(50, 1.0);
    let mut solver = CholeskySolver::new();
    solver.analyze_and_factorize(&k).unwrap();
    solver.analyze(&k).unwrap();
    let mut u = vec![r(0.0); 50];
    assert!(matches!(solver.solve(&rhs_ones(50), &mut u), Err(SolverError::NotFactorized)));
}

#[test]
fn e4_twenty_newton_iterations_same_topology() {
    let n = 400_usize;
    let f = rhs_sin(n);
    let mut solver = CholeskySolver::new();
    solver.analyze(&spring_chain(n, 1.0)).unwrap();
    let mut last_u: Option<Vec<Real>> = None;
    for iter in 0..20_usize {
        let scale = 1.0 + 0.1 * ((iter as f64 * 0.3).sin());
        let k = spring_chain(n, scale);
        solver.factorize(&k).unwrap();
        let mut u = vec![r(0.0); n];
        solver.solve(&f, &mut u).unwrap();
        assert!(relative_residual(&k, &f, &u) < 1e-8, "e4 iter={iter}");
        solver.factorize(&k).unwrap();
        let mut u2 = vec![r(0.0); n];
        solver.solve(&f, &mut u2).unwrap();
        for (j, (a, b)) in u.iter().zip(u2.iter()).enumerate() {
            assert!((a.0 - b.0).abs() < 1e-13 * a.0.abs().max(1.0), "e4 iter={iter} dof={j}");
        }
        last_u = Some(u);
    }
    assert!(last_u.unwrap().iter().any(|v| v.0.abs() > 1e-10));
}

#[test]
fn e5_alternating_topology() {
    let n = 200_usize;
    let f = rhs_sin(n);
    for round in 0..4_usize {
        let k = if round % 2 == 0 {
            spring_chain(n, 1.0)
        } else {
            let mut coo = CooBuilder::new(n, n);
            for i in 0..n {
                coo.add(i, i, r(4.0));
                if i + 1 < n {
                    coo.add(i, i + 1, r(-1.0));
                }
                if i + 2 < n {
                    coo.add(i, i + 2, r(-0.5));
                }
            }
            coo.build_sym().unwrap()
        };
        let u = full_solve(&k, &f);
        assert!(relative_residual(&k, &f, &u) < 1e-8, "e5 round={round}");
    }
}
