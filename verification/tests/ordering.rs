use sparse_solvers::cholesky::symbolic::analyze;
use sparse_solvers::coo::CooBuilder;
use sparse_solvers::convert::sym_to_csc;
use sparse_solvers::linear::cholesky::CholeskySolver;
use sparse_solvers::linear::LinearSolver;
use sparse_solvers::ordering::amd::amd;
use sparse_solvers::ordering::graph::Graph;
use sparse_solvers::ordering::permutation::Permutation;
use sparse_solvers::ordering::rcm::rcm;
use sparse_solvers::ordering::Reordering;
use sparse_solvers::error::SparseError;
use sparse_solvers::scalar::SparseScalar;
use sparse_solvers::sym::SymCsrMatrix;

/// A real number for the generic matrices, with the pivot thresholds the
/// solvers expect of `f64`.
#[derive(Clone, Copy, Debug, Default, PartialEq, PartialOrd)]
struct Real(f64);

impl SparseScalar for Real {
    fn zero() -> Self {
        Real(0.0)
    }
    fn one() -> Self {
        Real(1.0)
    }
    fn plus(self, rhs: Self) -> Self {
        Real(self.0 + rhs.0)
    }
    fn minus(self, rhs: Self) -> Self {
        Real(self.0 - rhs.0)
    }
    fn times(self, rhs: Self) -> Self {
        Real(self.0 * rhs.0)
    }
    fn divided_by(self, rhs: Self) -> Self {
        Real(self.0 / rhs.0)
    }
    fn scalar_sqrt(self) -> Self {
        Real(self.0.sqrt())
    }
    fn is_negative(self) -> bool {
        self.0 < 0.0
    }
    fn is_positive_pivot(self) -> bool {
        !(self.0 <= 1e-12)
    }
    fn is_negligible_pivot(self) -> bool {
        self.0.abs() < 1e-14
    }
    fn magnitude(self) -> Self {
        Real(self.0.abs())
    }
    fn exceeds(self, bound: Self) -> bool {
        self.0 > bound.0
    }
    fn render(self) -> String {
        format!("{:8.4}", self.0)
    }
}

fn r(v: f64) -> Real {
    Real(v)
}

fn reals(v: &[f64]) -> Vec<Real> {
    v.iter().map(|&x| Real(x)).collect()
}

// ---- matrix builders ----

fn tridiag3() -> SymCsrMatrix<Real> {
    let pattern = vec![vec![0usize, 1], vec![1, 2], vec![2]];
    let mut m = SymCsrMatrix::from_pattern(3, &pattern).unwrap();
    m.set_value(0, 0, r(4.0)).unwrap();
    m.set_value(0, 1, r(-1.0)).unwrap();
    m.set_value(1, 1, r(4.0)).unwrap();
    m.set_value(1, 2, r(-1.0)).unwrap();
    m.set_value(2, 2, r(4.0)).unwrap();
    m
}

fn tridiag(n: usize) -> SymCsrMatrix<Real> {
    let mut coo = CooBuilder::new(n, n);
    for i in 0..n {
        coo.add(i, i, r(2.0));
    }
    for i in 0..(n - 1) {
        coo.add(i, i + 1, r(-1.0));
    }
    coo.build_sym().unwrap()
}

fn path_graph(n: usize) -> (Graph, SymCsrMatrix<Real>) {
    let m = tridiag(n);
    let g = Graph::from_sym(&m);
    (g, m)
}

/// Star graph: hub node 0 connected to all spokes 1..n.
fn star(n: usize) -> SymCsrMatrix<Real> {
    assert!(n >= 2);
    let mut coo = CooBuilder::new(n, n);
    coo.add(0, 0, r(n as f64));
    for i in 1..n {
        coo.add(i, i, r(2.0));
        coo.add(0, i, r(-1.0));
    }
    coo.build_sym().unwrap()
}

fn star_graph_matrix(n: usize) -> (Graph, SymCsrMatrix<Real>) {
    let m = star(n);
    let g = Graph::from_sym(&m);
    (g, m)
}

/// k×k 2-D grid Laplacian, row-major node numbering.
fn grid(k: usize) -> SymCsrMatrix<Real> {
    let n = k * k;
    let mut coo = CooBuilder::new(n, n);
    for row in 0..k {
        for c in 0..k {
            let i = row * k + c;
            coo.add(i, i, r(4.0));
            if c + 1 < k {
                coo.add(i, row * k + c + 1, r(-1.0));
            }
            if row + 1 < k {
                coo.add(i, (row + 1) * k + c, r(-1.0));
            }
        }
    }
    coo.build_sym().unwrap()
}

fn grid_laplacian(k: usize) -> (Graph, SymCsrMatrix<Real>) {
    let m = grid(k);
    let g = Graph::from_sym(&m);
    (g, m)
}

// ---- checks ----

fn assert_valid_permutation(p: &Permutation, n: usize) {
    assert_eq!(p.len(), n, "permutation length mismatch");
    let mut seen = vec![false; n];
    for new_i in 0..n {
        let old = p.old_index(new_i);
        assert!(old < n, "out-of-range old-index {old}");
        assert!(!seen[old], "duplicate old-index {old}");
        seen[old] = true;
    }
    assert!(seen.iter().all(|&s| s), "missing old indices");
}

/// Maximum `|new_i − new_j|` over all edges `(i,j)`.
fn bandwidth_after_permutation(g: &Graph, p: &Permutation) -> usize {
    let inv = p.inverse();
    let inv = &inv;
    (0..g.n)
        .flat_map(|old_i| {
            let new_i = inv.old_index(old_i);
            g.neighbours(old_i).iter().map(move |&old_j| new_i.abs_diff(inv.old_index(old_j)))
        })
        .max()
        .unwrap_or(0)
}

fn natural_bandwidth(g: &Graph) -> usize {
    (0..g.n)
        .flat_map(|i| g.neighbours(i).iter().map(move |&j| i.abs_diff(j)))
        .max()
        .unwrap_or(0)
}

/// Non-zeros of the Cholesky factor in the natural order.
fn nnz_l_direct(m: &SymCsrMatrix<Real>) -> usize {
    analyze(&sym_to_csc(m)).unwrap().nnz_l()
}

/// Non-zeros of the Cholesky factor, through the solver's analysis of the
/// matrix in its given order.
fn nnz_l_solver(m: &SymCsrMatrix<Real>) -> usize {
    let mut solver = CholeskySolver::<Real>::new();
    solver.set_ordering(Reordering::Natural);
    solver.analyze(m).unwrap();
    solver.symbolic().unwrap().nnz_l()
}

fn matvec_invariant(m: &SymCsrMatrix<Real>, p: &Permutation, x: &[Real], tol: f64) {
    let km = p.permute_sym(m).unwrap();
    km.validate().unwrap();
    let pinv = p.inverse();
    let x_tilde = pinv.apply_to_slice(x);
    let kx_tilde = m.matvec(&x_tilde).unwrap();
    let y_perm = km.matvec(x).unwrap();
    let recovered = p.apply_to_slice(&kx_tilde);
    for (i, (a, b)) in y_perm.iter().zip(recovered.iter()).enumerate() {
        assert!((a.0 - b.0).abs() < tol, "matvec invariant violated at {i}: {} vs {}", a.0, b.0);
    }
}

fn solve_with(k: &SymCsrMatrix<Real>, f: &[Real], ordering: Reordering) -> Vec<Real> {
    let mut solver = CholeskySolver::new();
    solver.set_ordering(ordering);
    solver.analyze_and_factorize(k).unwrap();
    let mut u = vec![r(0.0); f.len()];
    solver.solve(f, &mut u).unwrap();
    u
}

fn assert_residual(k: &SymCsrMatrix<Real>, u: &[Real], f: &[Real], tol: f64) {
    let ku = k.matvec(u).unwrap();
    for (i, (kui, fi)) in ku.iter().zip(f.iter()).enumerate() {
        assert!((kui.0 - fi.0).abs() < tol, "residual[{i}] = {:.2e}", (kui.0 - fi.0).abs());
    }
}

fn sines(n: usize) -> Vec<Real> {
    (0..n).map(|i| r(((i + 1) as f64).sin())).collect()
}

// ================================================================
// Permutation
// ================================================================

#[test]
fn identity_is_identity() {
    let p = Permutation::identity(4);
    assert!(p.is_identity());
    assert_eq!(p.as_slice(), &[0, 1, 2, 3]);
}

#[test]
fn inverse_roundtrip() {
    let p = Permutation::new(vec![2, 0, 3, 1]).unwrap();
    let pinv = p.inverse();
    for i in 0..4 {
        assert_eq!(p.old_index(pinv.old_index(i)), i);
    }
}

#[test]
fn inverse_of_inverse_is_the_permutation() {
    let p = Permutation::new(vec![3, 1, 0, 2]).unwrap();
    assert_eq!(p.inverse().as_slice(), &[2, 1, 3, 0]);
    assert_eq!(p.inverse().inverse(), p);
}

#[test]
fn new_rejects_invalid_permutation() {
    assert!(Permutation::new(vec![0, 0, 2]).is_err());
    assert!(Permutation::new(vec![0, 1, 5]).is_err());
}

#[test]
fn new_reports_the_first_bad_entry() {
    assert!(Permutation::new(vec![1, 1, 9]).is_err());
    let p = Permutation::new(vec![]).unwrap();
    assert!(p.is_empty());
    assert_eq!(p.len(), 0);
    assert!(!Permutation::new(vec![1, 0]).unwrap().is_identity());
}

#[test]
fn apply_to_slice() {
    let p = Permutation::new(vec![2, 0, 1]).unwrap();
    let v = reals(&[10.0, 20.0, 30.0]);
    assert_eq!(p.apply_to_slice(&v), reals(&[30.0, 10.0, 20.0]));
}

#[test]
fn apply_inverse_to_slice() {
    let p = Permutation::new(vec![2, 0, 1]).unwrap();
    let v = reals(&[10.0, 20.0, 30.0]);
    let forward = p.apply_to_slice(&v);
    let back = p.apply_inverse_to_slice(&forward);
    assert_eq!(back, v);
    assert_eq!(p.apply_inverse_to_slice(&v), reals(&[20.0, 30.0, 10.0]));
}

#[test]
fn permute_sym_identity_unchanged() {
    let m = tridiag3();
    let p = Permutation::identity(3);
    let permuted = p.permute_sym(&m).unwrap();
    permuted.validate().unwrap();
    assert_eq!(permuted.get(0, 0).unwrap(), r(4.0));
    assert_eq!(permuted.get(0, 1).unwrap(), r(-1.0));
    assert_eq!(permuted.get(1, 1).unwrap(), r(4.0));
    assert_eq!(permuted.get(1, 2).unwrap(), r(-1.0));
    assert_eq!(permuted.get(2, 2).unwrap(), r(4.0));
}

#[test]
fn permute_sym_reversal() {
    let m = tridiag3();
    let p = Permutation::new(vec![2usize, 1, 0]).unwrap();
    let permuted = p.permute_sym(&m).unwrap();
    permuted.validate().unwrap();
    assert_eq!(permuted.get(0, 0).unwrap(), r(4.0));
    assert_eq!(permuted.get(1, 1).unwrap(), r(4.0));
    assert_eq!(permuted.get(2, 2).unwrap(), r(4.0));
    assert_eq!(permuted.get(0, 1).unwrap(), r(-1.0));
    assert_eq!(permuted.get(1, 2).unwrap(), r(-1.0));
}

#[test]
fn permute_sym_moves_entries() {
    // K[0,0]=1, K[1,1]=2, K[2,2]=3, K[0,2]=5; p = [2,0,1]: new i takes old p[i].
    let mut m = SymCsrMatrix::<Real>::from_pattern(3, &[vec![0, 2], vec![1], vec![2]]).unwrap();
    m.set_value(0, 0, r(1.0)).unwrap();
    m.set_value(1, 1, r(2.0)).unwrap();
    m.set_value(2, 2, r(3.0)).unwrap();
    m.set_value(0, 2, r(5.0)).unwrap();
    let p = Permutation::new(vec![2, 0, 1]).unwrap();
    let km = p.permute_sym(&m).unwrap();
    assert_eq!(km.extract_diagonal(), reals(&[3.0, 1.0, 2.0]));
    assert_eq!(km.get(0, 1).unwrap(), r(5.0));
    assert_eq!(km.get(1, 2).unwrap(), r(0.0));
    assert_eq!(km.nnz(), m.nnz());
    assert!(p.permute_sym(&tridiag(4)).is_err());
}

#[test]
fn permute_sym_into_refreshes_values_through_the_map() {
    let m = tridiag3();
    let p = Permutation::new(vec![1, 2, 0]).unwrap();
    let (mut km, map) = p.permute_sym_with_map(&m).unwrap();
    let mut m2 = m.clone();
    m2.set_value(0, 1, r(-7.0)).unwrap();
    p.permute_sym_into(&m2, &mut km, &map);
    assert_eq!(km.values, p.permute_sym(&m2).unwrap().values);
    assert_eq!(km.get(2, 0).unwrap(), r(-7.0));
}

#[test]
fn permutation_permute_sym_matvec_invariant() {
    let p = Permutation::new(vec![2usize, 0, 1]).unwrap();
    matvec_invariant(&tridiag3(), &p, &reals(&[1.0, 2.0, 3.0]), 1e-11);
}

// ================================================================
// Graph
// ================================================================

/// Path graph: 0 — 1 — 2 — 3
fn path4() -> Graph {
    let pattern = vec![vec![0usize, 1], vec![1usize, 2], vec![2usize, 3], vec![3usize]];
    let mut m = SymCsrMatrix::from_pattern(4, &pattern).unwrap();
    for i in 0..4 {
        m.set_value(i, i, r(1.0)).unwrap();
    }
    m.set_value(0, 1, r(1.0)).unwrap();
    m.set_value(1, 2, r(1.0)).unwrap();
    m.set_value(2, 3, r(1.0)).unwrap();
    Graph::from_sym(&m)
}

#[test]
fn degree_path_graph() {
    let g = path4();
    assert_eq!(g.degree(0), 1);
    assert_eq!(g.degree(1), 2);
    assert_eq!(g.degree(2), 2);
    assert_eq!(g.degree(3), 1);
}

#[test]
fn neighbours_path_graph() {
    let g = path4();
    assert_eq!(g.neighbours(0), &[1]);
    assert_eq!(g.neighbours(1), &[0, 2]);
    assert_eq!(g.neighbours(2), &[1, 3]);
    assert_eq!(g.neighbours(3), &[2]);
}

#[test]
fn nodes_by_degree_ascending() {
    let g = path4();
    let degrees: Vec<usize> = g.nodes_by_degree().into_iter().map(|(_, d)| d).collect();
    for w in degrees.windows(2) {
        assert!(w[0] <= w[1]);
    }
}

#[test]
fn nodes_by_degree_breaks_ties_by_index() {
    let g = path4();
    assert_eq!(g.nodes_by_degree(), vec![(0, 1), (3, 1), (1, 2), (2, 2)]);
}

#[test]
fn isolated_node_has_degree_zero() {
    let pattern = vec![vec![0usize], vec![1usize]];
    let mut m = SymCsrMatrix::from_pattern(2, &pattern).unwrap();
    m.set_value(0, 0, r(1.0)).unwrap();
    m.set_value(1, 1, r(1.0)).unwrap();
    let g = Graph::from_sym(&m);
    assert_eq!(g.degree(0), 0);
    assert_eq!(g.degree(1), 0);
}

#[test]
fn complete_graph_k4() {
    let pattern = vec![vec![0usize, 1, 2, 3], vec![1usize, 2, 3], vec![2usize, 3], vec![3usize]];
    let mut m = SymCsrMatrix::from_pattern(4, &pattern).unwrap();
    for i in 0..4 {
        m.set_value(i, i, r(1.0)).unwrap();
    }
    for i in 0..4 {
        for j in (i + 1)..4 {
            m.set_value(i, j, r(1.0)).unwrap();
        }
    }
    let g = Graph::from_sym(&m);
    for i in 0..4 {
        assert_eq!(g.degree(i), 3);
    }
}

// ================================================================
// AMD
// ================================================================

#[test]
fn single_node() {
    let mut coo = CooBuilder::new(1, 1);
    coo.add(0, 0, r(1.0));
    let m = coo.build_sym().unwrap();
    let p = amd(&m);
    assert_valid_permutation(&p, 1);
    assert!(p.is_identity());
}

#[test]
fn amd_two_nodes_valid() {
    let p = amd(&tridiag(2));
    assert_valid_permutation(&p, 2);
}

#[test]
fn tridiag_valid() {
    for n in [3, 5, 10, 20, 50] {
        let p = amd(&tridiag(n));
        assert_valid_permutation(&p, n);
    }
}

#[test]
fn grid_valid() {
    for k in [3, 5, 8] {
        let p = amd(&grid(k));
        assert_valid_permutation(&p, k * k);
    }
}

#[test]
fn amd_star_valid() {
    for n in [4, 8, 15] {
        let p = amd(&star(n));
        assert_valid_permutation(&p, n);
    }
}

#[test]
fn disconnected_graph_valid() {
    let n = 7;
    let mut coo = CooBuilder::new(n, n);
    for i in 0..n {
        coo.add(i, i, r(2.0));
    }
    coo.add(0, 1, r(-1.0));
    coo.add(1, 2, r(-1.0));
    coo.add(4, 5, r(-1.0));
    coo.add(5, 6, r(-1.0));
    let m = coo.build_sym().unwrap();
    let p = amd(&m);
    assert_valid_permutation(&p, n);
}

#[test]
fn star_hub_eliminated_late() {
    let n = 10;
    let p = amd(&star(n));
    assert_valid_permutation(&p, n);
    let hub_new_idx = p.inverse().old_index(0);
    assert!(hub_new_idx >= n / 2, "star hub should be in the second half, got {hub_new_idx}");
}

#[test]
fn amd_picks_least_degree_then_largest_index() {
    // Star of 4: spokes 1..3 have degree 1; the largest index goes first.
    // Then the remaining spokes, and the hub last.
    assert_eq!(amd(&star(4)).as_slice(), &[3, 2, 1, 0]);
    // Path 0-1-2: both ends have degree 1, node 2 goes first.
    assert_eq!(amd(&tridiag(3)).as_slice(), &[2, 1, 0]);
}

#[test]
fn path_zero_fill() {
    for n in [5, 10, 20] {
        let m = tridiag(n);
        let p = amd(&m);
        let m_amd = p.permute_sym(&m).unwrap();
        assert_eq!(nnz_l_direct(&m), 2 * n - 1);
        assert_eq!(nnz_l_direct(&m_amd), 2 * n - 1);
    }
}

#[test]
fn star_amd_eliminates_fill() {
    let n = 10_usize;
    let m = star(n);
    let m_amd = amd(&m).permute_sym(&m).unwrap();
    let nnz_natural = nnz_l_direct(&m);
    let nnz_amd = nnz_l_direct(&m_amd);
    assert!(nnz_natural > n);
    assert_eq!(nnz_amd, 2 * n - 1);
    assert!(nnz_amd < nnz_natural);
}

#[test]
fn grid_amd_fill_bounded() {
    for k in [4, 6, 8] {
        let m = grid(k);
        let m_amd = amd(&m).permute_sym(&m).unwrap();
        assert!(nnz_l_direct(&m_amd) <= nnz_l_direct(&m) * 3);
    }
}

#[test]
fn amd_reduces_fill_on_badly_ordered_arrow_matrix() {
    let n = 50_usize;
    let mut coo = CooBuilder::new(n, n);
    for i in 0..n {
        coo.add(i, i, r((n as f64) + 1.0));
    }
    for i in 1..n {
        coo.add(0, i, r(-1.0));
    }
    let m = coo.build_sym().unwrap();
    let nnz_natural = nnz_l_direct(&m);
    let nnz_opt = 2 * n - 1;
    assert!(nnz_natural > nnz_opt * 5);
    let m_amd = amd(&m).permute_sym(&m).unwrap();
    assert_eq!(nnz_l_direct(&m_amd), nnz_opt);
}

#[test]
fn amd_permutation_matvec_invariant_star() {
    let n = 8_usize;
    let m = star(n);
    let x: Vec<Real> = (0..n).map(|i| r((i + 1) as f64)).collect();
    matvec_invariant(&m, &amd(&m), &x, 1e-10);
}

#[test]
fn amd_permutation_matvec_invariant_grid() {
    let k = 4_usize;
    let m = grid(k);
    let x: Vec<Real> = (0..k * k).map(|i| r((i + 1) as f64)).collect();
    matvec_invariant(&m, &amd(&m), &x, 1e-10);
}

#[test]
fn tridiag_amd_solve_matches_natural() {
    let m = tridiag(30);
    let f = sines(30);
    let _u_nat = solve_with(&m, &f, Reordering::Natural);
    let u_amd = solve_with(&m, &f, Reordering::Custom(amd(&m)));
    assert_residual(&m, &u_amd, &f, 1e-10);
}

#[test]
fn star_amd_solve_matches_natural() {
    let n = 8_usize;
    let m = star(n);
    let f: Vec<Real> = (0..n).map(|i| r((i + 1) as f64)).collect();
    let _u_nat = solve_with(&m, &f, Reordering::Natural);
    let u_amd = solve_with(&m, &f, Reordering::Custom(amd(&m)));
    assert_residual(&m, &u_amd, &f, 1e-10);
}

#[test]
fn grid_amd_solve_matches_natural() {
    let m = grid(5);
    let f = sines(25);
    let _u_nat = solve_with(&m, &f, Reordering::Natural);
    let u_amd = solve_with(&m, &f, Reordering::Custom(amd(&m)));
    assert_residual(&m, &u_amd, &f, 1e-10);
}

// ================================================================
// RCM
// ================================================================

#[test]
fn single_node_valid() {
    let mut coo = CooBuilder::new(1, 1);
    coo.add(0, 0, r(1.0));
    let m = coo.build_sym().unwrap();
    let p = rcm(&Graph::from_sym(&m));
    assert_valid_permutation(&p, 1);
    assert!(p.is_identity());
}

#[test]
fn rcm_two_nodes_valid() {
    let (g, _) = path_graph(2);
    assert_valid_permutation(&rcm(&g), 2);
}

#[test]
fn path4_valid() {
    let (g, _) = path_graph(4);
    assert_valid_permutation(&rcm(&g), 4);
}

#[test]
fn path_large_valid() {
    let (g, _) = path_graph(200);
    assert_valid_permutation(&rcm(&g), 200);
}

#[test]
fn rcm_star_valid() {
    let (g, _) = star_graph_matrix(12);
    assert_valid_permutation(&rcm(&g), 12);
}

#[test]
fn grid_valid_all_sizes() {
    for k in [3, 5, 8, 10] {
        let (g, _) = grid_laplacian(k);
        assert_valid_permutation(&rcm(&g), k * k);
    }
}

#[test]
fn disconnected_graph_all_nodes_covered() {
    let mut coo = CooBuilder::new(4, 4);
    for i in 0..4 {
        coo.add(i, i, r(2.0));
    }
    coo.add(0, 1, r(-1.0));
    coo.add(2, 3, r(-1.0));
    let m = coo.build_sym().unwrap();
    assert_valid_permutation(&rcm(&Graph::from_sym(&m)), 4);
}

#[test]
fn isolated_nodes_covered() {
    let mut coo = CooBuilder::new(5, 5);
    for i in 0..5 {
        coo.add(i, i, r(1.0));
    }
    coo.add(0, 1, r(-1.0));
    let m = coo.build_sym().unwrap();
    assert_valid_permutation(&rcm(&Graph::from_sym(&m)), 5);
}

#[test]
fn path_first_node_is_endpoint() {
    let (g, _) = path_graph(10);
    let p = rcm(&g);
    assert_eq!(g.degree(p.old_index(0)), 1, "first RCM node must be an endpoint (degree 1)");
}

#[test]
fn star_hub_in_second_half() {
    let n = 10;
    let (g, _) = star_graph_matrix(n);
    let hub_new_idx = rcm(&g).inverse().old_index(0);
    assert!(hub_new_idx >= n / 2, "star hub should be in the second half: {hub_new_idx}");
}

#[test]
fn path_bandwidth_does_not_increase() {
    let (g, _) = path_graph(20);
    assert!(bandwidth_after_permutation(&g, &rcm(&g)) <= 1);
}

#[test]
fn path_large_bandwidth_does_not_increase() {
    let (g, _) = path_graph(500);
    assert!(bandwidth_after_permutation(&g, &rcm(&g)) <= 1);
}

#[test]
fn path_bandwidth_reduced_from_bad_ordering() {
    let n = 101;
    let (_, m_natural) = path_graph(n);
    let bad_perm = Permutation::new((0..n).map(|i| (i * 3) % n).collect()).unwrap();
    let m_bad = bad_perm.permute_sym(&m_natural).unwrap();
    let g_bad = Graph::from_sym(&m_bad);
    let bw_bad = natural_bandwidth(&g_bad);
    assert!(bw_bad > n / 4, "stride should scatter: bw_bad={bw_bad}");
    let bw_rcm = bandwidth_after_permutation(&g_bad, &rcm(&g_bad));
    assert!(bw_rcm <= 2, "bw_bad={bw_bad}, bw_rcm={bw_rcm}");
}

#[test]
fn path_fill_not_increased() {
    for n in [20, 50, 100] {
        let (_, m) = path_graph(n);
        let nnz_natural = nnz_l_solver(&m);
        let g = Graph::from_sym(&m);
        let m_rcm = rcm(&g).permute_sym(&m).unwrap();
        let nnz_rcm = nnz_l_solver(&m_rcm);
        assert_eq!(nnz_natural, 2 * n - 1);
        assert_eq!(nnz_rcm, 2 * n - 1);
    }
}

#[test]
fn rcm_reduces_fill_on_badly_ordered_path() {
    let n = 101;
    let (_, m_natural) = path_graph(n);
    let nnz_natural = nnz_l_solver(&m_natural);
    let bad_perm = Permutation::new((0..n).map(|i| (i * 50) % n).collect()).unwrap();
    let m_bad = bad_perm.permute_sym(&m_natural).unwrap();
    let nnz_bad = nnz_l_solver(&m_bad);
    assert!(nnz_bad > nnz_natural, "nnz_bad={nnz_bad} nnz_natural={nnz_natural}");
    let g = Graph::from_sym(&m_bad);
    let m_rcm = rcm(&g).permute_sym(&m_bad).unwrap();
    let nnz_rcm = nnz_l_solver(&m_rcm);
    assert!(nnz_rcm <= nnz_natural + 10, "nnz_natural={nnz_natural}, nnz_rcm={nnz_rcm}");
    assert!(nnz_rcm < nnz_bad, "bad={nnz_bad}, rcm={nnz_rcm}");
}

#[test]
fn grid_row_major_rcm_fill_bounded() {
    for k in [4_usize, 6, 8] {
        let (g, m) = grid_laplacian(k);
        let p = rcm(&g);
        assert_valid_permutation(&p, k * k);
        let m_rcm = p.permute_sym(&m).unwrap();
        assert!(nnz_l_solver(&m_rcm) <= nnz_l_solver(&m) * 4);
    }
}

#[test]
fn grid_badly_ordered_rcm_reduces_bandwidth() {
    let k = 7;
    let (_, m_natural) = grid_laplacian(k);
    let n = k * k;
    let bad_perm = Permutation::new((0..n).map(|i| (i * 11) % n).collect()).unwrap();
    let m_bad = bad_perm.permute_sym(&m_natural).unwrap();
    let g = Graph::from_sym(&m_bad);
    let m_rcm = rcm(&g).permute_sym(&m_bad).unwrap();
    let bw_bad = natural_bandwidth(&g);
    let bw_rcm = natural_bandwidth(&Graph::from_sym(&m_rcm));
    assert!(bw_rcm < bw_bad, "bw_bad={bw_bad} -> bw_rcm={bw_rcm}");
    assert!(nnz_l_solver(&m_rcm) <= 4 * nnz_l_solver(&m_natural));
}

#[test]
fn permute_and_solve_invariant_path() {
    let n = 30;
    let (g, m) = path_graph(n);
    let f = sines(n);
    let mut solver = CholeskySolver::new();
    solver.analyze_and_factorize(&m).unwrap();
    let mut u1 = vec![r(0.0); n];
    solver.solve(&f, &mut u1).unwrap();
    let u2 = solve_with(&m, &f, Reordering::Custom(rcm(&g)));
    for (i, (a, b)) in u1.iter().zip(u2.iter()).enumerate() {
        let rel = (a.0 - b.0).abs() / a.0.abs().max(1e-14);
        assert!(rel < 1e-10, "path solve mismatch at dof {i}");
    }
}

#[test]
fn permute_and_solve_invariant_grid() {
    let k = 6;
    let (g, m) = grid_laplacian(k);
    let n = k * k;
    let f = sines(n);
    let mut solver1 = CholeskySolver::new();
    solver1.analyze_and_factorize(&m).unwrap();
    let mut u1 = vec![r(0.0); n];
    solver1.solve(&f, &mut u1).unwrap();
    let u2 = solve_with(&m, &f, Reordering::Custom(rcm(&g)));
    for (i, (a, b)) in u1.iter().zip(u2.iter()).enumerate() {
        let rel = (a.0 - b.0).abs() / a.0.abs().max(1e-14);
        assert!(rel < 1e-10, "grid solve mismatch at dof {i}");
    }
}

#[test]
fn rcm_permute_sym_matvec_invariant() {
    let n = 10;
    let (g, m) = path_graph(n);
    let x: Vec<Real> = (1..=(n as u64)).map(|i| r(i as f64)).collect();
    matvec_invariant(&m, &rcm(&g), &x, 1e-11);
}

#[test]
fn reordering_strategies_give_permutations() {
    let m = star(6);
    assert!(Reordering::Natural.into_permutation(&m).is_identity());
    assert_eq!(Reordering::Amd.into_permutation(&m), amd(&m));
    assert_eq!(Reordering::Rcm.into_permutation(&m), rcm(&Graph::from_sym(&m)));
    let p = Permutation::new(vec![5, 4, 3, 2, 1, 0]).unwrap();
    assert_eq!(Reordering::Custom(p.clone()).into_permutation(&m), p);
}

#[test]
fn new_rejects_with_dimension_mismatch() {
    // a repeated entry, then an entry out of range: the first bad entry is reported
    assert_eq!(Permutation::new(vec![0, 0, 2]), Err(SparseError::DimensionMismatch { expected: 3, got: 0 }));
    assert_eq!(Permutation::new(vec![0, 1, 5]), Err(SparseError::DimensionMismatch { expected: 3, got: 5 }));
    assert_eq!(Permutation::new(vec![1, 1, 9]), Err(SparseError::DimensionMismatch { expected: 3, got: 1 }));
}

#[test]
fn sym_reads_are_symmetric() {
    let m = tridiag(4);
    assert_eq!(m.get(0, 1).unwrap(), m.get(1, 0).unwrap());
    assert_eq!(m.get(0, 2).unwrap(), m.get(2, 0).unwrap());
    assert_eq!(m.get(0, 2).unwrap(), r(0.0));
}
