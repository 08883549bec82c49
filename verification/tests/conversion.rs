use sparse_solvers::convert::{csc_to_csr, csr_to_csc, csr_to_sym, sym_to_csc};
use sparse_solvers::coo::CooBuilder;
use sparse_solvers::csr::CsrMatrix;
use sparse_solvers::error::SparseError;
use sparse_solvers::scalar::SparseScalar;
use sparse_solvers::sym::SymCsrMatrix;

/// A real number for the generic matrices, with the pivot thresholds the
/// solvers expect of `f64`.
#[derive(Clone, Copy, Debug, PartialEq, PartialOrd)]
struct Real(f64);

impl SparseScalar for Real {
    fn zero() -> Self {
        Real(0.0)
    }
    fn one() -> Self {
        Real(1.0)
    }
    fn plus(self, rhs: Self) -> Self {
        Real(self.0 + rhs.0)
    }
    fn minus(self, rhs: Self) -> Self {
        Real(self.0 - rhs.0)
    }
    fn times(self, rhs: Self) -> Self {
        Real(self.0 * rhs.0)
    }
    fn divided_by(self, rhs: Self) -> Self {
        Real(self.0 / rhs.0)
    }
    fn scalar_sqrt(self) -> Self {
        Real(self.0.sqrt())
    }
    fn is_negative(self) -> bool {
        self.0 < 0.0
    }
    fn is_positive_pivot(self) -> bool {
        !(self.0 <= 1e-12)
    }
    fn is_negligible_pivot(self) -> bool {
        self.0.abs() < 1e-14
    }
    fn magnitude(self) -> Self {
        Real(self.0.abs())
    }
    fn exceeds(self, bound: Self) -> bool {
        self.0 > bound.0
    }
    fn render(self) -> String {
        format!("{:8.4}", self.0)
    }
}

fn r(v: f64) -> Real {
    Real(v)
}

fn reals(v: &[f64]) -> Vec<Real> {
    v.iter().map(|&x| Real(x)).collect()
}

fn sym_tridiag() -> SymCsrMatrix<Real> {
    let pattern = vec![vec![0usize, 1], vec![1, 2], vec![2]];
    let mut m = SymCsrMatrix::from_pattern(3, &pattern).unwrap();
    m.set_value(0, 0, r(4.0)).unwrap();
    m.set_value(0, 1, r(-1.0)).unwrap();
    m.set_value(1, 1, r(4.0)).unwrap();
    m.set_value(1, 2, r(-1.0)).unwrap();
    m.set_value(2, 2, r(4.0)).unwrap();
    m
}

fn full_csr() -> CsrMatrix<Real> {
    let pattern = vec![vec![0usize, 2], vec![1, 2], vec![2]];
    let mut m = CsrMatrix::from_pattern(3, 3, &pattern).unwrap();
    m.add_value(0, 0, r(1.0)).unwrap();
    m.add_value(0, 2, r(2.0)).unwrap();
    m.add_value(1, 1, r(3.0)).unwrap();
    m.add_value(1, 2, r(4.0)).unwrap();
    m.add_value(2, 2, r(5.0)).unwrap();
    m
}

fn coo_sym_tridiag() -> SymCsrMatrix<Real> {
    let mut coo = CooBuilder::new(3, 3);
    coo.add(0, 0, r(4.0));
    coo.add(0, 1, r(-1.0));
    coo.add(1, 1, r(4.0));
    coo.add(1, 2, r(-1.0));
    coo.add(2, 2, r(4.0));
    coo.build_sym().unwrap()
}

fn upper_triangular_csr() -> CsrMatrix<Real> {
    let mut coo = CooBuilder::new(3, 3);
    coo.add(0, 0, r(1.0));
    coo.add(0, 2, r(2.0));
    coo.add(1, 1, r(3.0));
    coo.add(1, 2, r(4.0));
    coo.add(2, 2, r(5.0));
    coo.build_csr().unwrap()
}

#[test]
fn csr_to_csc_preserves_values() {
    let csr = full_csr();
    let csc = csr_to_csc(&csr);
    csc.validate().unwrap();
    assert_eq!(csc.nrows, 3);
    assert_eq!(csc.ncols, 3);
    assert_eq!(csc.nnz(), csr.nnz());
    assert_eq!(csc.get(0, 0).unwrap(), r(1.0));
    assert_eq!(csc.get(0, 2).unwrap(), r(2.0));
    assert_eq!(csc.get(1, 1).unwrap(), r(3.0));
    assert_eq!(csc.get(2, 2).unwrap(), r(5.0));
    assert_eq!(csc.get(0, 1).unwrap(), r(0.0));
}

#[test]
fn csr_to_csc_matvec_agrees() {
    let csr = full_csr();
    let csc = csr_to_csc(&csr);
    let x = reals(&[1.0, 2.0, 3.0]);
    assert_eq!(csr.matvec(&x).unwrap(), csc.matvec(&x).unwrap());
}

#[test]
fn csc_to_csr_roundtrip() {
    let csr_orig = full_csr();
    let csc = csr_to_csc(&csr_orig);
    let csr_back = csc_to_csr(&csc);
    csr_back.validate().unwrap();
    let x = reals(&[1.0, 2.0, 3.0]);
    assert_eq!(csr_orig.matvec(&x).unwrap(), csr_back.matvec(&x).unwrap());
}

#[test]
fn csr_csc_roundtrip_restores_storage() {
    let csr = full_csr();
    let back = csc_to_csr(&csr_to_csc(&csr));
    assert_eq!(back.row_ptr, csr.row_ptr);
    assert_eq!(back.col_idx, csr.col_idx);
    assert_eq!(back.values, csr.values);
}

#[test]
fn csr_to_csc_rectangular() {
    let mut csr = CsrMatrix::from_pattern(2, 3, &[vec![2usize, 0], vec![1usize]]).unwrap();
    csr.set_value(0, 2, r(7.0)).unwrap();
    csr.set_value(1, 1, r(8.0)).unwrap();
    let csc = csr_to_csc(&csr);
    assert_eq!((csc.nrows, csc.ncols), (2, 3));
    assert_eq!(csc.col_ptr, vec![0, 1, 2, 3]);
    assert_eq!(csc.row_idx, vec![0, 1, 0]);
    assert_eq!(csc.get(0, 2).unwrap(), r(7.0));
    assert_eq!(csc.get(1, 1).unwrap(), r(8.0));
}

#[test]
fn sym_to_csc_expands_both_triangles() {
    let sym = sym_tridiag();
    let csc = sym_to_csc(&sym);
    csc.validate().unwrap();
    assert_eq!(csc.nnz(), 7);
    assert_eq!(csc.get(0, 1).unwrap(), r(-1.0));
    assert_eq!(csc.get(1, 0).unwrap(), r(-1.0));
}

#[test]
fn sym_to_csc_matvec_agrees_with_sym_matvec() {
    let sym = sym_tridiag();
    let csc = sym_to_csc(&sym);
    let x = reals(&[1.0, 2.0, 3.0]);
    let y_sym = sym.matvec(&x).unwrap();
    let y_csc = csc.matvec(&x).unwrap();
    for (a, b) in y_sym.iter().zip(y_csc.iter()) {
        assert!((a.0 - b.0).abs() < 1e-14, "sym={a:?} csc={b:?}");
    }
}

#[test]
fn csr_to_sym_extracts_upper() {
    let pattern = vec![vec![0usize, 1], vec![0, 1, 2], vec![1, 2]];
    let mut csr = CsrMatrix::from_pattern(3, 3, &pattern).unwrap();
    csr.set_value(0, 0, r(4.0)).unwrap();
    csr.set_value(0, 1, r(-1.0)).unwrap();
    csr.set_value(1, 0, r(-1.0)).unwrap();
    csr.set_value(1, 1, r(4.0)).unwrap();
    csr.set_value(1, 2, r(-1.0)).unwrap();
    csr.set_value(2, 1, r(-1.0)).unwrap();
    csr.set_value(2, 2, r(4.0)).unwrap();
    let sym = csr_to_sym(&csr).unwrap();
    sym.validate().unwrap();
    assert_eq!(sym.get(0, 0).unwrap(), r(4.0));
    assert_eq!(sym.get(0, 1).unwrap(), r(-1.0));
    assert_eq!(sym.get(1, 1).unwrap(), r(4.0));
    assert_eq!(sym.get(1, 2).unwrap(), r(-1.0));
    assert_eq!(sym.get(2, 2).unwrap(), r(4.0));
}

#[test]
fn csr_to_sym_err_not_square() {
    let m = CsrMatrix::<Real>::from_pattern(2, 3, &[vec![0usize], vec![0usize]]).unwrap();
    assert!(matches!(csr_to_sym(&m).unwrap_err(), SparseError::NotSquare { .. }));
}

#[test]
fn csr_to_sym_adds_missing_diagonal() {
    let mut csr = CsrMatrix::from_pattern(2, 2, &[vec![1usize], vec![1usize]]).unwrap();
    csr.set_value(0, 1, r(3.0)).unwrap();
    csr.set_value(1, 1, r(2.0)).unwrap();
    let sym = csr_to_sym(&csr).unwrap();
    assert_eq!(sym.row_ptr, vec![0, 2, 3]);
    assert_eq!(sym.get(0, 0).unwrap(), r(0.0));
    assert_eq!(sym.get(1, 0).unwrap(), r(3.0));
}

#[test]
fn sym_csc_csr_roundtrip_matvec() {
    let sym = sym_tridiag();
    let csc = sym_to_csc(&sym);
    let csr = csc_to_csr(&csc);
    csr.validate().unwrap();
    let x = reals(&[1.0, 2.0, 3.0]);
    let y_sym = sym.matvec(&x).unwrap();
    let y_csr = csr.matvec(&x).unwrap();
    for (a, b) in y_sym.iter().zip(y_csr.iter()) {
        assert!((a.0 - b.0).abs() < 1e-14);
    }
}

#[test]
fn csr_csc_roundtrip_nnz() {
    let csr = upper_triangular_csr();
    let csc = csr_to_csc(&csr);
    let csr2 = csc_to_csr(&csc);
    assert_eq!(csr.nnz(), csc.nnz());
    assert_eq!(csr.nnz(), csr2.nnz());
    csc.validate().unwrap();
    csr2.validate().unwrap();
}

#[test]
fn csr_csc_roundtrip_matvec() {
    let csr = upper_triangular_csr();
    let csc = csr_to_csc(&csr);
    let x = reals(&[1.0, 2.0, 3.0]);
    assert_eq!(csr.matvec(&x).unwrap(), csc.matvec(&x).unwrap());
}

#[test]
fn sym_to_csc_full_expansion() {
    let sym = coo_sym_tridiag();
    let csc = sym_to_csc(&sym);
    csc.validate().unwrap();
    assert_eq!(csc.nnz(), 7);
    assert_eq!(csc.get(0, 1).unwrap(), csc.get(1, 0).unwrap());
}

#[test]
fn sym_to_csc_matvec_matches_sym_matvec() {
    let sym = coo_sym_tridiag();
    let csc = sym_to_csc(&sym);
    let x = reals(&[1.0, 2.0, 3.0]);
    let y_sym = sym.matvec(&x).unwrap();
    let y_csc = csc.matvec(&x).unwrap();
    for (a, b) in y_sym.iter().zip(y_csc.iter()) {
        assert!((a.0 - b.0).abs() < 1e-14, "sym={a:?} csc={b:?}");
    }
}

#[test]
fn csr_to_sym_extracts_upper_triangle() {
    let mut coo = CooBuilder::new(3, 3);
    coo.add(0, 0, r(4.0));
    coo.add(0, 1, r(-1.0));
    coo.add(1, 0, r(-1.0));
    coo.add(1, 1, r(4.0));
    coo.add(1, 2, r(-1.0));
    coo.add(2, 1, r(-1.0));
    coo.add(2, 2, r(4.0));
    let csr = coo.build_csr().unwrap();
    let sym = csr_to_sym(&csr).unwrap();
    sym.validate().unwrap();
    assert_eq!(sym.get(0, 0).unwrap(), r(4.0));
    assert_eq!(sym.get(0, 1).unwrap(), r(-1.0));
    assert_eq!(sym.get(1, 2).unwrap(), r(-1.0));
    assert_eq!(sym.get(1, 0).unwrap(), r(-1.0));
}

#[test]
fn full_pipeline_sym_csc_csr_matvec() {
    let sym = coo_sym_tridiag();
    let csc = sym_to_csc(&sym);
    let csr = csc_to_csr(&csc);
    let x = reals(&[1.0, 2.0, 3.0]);
    let y_sym = sym.matvec(&x).unwrap();
    let y_csr = csr.matvec(&x).unwrap();
    for (a, b) in y_sym.iter().zip(y_csr.iter()) {
        assert!((a.0 - b.0).abs() < 1e-14);
    }
}

#[test]
fn build_csr_basic() {
    let mut coo = CooBuilder::new(3, 3);
    coo.add(0, 0, r(1.0));
    coo.add(0, 2, r(2.0));
    coo.add(1, 1, r(3.0));
    coo.add(1, 2, r(4.0));
    coo.add(2, 2, r(5.0));
    let csr = coo.build_csr().unwrap();
    csr.validate().unwrap();
    assert_eq!(csr.get(0, 0).unwrap(), r(1.0));
    assert_eq!(csr.get(1, 2).unwrap(), r(4.0));
    assert_eq!(csr.get(2, 2).unwrap(), r(5.0));
}

#[test]
fn build_csr_sums_duplicates() {
    let mut coo = CooBuilder::new(2, 2);
    coo.add(0, 0, r(1.0));
    coo.add(0, 0, r(2.0));
    let csr = coo.build_csr().unwrap();
    assert_eq!(csr.get(0, 0).unwrap(), r(3.0));
}

#[test]
fn build_csr_err_row_out_of_range() {
    let mut coo = CooBuilder::new(2, 2);
    coo.add(99, 0, r(1.0));
    assert!(matches!(coo.build_csr().unwrap_err(), SparseError::RowOutOfRange { .. }));
}

#[test]
fn build_csr_keeps_lower_triangle_and_reports_column() {
    let mut coo = CooBuilder::new(2, 3);
    coo.add(1, 0, r(-1.0));
    coo.add(0, 2, r(2.0));
    let csr = coo.build_csr().unwrap();
    assert_eq!(csr.get(1, 0).unwrap(), r(-1.0));
    assert_eq!(csr.get(0, 1).unwrap(), r(0.0));
    assert_eq!(csr.nnz(), 2);
    let mut coo = CooBuilder::new(2, 3);
    coo.add(0, 0, r(1.0));
    coo.add(1, 5, r(1.0));
    assert_eq!(coo.build_csr().unwrap_err(), SparseError::ColOutOfRange { col: 5, ncols: 3 });
}

// ---- Matrix Market coordinate listings ------------------------------

#[test]
fn mtx_entries_general_keep_their_coordinates() {
    let entries = vec![(0usize, 0usize, r(10.0)), (1, 1, r(20.0)), (2, 2, r(30.0))];
    let coo = CooBuilder::from_mtx_entries(3, 3, &entries, false);
    assert_eq!(coo.len(), 3);
    let csr = coo.build_csr().unwrap();
    assert_eq!(csr.nrows, 3);
    assert_eq!(csr.get(0, 0).unwrap(), r(10.0));
    assert_eq!(csr.get(1, 1).unwrap(), r(20.0));
    assert_eq!(csr.get(2, 2).unwrap(), r(30.0));
}

#[test]
fn mtx_entries_symmetric_move_to_upper_triangle() {
    // a lower-triangle entry (1, 0) becomes (0, 1)
    let entries = vec![(0usize, 0usize, r(2.0)), (1, 0, r(0.5)), (1, 1, r(2.0))];
    let coo = CooBuilder::from_mtx_entries(2, 2, &entries, true);
    let sym = coo.build_sym().expect("upper-triangle triplets");
    assert_eq!(sym.get(0, 0).unwrap(), r(2.0));
    assert_eq!(sym.get(0, 1).unwrap(), r(0.5));
    assert_eq!(sym.get(1, 0).unwrap(), r(0.5));
    assert_eq!(sym.get(1, 1).unwrap(), r(2.0));
    // the general reading of the same listing keeps the lower entry
    let csr = CooBuilder::from_mtx_entries(2, 2, &entries, false).build_csr().unwrap();
    assert_eq!(csr.get(1, 0).unwrap(), r(0.5));
    assert!(csr.get(0, 1).unwrap() == r(0.0));
}
