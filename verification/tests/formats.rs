use sparse_solvers::coo::CooBuilder;
use sparse_solvers::csc::CscMatrix;
use sparse_solvers::csr::CsrMatrix;
use sparse_solvers::csr::iter::LineIter;
use sparse_solvers::error::SparseError;
use sparse_solvers::matvec::MatvecWorkspace;
use sparse_solvers::scalar::SparseScalar;
use sparse_solvers::sym::SymCsrMatrix;
use sparse_solvers::SparseMatrix;

/// A real number for the generic matrices, with the pivot thresholds the
/// solvers expect of `f64`.
#[derive(Clone, Copy, Debug, PartialEq, PartialOrd)]
struct Real(f64);

impl SparseScalar for Real {
    fn zero() -> Self {
        Real(0.0)
    }
    fn one() -> Self {
        Real(1.0)
    }
    fn plus(self, rhs: Self) -> Self {
        Real(self.0 + rhs.0)
    }
    fn minus(self, rhs: Self) -> Self {
        Real(self.0 - rhs.0)
    }
    fn times(self, rhs: Self) -> Self {
        Real(self.0 * rhs.0)
    }
    fn divided_by(self, rhs: Self) -> Self {
        Real(self.0 / rhs.0)
    }
    fn scalar_sqrt(self) -> Self {
        Real(self.0.sqrt())
    }
    fn is_negative(self) -> bool {
        self.0 < 0.0
    }
    fn is_positive_pivot(self) -> bool {
        !(self.0 <= 1e-12)
    }
    fn is_negligible_pivot(self) -> bool {
        self.0.abs() < 1e-14
    }
    fn magnitude(self) -> Self {
        Real(self.0.abs())
    }
    fn exceeds(self, bound: Self) -> bool {
        self.0 > bound.0
    }
    fn render(self) -> String {
        format!("{:8.4}", self.0)
    }
}

fn r(v: f64) -> Real {
    Real(v)
}

fn reals(v: &[f64]) -> Vec<Real> {
    v.iter().map(|&x| Real(x)).collect()
}

/// 3×3 symmetric, upper triangle stored:
/// [ 4 -1  0]
/// [-1  4 -1]
/// [ 0 -1  4]
fn tridiag() -> SymCsrMatrix<Real> {
    let pattern = vec![vec![0usize, 1], vec![1, 2], vec![2]];
    let mut m = SymCsrMatrix::from_pattern(3, &pattern).unwrap();
    m.set_value(0, 0, r(4.0)).unwrap();
    m.set_value(0, 1, r(-1.0)).unwrap();
    m.set_value(1, 1, r(4.0)).unwrap();
    m.set_value(1, 2, r(-1.0)).unwrap();
    m.set_value(2, 2, r(4.0)).unwrap();
    m
}

/// 3×3 upper triangular, row-major:
/// [1 0 2]
/// [0 3 4]
/// [0 0 5]
fn upper_csr() -> CsrMatrix<Real> {
    let pattern = vec![vec![0usize, 2], vec![1, 2], vec![2]];
    let mut m = CsrMatrix::from_pattern(3, 3, &pattern).unwrap();
    m.add_value(0, 0, r(1.0)).unwrap();
    m.add_value(0, 2, r(2.0)).unwrap();
    m.add_value(1, 1, r(3.0)).unwrap();
    m.add_value(1, 2, r(4.0)).unwrap();
    m.add_value(2, 2, r(5.0)).unwrap();
    m
}

/// The tridiagonal matrix with both triangles stored, row-major.
fn full_tridiag_csr() -> CsrMatrix<Real> {
    let pattern = vec![vec![0usize, 1], vec![0, 1, 2], vec![1, 2]];
    let mut m = CsrMatrix::from_pattern(3, 3, &pattern).unwrap();
    m.set_value(0, 0, r(4.0)).unwrap();
    m.set_value(0, 1, r(-1.0)).unwrap();
    m.set_value(1, 0, r(-1.0)).unwrap();
    m.set_value(1, 1, r(4.0)).unwrap();
    m.set_value(1, 2, r(-1.0)).unwrap();
    m.set_value(2, 1, r(-1.0)).unwrap();
    m.set_value(2, 2, r(4.0)).unwrap();
    m
}

/// The upper triangular matrix of `upper_csr`, column-major.
fn upper_csc() -> CscMatrix<Real> {
    let pattern = vec![vec![0usize], vec![1], vec![0, 1, 2]];
    let mut m = CscMatrix::from_pattern(3, 3, &pattern).unwrap();
    m.set_value(0, 0, r(1.0)).unwrap();
    m.set_value(1, 1, r(3.0)).unwrap();
    m.set_value(0, 2, r(2.0)).unwrap();
    m.set_value(1, 2, r(4.0)).unwrap();
    m.set_value(2, 2, r(5.0)).unwrap();
    m
}

fn drain(mut it: LineIter<'_, Real>) -> Vec<(usize, Real)> {
    let mut out = Vec::new();
    while let Some(p) = it.next() {
        out.push(p);
    }
    out
}

// -----------------------------------------------------------------
// Construction, shared by the three formats
// -----------------------------------------------------------------

#[test]
fn matrix_from_pattern_structure() {
    let m = tridiag();
    assert_eq!(m.row_ptr, vec![0, 2, 4, 5]);
    assert_eq!(m.col_idx, vec![0, 1, 1, 2, 2]);

    let pattern = vec![vec![0usize, 2], vec![0, 1, 2], vec![1, 2]];
    let csr = CsrMatrix::<Real>::from_pattern(3, 3, &pattern).unwrap();
    assert_eq!(csr.row_ptr, vec![0, 2, 5, 7]);
    assert_eq!(csr.col_idx, vec![0, 2, 0, 1, 2, 1, 2]);
    assert!(csr.values.iter().all(|&v| v == r(0.0)));

    let csc = upper_csc();
    assert_eq!(csc.col_ptr, vec![0, 1, 2, 5]);
    assert_eq!(csc.row_idx, vec![0, 1, 0, 1, 2]);
    assert_eq!(csc.nnz(), 5);
}

#[test]
fn matrix_from_pattern_deduplicates_and_sorts() {
    let csr = CsrMatrix::<Real>::from_pattern(1, 3, &[vec![2usize, 0, 0, 1]]).unwrap();
    assert_eq!(csr.col_idx, vec![0, 1, 2]);
    let csc = CscMatrix::<Real>::from_pattern(3, 1, &[vec![2usize, 0, 0, 1]]).unwrap();
    assert_eq!(csc.row_idx, vec![0, 1, 2]);
}

#[test]
fn matrix_from_pattern_err_length() {
    assert!(matches!(
        CsrMatrix::<Real>::from_pattern(2, 3, &[vec![0usize]]).unwrap_err(),
        SparseError::PatternLengthMismatch { .. }
    ));
    assert!(matches!(
        CscMatrix::<Real>::from_pattern(3, 2, &[vec![0usize]]).unwrap_err(),
        SparseError::PatternLengthMismatch { .. }
    ));
}

#[test]
fn from_pattern_err_col_range() {
    assert!(matches!(
        CsrMatrix::<Real>::from_pattern(1, 3, &[vec![0usize, 99]]).unwrap_err(),
        SparseError::ColOutOfRange { col: 99, .. }
    ));
}

#[test]
fn from_pattern_err_row_range() {
    assert!(matches!(
        CscMatrix::<Real>::from_pattern(3, 1, &[vec![99usize]]).unwrap_err(),
        SparseError::RowOutOfRange { row: 99, .. }
    ));
}

// -----------------------------------------------------------------
// Access and mutation, shared by the three formats
// -----------------------------------------------------------------

#[test]
fn matrix_add_value_accumulates() {
    let mut m = tridiag();
    m.add_value(0, 0, r(1.0)).unwrap();
    assert_eq!(m.get(0, 0).unwrap(), r(5.0));

    let mut csr = upper_csr();
    csr.add_value(0, 0, r(10.0)).unwrap();
    assert_eq!(csr.get(0, 0).unwrap(), r(11.0));

    let mut csc = upper_csc();
    csc.add_value(0, 0, r(9.0)).unwrap();
    assert_eq!(csc.get(0, 0).unwrap(), r(10.0));
}

#[test]
fn matrix_zero_clears_keeps_pattern() {
    let mut m = tridiag();
    m.zero();
    assert!(m.values.iter().all(|&v| v == r(0.0)));
    assert_eq!(m.nnz(), 5);

    let mut csr = upper_csr();
    csr.zero();
    assert!(csr.values.iter().all(|&v| v == r(0.0)));
    assert_eq!(csr.nnz(), 5);

    let mut csc = upper_csc();
    csc.zero();
    assert!(csc.values.iter().all(|&v| v == r(0.0)));
    assert_eq!(csc.nnz(), 5);
}

#[test]
fn matrix_extract_diagonal() {
    assert_eq!(tridiag().extract_diagonal(), reals(&[4.0, 4.0, 4.0]));
    assert_eq!(upper_csr().extract_diagonal().unwrap(), reals(&[1.0, 3.0, 5.0]));
    assert_eq!(upper_csc().extract_diagonal().unwrap(), reals(&[1.0, 3.0, 5.0]));
}

#[test]
fn matrix_zero_row_col_bc() {
    let mut m = tridiag();
    m.zero_row_col(1).unwrap();
    assert_eq!(m.get(1, 1).unwrap(), r(1.0));
    assert_eq!(m.get(1, 2).unwrap(), r(0.0));
    assert_eq!(m.get(0, 1).unwrap(), r(0.0));
    assert_eq!(m.get(0, 0).unwrap(), r(4.0));

    let pattern = vec![vec![0usize, 1, 2], vec![0, 1, 2], vec![0, 1, 2]];
    let mut k = CsrMatrix::from_pattern(3, 3, &pattern).unwrap();
    for i in 0..3 {
        for j in 0..3 {
            k.set_value(i, j, r(2.0)).unwrap();
        }
    }
    k.zero_row_col(1).unwrap();
    assert_eq!(k.get(1, 1).unwrap(), r(1.0));
    assert_eq!(k.get(1, 0).unwrap(), r(0.0));
    assert_eq!(k.get(0, 1).unwrap(), r(0.0));
    assert_eq!(k.get(0, 0).unwrap(), r(2.0));
}

#[test]
fn matrix_validate_passes() {
    tridiag().validate().unwrap();
    upper_csc().validate().unwrap();
}

#[test]
fn matrix_display_non_empty() {
    assert!(!tridiag().display_text().is_empty());
    assert!(!upper_csr().display_text().is_empty());
    assert!(!upper_csc().display_text().is_empty());
}

#[test]
fn display_text_prints_every_entry() {
    assert_eq!(
        upper_csr().display_text(),
        "[  1.0000,   0.0000,   2.0000]\n[  0.0000,   3.0000,   4.0000]\n[  0.0000,   0.0000,   5.0000]\n"
    );
    assert_eq!(upper_csc().display_text(), upper_csr().display_text());
    assert_eq!(
        tridiag().display_text(),
        "[  4.0000,  -1.0000,   0.0000]\n[ -1.0000,   4.0000,  -1.0000]\n[  0.0000,  -1.0000,   4.0000]\n"
    );
}

#[test]
fn get_values() {
    let m = upper_csc();
    assert_eq!(m.get(0, 0).unwrap(), r(1.0));
    assert_eq!(m.get(1, 1).unwrap(), r(3.0));
    assert_eq!(m.get(2, 2).unwrap(), r(5.0));
    assert_eq!(m.get(0, 1).unwrap(), r(0.0));
}

#[test]
fn csc_add_value_errors() {
    let mut m = upper_csc();
    assert_eq!(m.add_value(1, 0, r(1.0)).unwrap_err(), SparseError::IndexOutOfBounds { row: 1, col: 0 });
    assert_eq!(m.set_value(0, 3, r(1.0)).unwrap_err(), SparseError::ColOutOfRange { col: 3, ncols: 3 });
    assert_eq!(m.get(3, 0).unwrap_err(), SparseError::RowOutOfRange { row: 3, nrows: 3 });
}

#[test]
fn csc_validate_reports_each_fault() {
    let mut m = upper_csc();
    m.row_idx[3] = 9;
    assert_eq!(m.validate().unwrap_err(), SparseError::RowOutOfRange { row: 9, nrows: 3 });
    let mut m = upper_csc();
    m.row_idx[2] = 1;
    assert_eq!(m.validate().unwrap_err(), SparseError::IndexOutOfBounds { row: 1, col: 2 });
}

// -----------------------------------------------------------------
// CSR matrix
// -----------------------------------------------------------------

#[test]
fn add_value_err_not_in_pattern() {
    let mut m = upper_csr();
    assert!(matches!(
        m.add_value(0, 1, r(1.0)).unwrap_err(),
        SparseError::IndexOutOfBounds { row: 0, col: 1 }
    ));
}

#[test]
fn get_structural_zero_returns_0() {
    assert_eq!(upper_csr().get(0, 1).unwrap(), r(0.0));
}

#[test]
fn csr_get_out_of_range_errors() {
    let m = upper_csr();
    assert_eq!(m.get(3, 0).unwrap_err(), SparseError::RowOutOfRange { row: 3, nrows: 3 });
    assert_eq!(m.get(0, 3).unwrap_err(), SparseError::ColOutOfRange { col: 3, ncols: 3 });
}

#[test]
fn scatter_add_correct() {
    let pattern = vec![vec![0usize, 1], vec![0, 1]];
    let mut k = CsrMatrix::from_pattern(2, 2, &pattern).unwrap();
    k.scatter_add(&reals(&[2.0, -2.0, -2.0, 2.0]), &[0, 1]).unwrap();
    assert_eq!(k.get(0, 0).unwrap(), r(2.0));
    assert_eq!(k.get(0, 1).unwrap(), r(-2.0));
    assert_eq!(k.get(1, 0).unwrap(), r(-2.0));
    assert_eq!(k.get(1, 1).unwrap(), r(2.0));
}

#[test]
fn scatter_add_err_size() {
    let pattern = vec![vec![0usize, 1], vec![0, 1]];
    let mut k = CsrMatrix::from_pattern(2, 2, &pattern).unwrap();
    assert!(matches!(
        k.scatter_add(&reals(&[1.0, 0.0, 0.0]), &[0, 1]).unwrap_err(),
        SparseError::ScatterSizeMismatch { .. }
    ));
}

#[test]
fn scatter_add_stops_at_first_absent_entry() {
    let pattern = vec![vec![0usize], vec![0, 1]];
    let mut k = CsrMatrix::from_pattern(2, 2, &pattern).unwrap();
    assert_eq!(
        k.scatter_add(&reals(&[1.0, 2.0, 3.0, 4.0]), &[0, 1]).unwrap_err(),
        SparseError::IndexOutOfBounds { row: 0, col: 1 }
    );
    // the entry before the failing one stays accumulated
    assert_eq!(k.get(0, 0).unwrap(), r(1.0));
    assert_eq!(k.get(1, 0).unwrap(), r(0.0));
}

#[test]
fn zero_row_col_without_diagonal_reports_it() {
    let pattern = vec![vec![1usize], vec![0, 1]];
    let mut k = CsrMatrix::from_pattern(2, 2, &pattern).unwrap();
    k.set_value(0, 1, r(5.0)).unwrap();
    k.set_value(1, 0, r(6.0)).unwrap();
    assert_eq!(k.zero_row_col(0).unwrap_err(), SparseError::IndexOutOfBounds { row: 0, col: 0 });
    assert_eq!(k.get(0, 1).unwrap(), r(0.0));
    assert_eq!(k.get(1, 0).unwrap(), r(0.0));
    assert_eq!(k.zero_row_col(5).unwrap_err(), SparseError::RowOutOfRange { row: 5, nrows: 2 });
}

#[test]
fn validate_good_matrix() {
    upper_csr().validate().unwrap();
}

#[test]
fn csr_validate_reports_each_fault() {
    let mut m = upper_csr();
    m.col_idx[1] = 7;
    assert_eq!(m.validate().unwrap_err(), SparseError::ColOutOfRange { col: 7, ncols: 3 });
    let mut m = upper_csr();
    m.col_idx[0] = 2;
    assert_eq!(m.validate().unwrap_err(), SparseError::IndexOutOfBounds { row: 0, col: 2 });
    let mut m = upper_csr();
    m.values.pop();
    assert_eq!(m.validate().unwrap_err(), SparseError::DimensionMismatch { expected: 5, got: 4 });
}

#[test]
fn from_dof_connectivity_stores_both_triangles() {
    let m = CsrMatrix::<Real>::from_dof_connectivity(3, &[vec![0usize, 1], vec![1, 2]]).unwrap();
    assert_eq!(m.row_ptr, vec![0, 2, 5, 7]);
    assert_eq!(m.col_idx, vec![0, 1, 0, 1, 2, 1, 2]);
    assert_eq!(
        CsrMatrix::<Real>::from_dof_connectivity(2, &[vec![0usize, 4]]).unwrap_err(),
        SparseError::ColOutOfRange { col: 4, ncols: 2 }
    );
}

// -----------------------------------------------------------------
// Products, scaling, norms
// -----------------------------------------------------------------

#[test]
fn ops_matvec_correct() {
    assert_eq!(upper_csr().matvec(&reals(&[1.0, 2.0, 3.0])).unwrap(), reals(&[7.0, 18.0, 15.0]));
    assert_eq!(upper_csc().matvec(&reals(&[1.0, 2.0, 3.0])).unwrap(), reals(&[7.0, 18.0, 15.0]));
    assert_eq!(tridiag().matvec(&reals(&[1.0, 1.0, 1.0])).unwrap(), reals(&[3.0, 2.0, 3.0]));
}

#[test]
fn ops_matvec_dimension_err() {
    assert!(matches!(
        upper_csr().matvec(&reals(&[1.0, 2.0])).unwrap_err(),
        SparseError::DimensionMismatch { .. }
    ));
    assert!(matches!(
        tridiag().matvec(&reals(&[1.0, 2.0])).unwrap_err(),
        SparseError::DimensionMismatch { .. }
    ));
}

#[test]
fn matvec_into_same_result() {
    let m = upper_csr();
    let mut ws = MatvecWorkspace::new(3);
    m.matvec_into(&reals(&[1.0, 2.0, 3.0]), &mut ws).unwrap();
    assert_eq!(ws.as_slice(), &reals(&[7.0, 18.0, 15.0])[..]);
}

#[test]
fn matvec_into_reuse_gives_same_result() {
    let m = upper_csr();
    let mut ws = MatvecWorkspace::new(3);
    for _ in 0..100 {
        m.matvec_into(&reals(&[1.0, 2.0, 3.0]), &mut ws).unwrap();
    }
    assert_eq!(ws.as_slice(), &reals(&[7.0, 18.0, 15.0])[..]);
}

#[test]
fn matvec_into_workspace_size_error_keeps_buffer() {
    let m = upper_csr();
    let mut ws = MatvecWorkspace::new(2);
    assert_eq!(
        m.matvec_into(&reals(&[1.0, 2.0, 3.0]), &mut ws).unwrap_err(),
        SparseError::DimensionMismatch { expected: 3, got: 2 }
    );
    assert_eq!(ws.as_slice(), &reals(&[0.0, 0.0])[..]);
}

#[test]
fn ops_matvec_transpose_correct() {
    assert_eq!(upper_csr().matvec_transpose(&reals(&[1.0, 2.0, 3.0])).unwrap(), reals(&[1.0, 6.0, 25.0]));
    assert_eq!(upper_csc().matvec_transpose(&reals(&[1.0, 2.0, 3.0])).unwrap(), reals(&[1.0, 6.0, 25.0]));
}

#[test]
fn matvec_transpose_dimension_err() {
    assert_eq!(
        upper_csr().matvec_transpose(&reals(&[1.0])).unwrap_err(),
        SparseError::DimensionMismatch { expected: 3, got: 1 }
    );
    assert_eq!(
        upper_csc().matvec_transpose(&reals(&[1.0])).unwrap_err(),
        SparseError::DimensionMismatch { expected: 3, got: 1 }
    );
}

#[test]
fn matvec_matches_csr() {
    let x = reals(&[1.0, 2.0, 3.0]);
    assert_eq!(upper_csc().matvec(&x).unwrap(), upper_csr().matvec(&x).unwrap());
}

#[test]
fn is_symmetric_true() {
    assert!(full_tridiag_csr().is_symmetric(r(1e-14)).unwrap());
}

#[test]
fn is_symmetric_false() {
    assert!(!upper_csr().is_symmetric(r(1e-14)).unwrap());
}

#[test]
fn is_symmetric_not_square() {
    let m = CsrMatrix::<Real>::from_pattern(2, 3, &[vec![0usize], vec![0usize]]).unwrap();
    assert_eq!(m.is_symmetric(r(1e-14)).unwrap_err(), SparseError::NotSquare { nrows: 2, ncols: 3 });
}

#[test]
fn ops_scale_doubles() {
    let mut m = upper_csr();
    m.scale(r(2.0));
    assert_eq!(m.get(0, 0).unwrap(), r(2.0));
    assert_eq!(m.get(2, 2).unwrap(), r(10.0));
    let mut c = upper_csc();
    c.scale(r(2.0));
    assert_eq!(c.get(0, 0).unwrap(), r(2.0));
}

#[test]
fn frobenius_norm_sym() {
    let expected = 52.0_f64.sqrt();
    assert!((full_tridiag_csr().frobenius_norm().0 - expected).abs() < 1e-12);
}

#[test]
fn ops_frobenius_norm_correct() {
    let expected = 55.0_f64.sqrt();
    assert!((upper_csc().frobenius_norm().0 - expected).abs() < 1e-12);
    let expected = 52.0_f64.sqrt();
    assert!((tridiag().frobenius_norm().0 - expected).abs() < 1e-12);
}

#[test]
fn matvec_matches_csr_expansion() {
    let x = reals(&[1.0, 2.0, 3.0]);
    let y_sym = tridiag().matvec(&x).unwrap();
    let y_full = full_tridiag_csr().matvec(&x).unwrap();
    for (a, b) in y_sym.iter().zip(y_full.iter()) {
        assert!((a.0 - b.0).abs() < 1e-14, "sym={a:?} full={b:?}");
    }
}

#[test]
fn matvec_into_workspace_reuse() {
    let m = tridiag();
    let mut ws = MatvecWorkspace::new(3);
    for _ in 0..100 {
        m.matvec_into(&reals(&[1.0, 1.0, 1.0]), &mut ws).unwrap();
    }
    assert_eq!(ws.as_slice(), &reals(&[3.0, 2.0, 3.0])[..]);
}

#[test]
fn scale_halves_values() {
    let mut m = tridiag();
    m.scale(r(0.5));
    assert_eq!(m.get(0, 0).unwrap(), r(2.0));
    assert_eq!(m.get(0, 1).unwrap(), r(-0.5));
}

// -----------------------------------------------------------------
// Traversal
// -----------------------------------------------------------------

#[test]
fn row_iter_row0() {
    let m = upper_csr();
    let v = drain(m.row_iter(0).unwrap());
    assert_eq!(v, vec![(0, r(1.0)), (2, r(2.0))]);
}

#[test]
fn row_iter_exact_size() {
    let m = upper_csr();
    assert_eq!(m.row_iter(0).unwrap().len(), 2);
}

#[test]
fn iter_row_iter_err_out_of_range() {
    assert!(matches!(upper_csr().row_iter(99), Err(SparseError::RowOutOfRange { row: 99, .. })));
    assert!(matches!(tridiag().row_iter(99), Err(SparseError::RowOutOfRange { .. })));
}

#[test]
fn iter_nonzeros_order_and_count() {
    let entries = upper_csr().iter_nonzeros();
    assert_eq!(entries.len(), 5);
    assert_eq!(entries[0], (0, 0, r(1.0)));
    assert_eq!(entries[1], (0, 2, r(2.0)));
    assert_eq!(entries[4], (2, 2, r(5.0)));
}

#[test]
fn col_iter_col2() {
    let m = upper_csc();
    let v = drain(m.col_iter(2).unwrap());
    assert_eq!(v, vec![(0, r(2.0)), (1, r(4.0)), (2, r(5.0))]);
}

#[test]
fn col_iter_exact_size() {
    let m = upper_csc();
    assert_eq!(m.col_iter(2).unwrap().len(), 3);
}

#[test]
fn col_iter_err_out_of_range() {
    assert!(matches!(upper_csc().col_iter(99), Err(SparseError::ColOutOfRange { .. })));
}

#[test]
fn iter_nonzeros_col_major_order() {
    let entries = upper_csc().iter_nonzeros();
    assert_eq!(entries.len(), 5);
    assert_eq!(entries[0], (0, 0, r(1.0)));
    assert_eq!(entries[4], (2, 2, r(5.0)));
}

#[test]
fn upper_row_iter_row0() {
    let m = tridiag();
    let v = drain(m.upper_row_iter(0).unwrap());
    assert_eq!(v, vec![(0, r(4.0)), (1, r(-1.0))]);
}

#[test]
fn upper_row_iter_row2() {
    let m = tridiag();
    let v = drain(m.upper_row_iter(2).unwrap());
    assert_eq!(v, vec![(2, r(4.0))]);
}

#[test]
fn upper_row_iter_exact_size() {
    let m = tridiag();
    assert_eq!(m.upper_row_iter(0).unwrap().len(), 2);
}

#[test]
fn row_iter_row1_both_triangles() {
    let mut v = tridiag().row_iter(1).unwrap();
    v.sort_by_key(|&(col, _)| col);
    assert_eq!(v, vec![(0, r(-1.0)), (1, r(4.0)), (2, r(-1.0))]);
}

#[test]
fn sym_row_iter_lists_stored_then_mirrored() {
    assert_eq!(tridiag().row_iter(2).unwrap(), vec![(2, r(4.0)), (1, r(-1.0))]);
}

#[test]
fn iter_upper_count() {
    assert_eq!(tridiag().iter_upper().len(), 5);
}

// -----------------------------------------------------------------
// Dense views and counts
// -----------------------------------------------------------------

#[test]
fn stats_values() {
    let m = upper_csr();
    assert_eq!(m.nrows, 3);
    assert_eq!(m.nnz(), 5);
    assert_eq!(m.max_row_nnz(), 2);
    let density = m.nnz() as f64 / (m.nrows * m.ncols) as f64;
    assert!((density - 5.0 / 9.0).abs() < 1e-12);
}

#[test]
fn to_dense_correct() {
    let d = upper_csr().to_dense();
    assert_eq!(d[0], reals(&[1.0, 0.0, 2.0]));
    assert_eq!(d[1], reals(&[0.0, 3.0, 4.0]));
    assert_eq!(d[2], reals(&[0.0, 0.0, 5.0]));
}

#[test]
fn test_row_iter() {
    let csr = upper_csr();
    assert_eq!(drain(csr.row_iter(0).unwrap()), vec![(0, r(1.0)), (2, r(2.0))]);
    assert_eq!(drain(csr.row_iter(1).unwrap()), vec![(1, r(3.0)), (2, r(4.0))]);
    assert_eq!(drain(csr.row_iter(2).unwrap()), vec![(2, r(5.0))]);
}

#[test]
fn test_matvec_operations() {
    let mut csr = upper_csr();
    let x = reals(&[1.0, 2.0, 3.0]);
    let y = csr.matvec(&x).unwrap();
    assert_eq!(y, reals(&[1.0 * 1.0 + 2.0 * 3.0, 3.0 * 2.0 + 4.0 * 3.0, 5.0 * 3.0]));
    let y_t = csr.matvec_transpose(&x).unwrap();
    assert_eq!(y_t, reals(&[1.0 * 1.0 + 0.0 * 2.0 + 0.0 * 3.0, 0.0 * 1.0 + 3.0 * 2.0 + 0.0 * 3.0, 2.0 * 1.0 + 4.0 * 2.0 + 5.0 * 3.0]));
    csr.zero();
    assert!(csr.values.iter().all(|&v| v == r(0.0)));
}

#[test]
fn test_to_dense_and_print() {
    let csr = upper_csr();
    let dense = csr.to_dense();
    let expected = vec![reals(&[1.0, 0.0, 2.0]), reals(&[0.0, 3.0, 4.0]), reals(&[0.0, 0.0, 5.0])];
    assert_eq!(dense, expected);
    assert!(!csr.display_text().is_empty());
}

// -----------------------------------------------------------------
// The common interface
// -----------------------------------------------------------------

fn spring_chain() -> CsrMatrix<Real> {
    let mut coo = CooBuilder::new(2, 2);
    coo.add(0, 0, r(1.0));
    coo.add(0, 0, r(1.0));
    coo.add(0, 1, r(-1.0));
    coo.add(1, 0, r(-1.0));
    coo.add(1, 1, r(1.0));
    coo.add(1, 1, r(1.0));
    coo.build_csr().unwrap()
}

#[test]
fn spring_chain_stiffness_values() {
    let k = spring_chain();
    assert_eq!(k.get(0, 0).unwrap(), r(2.0));
    assert_eq!(k.get(0, 1).unwrap(), r(-1.0));
    assert_eq!(k.get(1, 0).unwrap(), r(-1.0));
    assert_eq!(k.get(1, 1).unwrap(), r(2.0));
}

#[test]
fn spring_chain_matvec_checks_solution() {
    let k = spring_chain();
    let u = reals(&[2.0 / 3.0, 1.0 / 3.0]);
    let f = k.matvec(&u).unwrap();
    assert!((f[0].0 - 1.0).abs() < 1e-12);
    assert!((f[1].0 - 0.0).abs() < 1e-12);
}

#[test]
fn boundary_condition_zeroes_row_and_col() {
    let mut k = spring_chain();
    k.zero_row_col(0).unwrap();
    assert_eq!(k.get(0, 0).unwrap(), r(1.0));
    assert_eq!(k.get(0, 1).unwrap(), r(0.0));
    assert_eq!(k.get(1, 0).unwrap(), r(0.0));
    assert_eq!(k.get(1, 1).unwrap(), r(2.0));
}

#[test]
fn sparse_matrix_trait_methods() {
    let k = spring_chain();
    assert_eq!(SparseMatrix::nrows(&k), 2);
    assert_eq!(SparseMatrix::ncols(&k), 2);
    assert!(k.is_square());
    assert_eq!(SparseMatrix::nnz(&k), 4);
}

#[test]
fn validate_passes_on_assembled_matrix() {
    spring_chain().validate().unwrap();
}

#[test]
fn error_add_to_absent_entry() {
    let mut m = CsrMatrix::from_pattern(2, 2, &[vec![0usize], vec![1usize]]).unwrap();
    assert!(matches!(
        m.add_value(0, 1, r(1.0)).unwrap_err(),
        SparseError::IndexOutOfBounds { row: 0, col: 1 }
    ));
}

#[test]
fn sparse_matrix_trait() {
    let mut coo = CooBuilder::new(3, 3);
    coo.add(0, 0, r(4.0));
    coo.add(0, 1, r(-1.0));
    coo.add(1, 1, r(4.0));
    coo.add(1, 2, r(-1.0));
    coo.add(2, 2, r(4.0));
    let m = coo.build_sym().unwrap();
    assert_eq!(SparseMatrix::nrows(&m), 3);
    assert!(m.is_square());
    assert_eq!(SparseMatrix::nnz(&m), 5);
}

#[test]
fn sparse_matrix_trait_on_csc() {
    let m = upper_csc();
    assert_eq!(SparseMatrix::nrows(&m), 3);
    assert_eq!(SparseMatrix::ncols(&m), 3);
    assert!(m.is_square());
    assert_eq!(SparseMatrix::nnz(&m), 5);
    assert!(SparseMatrix::validate(&m).is_ok());
}

#[test]
fn is_well_formed_matches_the_invariants() {
    let mut sym = SymCsrMatrix::<Real>::from_pattern(3, &[vec![0, 1], vec![1, 2], vec![2]]).unwrap();
    assert!(sym.is_well_formed());
    sym.row_ptr[0] = 1;
    assert!(!sym.is_well_formed());
    let mut csr = CsrMatrix::<Real>::from_pattern(2, 3, &[vec![0, 2], vec![1]]).unwrap();
    assert!(csr.is_well_formed());
    csr.col_idx.swap(0, 1);
    assert!(!csr.is_well_formed());
}
