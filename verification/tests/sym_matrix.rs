use sparse_solvers::coo::CooBuilder;
use sparse_solvers::error::SparseError;
use sparse_solvers::scalar::SparseScalar;
use sparse_solvers::sym::SymCsrMatrix;

/// A real number for the generic matrices, with the pivot thresholds the
/// solvers expect of `f64`.
#[derive(Clone, Copy, Debug, PartialEq, PartialOrd)]
struct Real(f64);

impl SparseScalar for Real {
    fn zero() -> Self {
        Real(0.0)
    }
    fn one() -> Self {
        Real(1.0)
    }
    fn plus(self, rhs: Self) -> Self {
        Real(self.0 + rhs.0)
    }
    fn minus(self, rhs: Self) -> Self {
        Real(self.0 - rhs.0)
    }
    fn times(self, rhs: Self) -> Self {
        Real(self.0 * rhs.0)
    }
    fn divided_by(self, rhs: Self) -> Self {
        Real(self.0 / rhs.0)
    }
    fn scalar_sqrt(self) -> Self {
        Real(self.0.sqrt())
    }
    fn is_negative(self) -> bool {
        self.0 < 0.0
    }
    fn is_positive_pivot(self) -> bool {
        !(self.0 <= 1e-12)
    }
    fn is_negligible_pivot(self) -> bool {
        self.0.abs() < 1e-14
    }
    fn magnitude(self) -> Self {
        Real(self.0.abs())
    }
    fn exceeds(self, bound: Self) -> bool {
        self.0 > bound.0
    }
    fn render(self) -> String {
        format!("{:8.4}", self.0)
    }
}

fn r(v: f64) -> Real {
    Real(v)
}

fn reals(v: &[f64]) -> Vec<Real> {
    v.iter().map(|&x| Real(x)).collect()
}

/// 3×3 symmetric:
/// [ 4 -1  0]
/// [-1  4 -1]
/// [ 0 -1  4]
fn tridiag() -> SymCsrMatrix<Real> {
    let pattern = vec![vec![0usize, 1], vec![1, 2], vec![2]];
    let mut m = SymCsrMatrix::from_pattern(3, &pattern).unwrap();
    m.set_value(0, 0, r(4.0)).unwrap();
    m.set_value(0, 1, r(-1.0)).unwrap();
    m.set_value(1, 1, r(4.0)).unwrap();
    m.set_value(1, 2, r(-1.0)).unwrap();
    m.set_value(2, 2, r(4.0)).unwrap();
    m
}

fn tridiag_coo() -> SymCsrMatrix<Real> {
    let mut coo = CooBuilder::new(3, 3);
    coo.add(0, 0, r(4.0));
    coo.add(0, 1, r(-1.0));
    coo.add(1, 1, r(4.0));
    coo.add(1, 2, r(-1.0));
    coo.add(2, 2, r(4.0));
    coo.build_sym().unwrap()
}

#[test]
fn from_pattern_inserts_diagonal_automatically() {
    let pattern = vec![vec![1usize], vec![1]];
    let m = SymCsrMatrix::<Real>::from_pattern(2, &pattern).unwrap();
    assert!(m.find_idx(0, 0).is_some());
    assert!(m.find_idx(1, 1).is_some());
}

#[test]
fn from_pattern_err_lower_triangle() {
    let pattern = vec![vec![0usize], vec![0usize, 1]];
    assert!(matches!(
        SymCsrMatrix::<Real>::from_pattern(2, &pattern).unwrap_err(),
        SparseError::LowerTriangleEntry { row: 1, col: 0 }
    ));
}

#[test]
fn from_pattern_err_col_out_of_range() {
    let pattern = vec![vec![0usize, 99]];
    assert!(matches!(
        SymCsrMatrix::<Real>::from_pattern(1, &pattern).unwrap_err(),
        SparseError::ColOutOfRange { col: 99, .. }
    ));
}

#[test]
fn from_pattern_err_length_is_reported() {
    let pattern = vec![vec![0usize]];
    assert_eq!(
        SymCsrMatrix::<Real>::from_pattern(2, &pattern).unwrap_err(),
        SparseError::PatternLengthMismatch { pattern_len: 1, nrows: 2 }
    );
}

#[test]
fn from_pattern_sorts_and_deduplicates_rows() {
    let pattern = vec![vec![2usize, 1, 2], vec![2, 1], vec![]];
    let m = SymCsrMatrix::<Real>::from_pattern(3, &pattern).unwrap();
    assert_eq!(m.row_ptr, vec![0, 3, 5, 6]);
    assert_eq!(m.col_idx, vec![0, 1, 2, 1, 2, 2]);
    assert!(m.values.iter().all(|v| *v == r(0.0)));
}

#[test]
fn get_both_triangles() {
    let m = tridiag();
    assert_eq!(m.get(0, 1).unwrap(), r(-1.0));
    assert_eq!(m.get(1, 0).unwrap(), r(-1.0));
    assert_eq!(m.get(0, 2).unwrap(), r(0.0));
}

#[test]
fn get_out_of_range_errors() {
    let m = tridiag();
    assert_eq!(m.get(3, 0).unwrap_err(), SparseError::RowOutOfRange { row: 3, nrows: 3 });
    assert_eq!(m.get(0, 7).unwrap_err(), SparseError::ColOutOfRange { col: 7, ncols: 3 });
}

#[test]
fn add_value_err_lower_triangle() {
    let mut m = tridiag();
    assert!(matches!(
        m.add_value(1, 0, r(1.0)).unwrap_err(),
        SparseError::LowerTriangleEntry { .. }
    ));
}

#[test]
fn add_value_outside_pattern_errors_and_keeps_values() {
    let mut m = tridiag();
    let before = m.values.clone();
    assert_eq!(
        m.add_value(0, 2, r(1.0)).unwrap_err(),
        SparseError::IndexOutOfBounds { row: 0, col: 2 }
    );
    assert_eq!(m.values, before);
}

#[test]
fn add_value_and_return_index_gives_the_slot() {
    let mut m = tridiag();
    let k = m.add_value_and_return_index(1, 2, r(2.0)).unwrap();
    assert_eq!(k, 3);
    assert_eq!(m.values[3], r(1.0));
}

#[test]
fn set_value_overwrites() {
    let mut m = tridiag();
    m.set_value(1, 2, r(7.0)).unwrap();
    assert_eq!(m.get(2, 1).unwrap(), r(7.0));
    assert_eq!(m.set_value(2, 1, r(1.0)).unwrap_err(), SparseError::LowerTriangleEntry { row: 2, col: 1 });
}

#[test]
fn zero_row_col_out_of_range_errors() {
    let mut m = tridiag();
    assert_eq!(m.zero_row_col(3).unwrap_err(), SparseError::RowOutOfRange { row: 3, nrows: 3 });
}

#[test]
fn validate_reports_lower_entry() {
    let mut m = tridiag();
    m.col_idx[3] = 0;
    assert_eq!(m.validate().unwrap_err(), SparseError::LowerTriangleEntry { row: 1, col: 0 });
}

#[test]
fn validate_reports_bad_row_ptr_length() {
    let mut m = tridiag();
    m.row_ptr.pop();
    assert_eq!(m.validate().unwrap_err(), SparseError::PatternLengthMismatch { pattern_len: 2, nrows: 3 });
}

#[test]
fn scatter_add_assembles_element() {
    let mut m = tridiag();
    m.zero();
    // 2-dof element on dofs (1, 2): ke = [[1, -1], [-1, 1]]
    m.scatter_add(&reals(&[1.0, -1.0, -1.0, 1.0]), &[1, 2]).unwrap();
    assert_eq!(m.get(1, 1).unwrap(), r(1.0));
    assert_eq!(m.get(1, 2).unwrap(), r(-1.0));
    assert_eq!(m.get(2, 2).unwrap(), r(1.0));
}

#[test]
fn scatter_add_wrong_size_errors() {
    let mut m = tridiag();
    assert_eq!(
        m.scatter_add(&reals(&[1.0, 2.0, 3.0]), &[0, 1]).unwrap_err(),
        SparseError::ScatterSizeMismatch { ke_len: 3, n: 2, expected: 4 }
    );
}

#[test]
fn from_dof_connectivity_couples_element_dofs() {
    let m = SymCsrMatrix::<Real>::from_dof_connectivity(4, &[vec![0, 1], vec![1, 3]]).unwrap();
    assert_eq!(m.row_ptr, vec![0, 2, 4, 5, 6]);
    assert_eq!(m.col_idx, vec![0, 1, 1, 3, 2, 3]);
    assert_eq!(
        SymCsrMatrix::<Real>::from_dof_connectivity(2, &[vec![0, 5]]).unwrap_err(),
        SparseError::ColOutOfRange { col: 5, ncols: 2 }
    );
}

#[test]
fn error_message_is_not_empty() {
    assert!(!SparseError::NotSquare { nrows: 2, ncols: 3 }.message().is_empty());
}

#[test]
fn matvec_all_ones() {
    let y = tridiag_coo().matvec(&reals(&[1.0, 1.0, 1.0])).unwrap();
    assert_eq!(y, reals(&[3.0, 2.0, 3.0]));
}

#[test]
fn matvec_dimension_mismatch_errors() {
    assert_eq!(
        tridiag().matvec(&reals(&[1.0, 1.0])).unwrap_err(),
        SparseError::DimensionMismatch { expected: 3, got: 2 }
    );
}

#[test]
fn get_both_triangles_equal() {
    let m = tridiag_coo();
    assert_eq!(m.get(0, 1).unwrap(), m.get(1, 0).unwrap());
    assert_eq!(m.get(1, 2).unwrap(), m.get(2, 1).unwrap());
}

#[test]
fn diagonal_correct() {
    assert_eq!(tridiag_coo().extract_diagonal(), reals(&[4.0, 4.0, 4.0]));
}

#[test]
fn boundary_condition() {
    let mut m = tridiag_coo();
    m.zero_row_col(1).unwrap();
    assert_eq!(m.get(1, 1).unwrap(), r(1.0));
    assert_eq!(m.get(0, 1).unwrap(), r(0.0));
    assert_eq!(m.get(0, 0).unwrap(), r(4.0));
}

#[test]
fn lower_triangle_entry_error() {
    let mut m = tridiag_coo();
    assert!(matches!(
        m.add_value(2, 0, r(1.0)).unwrap_err(),
        SparseError::LowerTriangleEntry { .. }
    ));
}

#[test]
fn sym_integration_validate_passes() {
    tridiag_coo().validate().unwrap();
}

#[test]
fn coo_lower_triangle_mirrored() {
    let mut coo = CooBuilder::new(3, 3);
    coo.add(0, 0, r(4.0));
    coo.add(1, 0, r(-1.0));
    coo.add(1, 1, r(4.0));
    coo.add(2, 1, r(-1.0));
    coo.add(2, 2, r(4.0));
    let m = coo.build_sym().unwrap();
    m.validate().unwrap();
    assert_eq!(m.get(0, 1).unwrap(), r(-1.0));
    assert_eq!(m.get(1, 2).unwrap(), r(-1.0));
}

#[test]
fn build_sym_basic() {
    let sym = tridiag_coo();
    sym.validate().unwrap();
    assert_eq!(sym.get(0, 0).unwrap(), r(4.0));
    assert_eq!(sym.get(0, 1).unwrap(), r(-1.0));
    assert_eq!(sym.get(1, 0).unwrap(), r(-1.0));
}

#[test]
fn build_sym_mirrors_lower_triangle() {
    let mut coo = CooBuilder::new(2, 2);
    coo.add(0, 0, r(2.0));
    coo.add(1, 0, r(-1.0));
    coo.add(1, 1, r(2.0));
    let sym = coo.build_sym().unwrap();
    assert_eq!(sym.get(0, 1).unwrap(), r(-1.0));
    assert_eq!(sym.get(1, 0).unwrap(), r(-1.0));
}

#[test]
fn build_sym_err_not_square() {
    let mut coo = CooBuilder::new(2, 3);
    coo.add(0, 0, r(1.0));
    assert!(matches!(coo.build_sym().unwrap_err(), SparseError::NotSquare { .. }));
}

#[test]
fn build_sym_sums_duplicates_and_reports_range() {
    let mut coo = CooBuilder::with_capacity(2, 2, 4);
    coo.add(0, 1, r(1.0));
    coo.add(1, 0, r(2.5));
    let sym = coo.build_sym().unwrap();
    assert_eq!(sym.get(0, 1).unwrap(), r(3.5));
    assert_eq!(sym.get(1, 1).unwrap(), r(0.0));
    let mut bad = CooBuilder::new(2, 2);
    bad.add(0, 0, r(1.0));
    bad.add(0, 9, r(1.0));
    assert_eq!(bad.build_sym().unwrap_err(), SparseError::ColOutOfRange { col: 9, ncols: 2 });
}

#[test]
fn len_and_is_empty() {
    let mut coo = CooBuilder::new(2, 2);
    assert!(coo.is_empty());
    coo.add(0, 0, r(1.0));
    assert_eq!(coo.len(), 1);
}

#[test]
fn error_messages_name_the_fault() {
    assert_eq!(SparseError::NotSquare { nrows: 2, ncols: 3 }.message(), "non-square matrix");
    assert_eq!(SparseError::RowOutOfRange { row: 5, nrows: 3 }.message(), "row index out of range");
    assert_eq!(SparseError::IoError("bad header".to_string()).message(), "bad header");
}
