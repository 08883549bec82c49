//! Error types for sparse storage and for the direct solvers.
use vstd::prelude::*;

verus! {

/// All errors that can arise from sparse matrix storage and operations.
#[derive(Debug, Clone, PartialEq, Eq)]
#[non_exhaustive]
pub enum SparseError {
    /// A `(row, col)` coordinate is within the matrix bounds but is absent
    /// from the declared sparsity pattern.
    IndexOutOfBounds { row: usize, col: usize },
    /// A row index exceeds the allocated matrix dimension.
    RowOutOfRange { row: usize, nrows: usize },
    /// A column index exceeds the allocated matrix dimension.
    ColOutOfRange { col: usize, ncols: usize },
    /// A column index is below the row index in upper-triangle storage.
    LowerTriangleEntry { row: usize, col: usize },
    /// A vector or operand dimension is inconsistent with the operation.
    DimensionMismatch { expected: usize, got: usize },
    /// The number of row patterns does not match the declared row count.
    PatternLengthMismatch { pattern_len: usize, nrows: usize },
    /// An operation requiring a square matrix received a rectangular one.
    NotSquare { nrows: usize, ncols: usize },
    /// The flat element stiffness array has the wrong length for the DOF map.
    ScatterSizeMismatch { ke_len: usize, n: usize, expected: usize },
    /// Errors arising from Matrix Market parsing or file-system access.
    IoError(String),
}

/// Errors of the row-oriented storage helpers.
#[derive(Debug, Clone, Copy, PartialEq, Eq)]
pub enum CsrError {
    /// Index out of bounds.
    IndexOutOfBounds,
    /// Dimension mismatch.
    DimensionMismatch,
    /// Duplicate entry in input.
    DuplicateEntry,
}

/// Errors of the sparse direct-solve pipeline.
///
/// `T` is the scalar type of the factored matrix; the failing pivot is
/// reported in that type.
#[derive(Debug, Clone, PartialEq)]
#[non_exhaustive]
pub enum SolverError<T> {
    /// A pivot at the given (permuted) equation failed the pivot test of the
    /// scalar type: not positive for Cholesky, negligible for LDLᵀ.
    NotPositiveDefinite { index: usize, value: T },
    /// The sparse storage layer returned an error during matrix preparation.
    Sparse(SparseError),
    /// `factorize()` was called before `analyze()`.
    NotAnalyzed,
    /// `solve()` was called before `factorize()`.
    NotFactorized,
    /// The right-hand-side or solution vector has the wrong length.
    RhsSizeMismatch { expected: usize, got: usize },
}

impl SparseError {
    /// The one-line description of the error: a fixed text for each kind,
    /// the carried text for an I/O error.
    pub open spec fn message_text(&self) -> Seq<char> {
        match self {
            SparseError::IndexOutOfBounds { .. } => "sparsity pattern violation: entry is structurally absent"@,
            SparseError::RowOutOfRange { .. } => "row index out of range"@,
            SparseError::ColOutOfRange { .. } => "column index out of range"@,
            SparseError::LowerTriangleEntry { .. } => "lower-triangle entry rejected in symmetric upper-triangle storage"@,
            SparseError::DimensionMismatch { .. } => "dimension mismatch"@,
            SparseError::PatternLengthMismatch { .. } => "pattern length mismatch"@,
            SparseError::NotSquare { .. } => "non-square matrix"@,
            SparseError::ScatterSizeMismatch { .. } => "element stiffness size mismatch"@,
            SparseError::IoError(m) => m@,
        }
    }

    /// A one-line description of the error.
    pub fn message(&self) -> (s: String)
        ensures
            s@ == self.message_text(),
    {
        broadcast use vstd::string::group_string_axioms;
        match self {
            SparseError::IndexOutOfBounds { .. } => "sparsity pattern violation: entry is structurally absent".to_string(),
            SparseError::RowOutOfRange { .. } => "row index out of range".to_string(),
            SparseError::ColOutOfRange { .. } => "column index out of range".to_string(),
            SparseError::LowerTriangleEntry { .. } => "lower-triangle entry rejected in symmetric upper-triangle storage".to_string(),
            SparseError::DimensionMismatch { .. } => "dimension mismatch".to_string(),
            SparseError::PatternLengthMismatch { .. } => "pattern length mismatch".to_string(),
            SparseError::NotSquare { .. } => "non-square matrix".to_string(),
            SparseError::ScatterSizeMismatch { .. } => "element stiffness size mismatch".to_string(),
            SparseError::IoError(m) => m.clone(),
        }
    }
}

/// Wrap a storage error as a solver error.
pub fn sparse_to_solver<T>(e: SparseError) -> (r: SolverError<T>)
    ensures
        r == SolverError::<T>::Sparse(e),
{
    SolverError::Sparse(e)
}

} // verus!
