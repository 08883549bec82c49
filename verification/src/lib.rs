use vstd::prelude::*;

pub mod scalar;
pub mod rows;
pub mod error;
pub mod sym;
pub mod ordering;
pub mod compressed;
pub mod line_ops;
pub mod csr;
pub mod csc;
pub mod convert;
pub mod coo;
pub mod matvec;
pub mod text;
pub mod cholesky;
pub mod linear;

use crate::csc::CscMatrix;
use crate::csr::CsrMatrix;
use crate::error::SparseError;
use crate::scalar::SparseScalar;
use crate::sym::SymCsrMatrix;

verus! {

/// Common interface of the sparse matrix types.
pub trait SparseMatrix {
    /// Number of rows.
    spec fn row_count(&self) -> nat;

    /// Number of columns.
    spec fn col_count(&self) -> nat;

    /// Number of stored entries.
    spec fn stored_count(&self) -> nat;

    /// The storage can be checked: its pointers slice it.
    spec fn checkable(&self) -> bool;

    /// The storage passes every check of `validate`.
    spec fn storage_valid(&self) -> bool;

    /// Number of rows.
    fn nrows(&self) -> (r: usize)
        ensures
            r == self.row_count(),
    ;

    /// Number of columns.
    fn ncols(&self) -> (r: usize)
        ensures
            r == self.col_count(),
    ;

    /// Number of stored entries (stored zeros included).
    fn nnz(&self) -> (r: usize)
        ensures
            r == self.stored_count(),
    ;

    /// `true` if the matrix is square.
    fn is_square(&self) -> (r: bool)
        ensures
            r == (self.row_count() == self.col_count()),
    {
        self.nrows() == self.ncols()
    }

    /// Verify the storage invariants.
    fn validate(&self) -> (r: Result<(), SparseError>)
        requires
            self.checkable(),
        ensures
            r is Ok <==> self.storage_valid(),
    ;
}

impl<T: SparseScalar> SparseMatrix for CsrMatrix<T> {
    open spec fn row_count(&self) -> nat {
        self.nrows as nat
    }

    open spec fn col_count(&self) -> nat {
        self.ncols as nat
    }

    open spec fn stored_count(&self) -> nat {
        self.values@.len()
    }

    open spec fn checkable(&self) -> bool {
        self.nrows < usize::MAX && self.rows_sliceable()
    }

    open spec fn storage_valid(&self) -> bool {
        self.valid()
    }

    fn nrows(&self) -> (r: usize) {
        self.nrows
    }

    fn ncols(&self) -> (r: usize) {
        self.ncols
    }

    fn nnz(&self) -> (r: usize) {
        self.values.len()
    }

    fn validate(&self) -> (r: Result<(), SparseError>) {
        CsrMatrix::<T>::validate(self)
    }
}

impl<T: SparseScalar> SparseMatrix for CscMatrix<T> {
    open spec fn row_count(&self) -> nat {
        self.nrows as nat
    }

    open spec fn col_count(&self) -> nat {
        self.ncols as nat
    }

    open spec fn stored_count(&self) -> nat {
        self.values@.len()
    }

    open spec fn checkable(&self) -> bool {
        self.ncols < usize::MAX && self.cols_sliceable()
    }

    open spec fn storage_valid(&self) -> bool {
        self.valid()
    }

    fn nrows(&self) -> (r: usize) {
        self.nrows
    }

    fn ncols(&self) -> (r: usize) {
        self.ncols
    }

    fn nnz(&self) -> (r: usize) {
        self.values.len()
    }

    fn validate(&self) -> (r: Result<(), SparseError>) {
        CscMatrix::<T>::validate(self)
    }
}

impl<T: SparseScalar> SparseMatrix for SymCsrMatrix<T> {
    open spec fn row_count(&self) -> nat {
        self.n as nat
    }

    open spec fn col_count(&self) -> nat {
        self.n as nat
    }

    open spec fn stored_count(&self) -> nat {
        self.values@.len()
    }

    open spec fn checkable(&self) -> bool {
        self.n < usize::MAX && self.rows_sliceable()
    }

    open spec fn storage_valid(&self) -> bool {
        self.valid()
    }

    fn nrows(&self) -> (r: usize) {
        self.n
    }

    fn ncols(&self) -> (r: usize) {
        self.n
    }

    fn nnz(&self) -> (r: usize) {
        self.values.len()
    }

    fn validate(&self) -> (r: Result<(), SparseError>) {
        SymCsrMatrix::<T>::validate(self)
    }
}

} // verus!
