//! Arithmetic on CSC matrices: products with a vector, scaling and the
//! Frobenius norm.
use vstd::prelude::*;
use crate::csc::CscMatrix;
use crate::error::SparseError;
use crate::line_ops::{line_product, line_product_into, scale_values, frobenius_of, frobenius_values};
use crate::matvec::MatvecWorkspace;
use crate::scalar::SparseScalar;

verus! {

impl<T: SparseScalar> CscMatrix<T> {
    /// `y` is `A x`: column by column, each stored value times the entry of
    /// `x` of its column, added into the entry of `y` of its row, in storage
    /// order, to zeros.
    pub open spec fn product(&self, x: Seq<T>, y: Seq<T>) -> bool {
        line_product(self.col_ptr@, self.row_idx@, self.values@, self.ncols as int, x, y, true)
    }

    /// `y` is `Aᵀ x`: column by column, the stored values times the entries
    /// of `x` in their rows, added in storage order to zeros.
    pub open spec fn transpose_product(&self, x: Seq<T>, y: Seq<T>) -> bool {
        line_product(self.col_ptr@, self.row_idx@, self.values@, self.ncols as int, x, y, false)
    }

    /// Compute `y = A x` into the workspace, as a sum of scaled columns.
    ///
    /// Errors: `DimensionMismatch` if `x` (checked first) does not have
    /// `ncols` entries or the buffer does not have `nrows`; the buffer is
    /// then unchanged.
    pub fn matvec_into(&self, x: &[T], ws: &mut MatvecWorkspace<T>) -> (r: Result<(), SparseError>)
        requires
            self.wf(),
        ensures
            x@.len() != self.ncols ==> r == Err::<(), SparseError>(
                SparseError::DimensionMismatch { expected: self.ncols, got: x@.len() as usize },
            ) && final(ws).buffer@ == old(ws).buffer@,
            x@.len() == self.ncols && old(ws).buffer@.len() != self.nrows ==> r == Err::<(), SparseError>(
                SparseError::DimensionMismatch { expected: self.nrows, got: old(ws).buffer@.len() as usize },
            ) && final(ws).buffer@ == old(ws).buffer@,
            x@.len() == self.ncols && old(ws).buffer@.len() == self.nrows ==> r is Ok
                && final(ws).buffer@.len() == self.nrows && self.product(x@, final(ws).buffer@),
    {
        if x.len() != self.ncols {
            return Err(SparseError::DimensionMismatch { expected: self.ncols, got: x.len() });
        }
        if ws.buffer.len() != self.nrows {
            return Err(SparseError::DimensionMismatch { expected: self.nrows, got: ws.buffer.len() });
        }
        proof {
            self.lemma_lines();
        }
        line_product_into(&self.col_ptr, &self.row_idx, &self.values, self.ncols, self.nrows, x, true, &mut ws.buffer);
        Ok(())
    }

    /// Compute `y = A x` into a new vector.
    ///
    /// Error: `DimensionMismatch` if `x` does not have `ncols` entries.
    pub fn matvec(&self, x: &[T]) -> (r: Result<Vec<T>, SparseError>)
        requires
            self.wf(),
        ensures
            x@.len() != self.ncols ==> r == Err::<Vec<T>, SparseError>(
                SparseError::DimensionMismatch { expected: self.ncols, got: x@.len() as usize },
            ),
            x@.len() == self.ncols ==> (r matches Ok(y) && y@.len() == self.nrows && self.product(x@, y@)),
    {
        let mut ws = MatvecWorkspace::new(self.nrows);
        match self.matvec_into(x, &mut ws) {
            Ok(()) => Ok(ws.buffer),
            Err(e) => Err(e),
        }
    }

    /// Compute `y = Aᵀ x` into the workspace: one dot product per column.
    ///
    /// Errors: `DimensionMismatch` if `x` (checked first) does not have
    /// `nrows` entries or the buffer does not have `ncols`; the buffer is
    /// then unchanged.
    pub fn matvec_transpose_into(&self, x: &[T], ws: &mut MatvecWorkspace<T>) -> (r: Result<(), SparseError>)
        requires
            self.wf(),
        ensures
            x@.len() != self.nrows ==> r == Err::<(), SparseError>(
                SparseError::DimensionMismatch { expected: self.nrows, got: x@.len() as usize },
            ) && final(ws).buffer@ == old(ws).buffer@,
            x@.len() == self.nrows && old(ws).buffer@.len() != self.ncols ==> r == Err::<(), SparseError>(
                SparseError::DimensionMismatch { expected: self.ncols, got: old(ws).buffer@.len() as usize },
            ) && final(ws).buffer@ == old(ws).buffer@,
            x@.len() == self.nrows && old(ws).buffer@.len() == self.ncols ==> r is Ok
                && final(ws).buffer@.len() == self.ncols && self.transpose_product(x@, final(ws).buffer@),
    {
        if x.len() != self.nrows {
            return Err(SparseError::DimensionMismatch { expected: self.nrows, got: x.len() });
        }
        if ws.buffer.len() != self.ncols {
            return Err(SparseError::DimensionMismatch { expected: self.ncols, got: ws.buffer.len() });
        }
        proof {
            self.lemma_lines();
        }
        line_product_into(&self.col_ptr, &self.row_idx, &self.values, self.ncols, self.nrows, x, false, &mut ws.buffer);
        Ok(())
    }

    /// Compute `y = Aᵀ x` into a new vector.
    ///
    /// Error: `DimensionMismatch` if `x` does not have `nrows` entries.
    pub fn matvec_transpose(&self, x: &[T]) -> (r: Result<Vec<T>, SparseError>)
        requires
            self.wf(),
        ensures
            x@.len() != self.nrows ==> r == Err::<Vec<T>, SparseError>(
                SparseError::DimensionMismatch { expected: self.nrows, got: x@.len() as usize },
            ),
            x@.len() == self.nrows ==> (r matches Ok(y) && y@.len() == self.ncols && self.transpose_product(x@, y@)),
    {
        let mut ws = MatvecWorkspace::new(self.ncols);
        match self.matvec_transpose_into(x, &mut ws) {
            Ok(()) => Ok(ws.buffer),
            Err(e) => Err(e),
        }
    }

    /// Multiply every stored value by `alpha`.
    pub fn scale(&mut self, alpha: T)
        requires
            old(self).wf(),
        ensures
            final(self).wf(),
            final(self).same_pattern(old(self)),
            forall|t: int| 0 <= t < old(self).values@.len() ==>
                #[trigger] call_ensures(T::times, (old(self).values@[t], alpha), final(self).values@[t]),
    {
        scale_values(&mut self.values, alpha);
        proof {
            old(self).lemma_same_pattern_wf(self);
        }
    }

    /// Frobenius norm: the square root of the sum of the squares of the
    /// stored values, added in storage order.
    pub fn frobenius_norm(&self) -> (r: T)
        ensures
            frobenius_of(self.values@, r),
    {
        frobenius_values(&self.values)
    }
}

} // verus!
