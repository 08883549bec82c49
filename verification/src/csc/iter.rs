//! Traversal of the stored entries of a CSC matrix.
use vstd::prelude::*;
use crate::compressed::{lemma_line_bounds, lemma_line_of_is};
use crate::csc::CscMatrix;
use crate::csr::iter::LineIter;
use crate::error::SparseError;

verus! {

/// Iterator over the stored entries of one column of a CSC matrix.
pub type ColIter<'a, T> = LineIter<'a, T>;

impl<T: Copy> CscMatrix<T> {
    /// The stored `(row, value)` pairs of column `c`, in row order.
    pub open spec fn col_entries(&self, c: int) -> Seq<(usize, T)> {
        let start = self.col_ptr@[c] as int;
        Seq::new((self.col_ptr@[c + 1] - start) as nat, |k: int| (self.row_idx@[start + k], self.values@[start + k]))
    }

    /// Iterate over the `(row, value)` pairs of `col`, in row order.
    ///
    /// Error: `ColOutOfRange` if `col >= ncols`.
    pub fn col_iter(&self, col: usize) -> (r: Result<ColIter<'_, T>, SparseError>)
        requires
            self.wf(),
        ensures
            col >= self.ncols ==> (r matches Err(e) && e == (SparseError::ColOutOfRange { col, ncols: self.ncols })),
            col < self.ncols ==> (r matches Ok(it) && it.remaining() == self.col_entries(col as int)),
    {
        if col >= self.ncols {
            return Err(SparseError::ColOutOfRange { col, ncols: self.ncols });
        }
        proof {
            self.lemma_lines();
            lemma_line_bounds(self.col_ptr@, self.row_idx@, self.ncols as int, self.nrows as int, col as int);
        }
        let start = self.col_ptr[col];
        let end = self.col_ptr[col + 1];
        let it = LineIter::over(self.row_idx.as_slice(), self.values.as_slice(), start, end);
        proof {
            assert(it.remaining() =~= self.col_entries(col as int));
        }
        Ok(it)
    }

    /// Every stored entry as `(row, column, value)`, in column-major order.
    pub fn iter_nonzeros(&self) -> (r: Vec<(usize, usize, T)>)
        requires
            self.wf(),
        ensures
            r@.len() == self.values@.len(),
            forall|t: int| 0 <= t < r@.len() ==> #[trigger] r@[t] == (self.row_idx@[t], self.col_of(t) as usize, self.values@[t]),
    {
        proof {
            self.lemma_lines();
        }
        let mut out: Vec<(usize, usize, T)> = Vec::new();
        let mut col: usize = 0;
        while col < self.ncols
            invariant
                self.wf(),
                crate::compressed::lines_ok(self.col_ptr@, self.row_idx@, self.ncols as int, self.nrows as int),
                0 <= col <= self.ncols,
                out@.len() == self.col_ptr@[col as int],
                forall|t: int| 0 <= t < out@.len() ==> #[trigger] out@[t] == (self.row_idx@[t], self.col_of(t) as usize, self.values@[t]),
            decreases self.ncols - col,
        {
            proof {
                lemma_line_bounds(self.col_ptr@, self.row_idx@, self.ncols as int, self.nrows as int, col as int);
            }
            let start = self.col_ptr[col];
            let end = self.col_ptr[col + 1];
            let mut t = start;
            while t < end
                invariant
                    self.wf(),
                    crate::compressed::lines_ok(self.col_ptr@, self.row_idx@, self.ncols as int, self.nrows as int),
                    0 <= col < self.ncols,
                    start == self.col_ptr@[col as int],
                    end == self.col_ptr@[col + 1],
                    end <= self.values@.len(),
                    start <= t <= end,
                    out@.len() == t,
                    forall|q: int| 0 <= q < out@.len() ==> #[trigger] out@[q] == (self.row_idx@[q], self.col_of(q) as usize, self.values@[q]),
                decreases end - t,
            {
                proof {
                    lemma_line_of_is(self.col_ptr@, self.row_idx@, self.ncols as int, self.nrows as int, t as int, col as int);
                }
                out.push((self.row_idx[t], col, self.values[t]));
                t = t + 1;
            }
            col = col + 1;
        }
        out
    }
}

} // verus!
