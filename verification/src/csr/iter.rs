//! Traversal of the stored entries of a CSR matrix.
use vstd::prelude::*;
use crate::compressed::{lemma_line_bounds, lemma_line_of_is};
use crate::csr::CsrMatrix;
use crate::error::SparseError;

verus! {

/// Iterator over the stored entries of one row of a CSR matrix.
pub type RowIter<'a, T> = LineIter<'a, T>;

/// The stored `(index, value)` pairs of one line of a compressed matrix,
/// in ascending index order: the columns of a CSR row, or the rows of a
/// CSC column.
pub struct LineIter<'a, T> {
    idx: &'a [usize],
    vals: &'a [T],
    pos: usize,
    end: usize,
}

impl<'a, T> LineIter<'a, T> {
    #[verifier::type_invariant]
    spec fn inv(&self) -> bool {
        &&& self.pos <= self.end
        &&& self.end <= self.idx@.len()
        &&& self.end <= self.vals@.len()
    }
}

impl<'a, T: Copy> LineIter<'a, T> {
    /// The pairs not yet returned.
    pub closed spec fn remaining(&self) -> Seq<(usize, T)> {
        Seq::new((self.end - self.pos) as nat, |k: int| (self.idx@[self.pos + k], self.vals@[self.pos + k]))
    }

    /// Iterate over positions `start..end` of the parallel arrays.
    pub(crate) fn over(idx: &'a [usize], vals: &'a [T], start: usize, end: usize) -> (r: Self)
        requires
            start <= end <= idx@.len(),
            end <= vals@.len(),
        ensures
            r.remaining() == Seq::new((end - start) as nat, |k: int| (idx@[start + k], vals@[start + k])),
    {
        LineIter { idx, vals, pos: start, end }
    }

    /// The next pair, or `None` once all have been returned.
    pub fn next(&mut self) -> (r: Option<(usize, T)>)
        ensures
            old(self).remaining().len() == 0 ==> r is None && final(self).remaining() == old(self).remaining(),
            old(self).remaining().len() > 0 ==> r == Some(old(self).remaining()[0])
                && final(self).remaining() == old(self).remaining().drop_first(),
    {
        proof {
            use_type_invariant(&*self);
        }
        if self.pos < self.end {
            let item = (self.idx[self.pos], self.vals[self.pos]);
            let ghost before = self.remaining();
            self.pos = self.pos + 1;
            proof {
                assert(self.remaining() =~= before.drop_first());
            }
            Some(item)
        } else {
            None
        }
    }

    /// Number of pairs not yet returned.
    pub fn len(&self) -> (r: usize)
        ensures
            r == self.remaining().len(),
    {
        proof {
            use_type_invariant(self);
        }
        self.end - self.pos
    }
}

impl<T: Copy> CsrMatrix<T> {
    /// The stored `(column, value)` pairs of row `r`, in column order.
    pub open spec fn row_entries(&self, r: int) -> Seq<(usize, T)> {
        let start = self.row_ptr@[r] as int;
        Seq::new((self.row_ptr@[r + 1] - start) as nat, |k: int| (self.col_idx@[start + k], self.values@[start + k]))
    }

    /// Iterate over the `(column, value)` pairs of `row`, in column order.
    ///
    /// Error: `RowOutOfRange` if `row >= nrows`.
    pub fn row_iter(&self, row: usize) -> (r: Result<RowIter<'_, T>, SparseError>)
        requires
            self.wf(),
        ensures
            row >= self.nrows ==> (r matches Err(e) && e == (SparseError::RowOutOfRange { row, nrows: self.nrows })),
            row < self.nrows ==> (r matches Ok(it) && it.remaining() == self.row_entries(row as int)),
    {
        if row >= self.nrows {
            return Err(SparseError::RowOutOfRange { row, nrows: self.nrows });
        }
        proof {
            lemma_line_bounds(self.row_ptr@, self.col_idx@, self.nrows as int, self.ncols as int, row as int);
        }
        let start = self.row_ptr[row];
        let end = self.row_ptr[row + 1];
        let it = LineIter::over(self.col_idx.as_slice(), self.values.as_slice(), start, end);
        proof {
            assert(it.remaining() =~= self.row_entries(row as int));
        }
        Ok(it)
    }

    /// Every stored entry as `(row, column, value)`, in row-major order.
    pub fn iter_nonzeros(&self) -> (r: Vec<(usize, usize, T)>)
        requires
            self.wf(),
        ensures
            r@.len() == self.values@.len(),
            forall|t: int| 0 <= t < r@.len() ==> #[trigger] r@[t] == (self.row_of(t) as usize, self.col_idx@[t], self.values@[t]),
    {
        let mut out: Vec<(usize, usize, T)> = Vec::new();
        let mut row: usize = 0;
        while row < self.nrows
            invariant
                self.wf(),
                0 <= row <= self.nrows,
                out@.len() == self.row_ptr@[row as int],
                forall|t: int| 0 <= t < out@.len() ==> #[trigger] out@[t] == (self.row_of(t) as usize, self.col_idx@[t], self.values@[t]),
            decreases self.nrows - row,
        {
            proof {
                lemma_line_bounds(self.row_ptr@, self.col_idx@, self.nrows as int, self.ncols as int, row as int);
            }
            let start = self.row_ptr[row];
            let end = self.row_ptr[row + 1];
            let mut t = start;
            while t < end
                invariant
                    self.wf(),
                    0 <= row < self.nrows,
                    start == self.row_ptr@[row as int],
                    end == self.row_ptr@[row + 1],
                    end <= self.values@.len(),
                    start <= t <= end,
                    out@.len() == t,
                    forall|q: int| 0 <= q < out@.len() ==> #[trigger] out@[q] == (self.row_of(q) as usize, self.col_idx@[q], self.values@[q]),
                decreases end - t,
            {
                proof {
                    lemma_line_of_is(self.row_ptr@, self.col_idx@, self.nrows as int, self.ncols as int, t as int, row as int);
                }
                out.push((row, self.col_idx[t], self.values[t]));
                t = t + 1;
            }
            row = row + 1;
        }
        proof {
            assert(self.row_ptr@[self.nrows as int] == self.values@.len());
        }
        out
    }
}

} // verus!
