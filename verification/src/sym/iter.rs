//! Traversal of the entries of a symmetric upper-triangle matrix.
use vstd::prelude::*;
use crate::csr::iter::LineIter;
use crate::error::SparseError;
use crate::scalar::SparseScalar;
use crate::sym::SymCsrMatrix;

verus! {

/// Iterator over the stored (upper-triangle) entries of one row of a
/// symmetric matrix.
pub type UpperRowIter<'a, T> = LineIter<'a, T>;

impl<T: SparseScalar> SymCsrMatrix<T> {
    /// The stored `(column, value)` pairs of row `r`, in column order.
    pub open spec fn upper_entries(&self, r: int) -> Seq<(usize, T)> {
        let start = self.row_ptr@[r] as int;
        Seq::new((self.row_ptr@[r + 1] - start) as nat, |k: int| (self.col_idx@[start + k], self.values@[start + k]))
    }

    /// The mirrored entries `(c, A[c, r])` of row `r` for the columns
    /// `c < upto` whose entry `(c, r)` is stored, in column order.
    pub open spec fn lower_entries(&self, r: int, upto: int) -> Seq<(usize, T)>
        decreases upto,
    {
        if upto <= 0 {
            Seq::empty()
        } else {
            let prev = self.lower_entries(r, upto - 1);
            let c = upto - 1;
            if self.stored(c, r) {
                prev.push((c as usize, self.value_at(c, r)))
            } else {
                prev
            }
        }
    }

    /// Iterate over the stored `(column, value)` pairs of `row`, in column
    /// order (diagonal first).
    ///
    /// Error: `RowOutOfRange` if `row >= n`.
    pub fn upper_row_iter(&self, row: usize) -> (r: Result<UpperRowIter<'_, T>, SparseError>)
        requires
            self.wf(),
        ensures
            row >= self.n ==> (r matches Err(e) && e == (SparseError::RowOutOfRange { row, nrows: self.n })),
            row < self.n ==> (r matches Ok(it) && it.remaining() == self.upper_entries(row as int)),
    {
        if row >= self.n {
            return Err(SparseError::RowOutOfRange { row, nrows: self.n });
        }
        proof {
            self.lemma_row_bounds(row as int);
        }
        let start = self.row_ptr[row];
        let end = self.row_ptr[row + 1];
        let it = LineIter::over(self.col_idx.as_slice(), self.values.as_slice(), start, end);
        proof {
            assert(it.remaining() =~= self.upper_entries(row as int));
        }
        Ok(it)
    }

    /// All `(column, value)` pairs of `row` of the full matrix: first the
    /// stored ones (columns `>= row`, ascending), then the mirrored ones
    /// (columns `< row`, ascending).
    ///
    /// Error: `RowOutOfRange` if `row >= n`.
    pub fn row_iter(&self, row: usize) -> (r: Result<Vec<(usize, T)>, SparseError>)
        requires
            self.wf(),
        ensures
            row >= self.n ==> r == Err::<Vec<(usize, T)>, SparseError>(SparseError::RowOutOfRange { row, nrows: self.n }),
            row < self.n ==> (r matches Ok(v) && v@ == self.upper_entries(row as int) + self.lower_entries(row as int, row as int)),
    {
        if row >= self.n {
            return Err(SparseError::RowOutOfRange { row, nrows: self.n });
        }
        proof {
            self.lemma_row_bounds(row as int);
        }
        let start = self.row_ptr[row];
        let end = self.row_ptr[row + 1];
        let mut out: Vec<(usize, T)> = Vec::new();
        let mut t = start;
        while t < end
            invariant
                self.wf(),
                row < self.n,
                start == self.row_ptr@[row as int],
                end == self.row_ptr@[row + 1],
                end <= self.values@.len(),
                start <= t <= end,
                out@ == self.upper_entries(row as int).take(t - start),
            decreases end - t,
        {
            out.push((self.col_idx[t], self.values[t]));
            proof {
                assert(out@ =~= self.upper_entries(row as int).take(t + 1 - start));
            }
            t = t + 1;
        }
        proof {
            assert(self.upper_entries(row as int).take(end - start) =~= self.upper_entries(row as int));
        }
        let mut c: usize = 0;
        while c < row
            invariant
                self.wf(),
                row < self.n,
                0 <= c <= row,
                out@ == self.upper_entries(row as int) + self.lower_entries(row as int, c as int),
            decreases row - c,
        {
            match self.find_idx(c, row) {
                Some(k) => {
                    proof {
                        self.lemma_slot_is(c as int, row as int, k as int);
                        self.lemma_row_bounds(c as int);
                    }
                    out.push((c, self.values[k]));
                    proof {
                        assert(out@ =~= self.upper_entries(row as int) + self.lower_entries(row as int, c + 1));
                    }
                },
                None => {
                    proof {
                        assert(self.lower_entries(row as int, c + 1) == self.lower_entries(row as int, c as int));
                    }
                },
            }
            c = c + 1;
        }
        Ok(out)
    }

    /// Every stored entry as `(row, column, value)`, in row-major order.
    pub fn iter_upper(&self) -> (r: Vec<(usize, usize, T)>)
        requires
            self.wf(),
        ensures
            r@.len() == self.values@.len(),
            forall|t: int| 0 <= t < r@.len() ==> #[trigger] r@[t] == (self.row_of(t) as usize, self.col_idx@[t], self.values@[t]),
    {
        let mut out: Vec<(usize, usize, T)> = Vec::new();
        let mut row: usize = 0;
        while row < self.n
            invariant
                self.wf(),
                0 <= row <= self.n,
                out@.len() == self.row_ptr@[row as int],
                forall|t: int| 0 <= t < out@.len() ==> #[trigger] out@[t] == (self.row_of(t) as usize, self.col_idx@[t], self.values@[t]),
            decreases self.n - row,
        {
            proof {
                self.lemma_row_bounds(row as int);
            }
            let start = self.row_ptr[row];
            let end = self.row_ptr[row + 1];
            let mut t = start;
            while t < end
                invariant
                    self.wf(),
                    0 <= row < self.n,
                    start == self.row_ptr@[row as int],
                    end == self.row_ptr@[row + 1],
                    end <= self.values@.len(),
                    start <= t <= end,
                    out@.len() == t,
                    forall|q: int| 0 <= q < out@.len() ==> #[trigger] out@[q] == (self.row_of(q) as usize, self.col_idx@[q], self.values@[q]),
                decreases end - t,
            {
                proof {
                    self.lemma_row_of_is(t as int, row as int);
                }
                out.push((row, self.col_idx[t], self.values[t]));
                t = t + 1;
            }
            row = row + 1;
        }
        out
    }
}

} // verus!
