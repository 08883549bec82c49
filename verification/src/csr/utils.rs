//! Dense views and summary counts of a CSR matrix.
use vstd::prelude::*;
use crate::compressed::{lemma_line_bounds, lemma_line_slot_is};
use crate::csr::CsrMatrix;
use crate::scalar::{SparseScalar, is_zero_value};
use crate::text::{printout, render_rows};

verus! {

impl<T: SparseScalar> CsrMatrix<T> {
    /// Number of stored entries of row `r`.
    pub open spec fn row_len(&self, r: int) -> int {
        self.row_ptr@[r + 1] - self.row_ptr@[r]
    }

    /// The largest number of stored entries in a row (zero for a matrix
    /// without rows).
    pub fn max_row_nnz(&self) -> (m: usize)
        requires
            self.wf(),
        ensures
            forall|r: int| 0 <= r < self.nrows ==> #[trigger] self.row_len(r) <= m,
            self.nrows > 0 ==> exists|r: int| 0 <= r < self.nrows && #[trigger] self.row_len(r) == m,
            self.nrows == 0 ==> m == 0,
    {
        let mut m: usize = 0;
        let mut row: usize = 0;
        while row < self.nrows
            invariant
                self.wf(),
                0 <= row <= self.nrows,
                forall|r: int| 0 <= r < row ==> #[trigger] self.row_len(r) <= m,
                row > 0 ==> exists|r: int| 0 <= r < row && #[trigger] self.row_len(r) == m,
                row == 0 ==> m == 0,
            decreases self.nrows - row,
        {
            proof {
                lemma_line_bounds(self.row_ptr@, self.col_idx@, self.nrows as int, self.ncols as int, row as int);
            }
            let len = self.row_ptr[row + 1] - self.row_ptr[row];
            proof {
                assert(self.row_len(row as int) == len);
            }
            if row == 0 || len > m {
                m = len;
            }
            row = row + 1;
        }
        m
    }

    /// `d` is the dense matrix: `d[r][c]` is the stored value of `(r, c)`,
    /// or a zero for an entry absent from the pattern.
    pub open spec fn dense_view(&self, d: Seq<Vec<T>>) -> bool {
        &&& d.len() == self.nrows
        &&& forall|r: int| 0 <= r < self.nrows ==> #[trigger] d[r]@.len() == self.ncols
        &&& forall|r: int, c: int| 0 <= r < self.nrows && 0 <= c < self.ncols ==> if self.stored(r, c) {
            #[trigger] d[r]@[c] == self.value_at(r, c)
        } else {
            is_zero_value(d[r]@[c])
        }
    }

    /// The dense matrix (see `dense_view`).
    pub fn to_dense(&self) -> (d: Vec<Vec<T>>)
        requires
            self.wf(),
        ensures
            self.dense_view(d@),
    {
        let mut dense: Vec<Vec<T>> = Vec::new();
        let mut row: usize = 0;
        while row < self.nrows
            invariant
                self.wf(),
                0 <= row <= self.nrows,
                dense@.len() == row,
                forall|r: int| 0 <= r < row ==> #[trigger] dense@[r]@.len() == self.ncols,
                forall|r: int, c: int| 0 <= r < row && 0 <= c < self.ncols ==> if self.stored(r, c) {
                    #[trigger] dense@[r]@[c] == self.value_at(r, c)
                } else {
                    is_zero_value(dense@[r]@[c])
                },
            decreases self.nrows - row,
        {
            let mut line: Vec<T> = Vec::new();
            let mut c: usize = 0;
            while c < self.ncols
                invariant
                    0 <= c <= self.ncols,
                    line@.len() == c,
                    forall|q: int| 0 <= q < c ==> is_zero_value(#[trigger] line@[q]),
                decreases self.ncols - c,
            {
                line.push(T::zero());
                c = c + 1;
            }
            proof {
                lemma_line_bounds(self.row_ptr@, self.col_idx@, self.nrows as int, self.ncols as int, row as int);
            }
            let start = self.row_ptr[row];
            let end = self.row_ptr[row + 1];
            let mut t = start;
            while t < end
                invariant
                    self.wf(),
                    0 <= row < self.nrows,
                    start == self.row_ptr@[row as int],
                    end == self.row_ptr@[row + 1],
                    end <= self.values@.len(),
                    start <= t <= end,
                    line@.len() == self.ncols,
                    forall|c: int| 0 <= c < self.ncols ==> if self.stored(row as int, c) && self.slot(row as int, c) < t {
                        #[trigger] line@[c] == self.value_at(row as int, c)
                    } else {
                        is_zero_value(line@[c])
                    },
                decreases end - t,
            {
                let col = self.col_idx[t];
                proof {
                    assert(crate::compressed::is_line_slot(self.row_ptr@, self.col_idx@, row as int, col as int, t as int));
                    lemma_line_slot_is(self.row_ptr@, self.col_idx@, self.nrows as int, self.ncols as int, row as int, col as int, t as int);
                }
                let ghost before = line@;
                line.set(col, self.values[t]);
                proof {
                    assert forall|c: int| 0 <= c < self.ncols implies if self.stored(row as int, c) && self.slot(row as int, c) < t + 1 {
                        #[trigger] line@[c] == self.value_at(row as int, c)
                    } else {
                        is_zero_value(line@[c])
                    } by {
                        if c != col {
                            assert(line@[c] == before[c]);
                            if self.stored(row as int, c) && self.slot(row as int, c) == t {
                                let k = self.slot(row as int, c);
                                assert(crate::compressed::is_line_slot(self.row_ptr@, self.col_idx@, row as int, c, k));
                            }
                        }
                    }
                }
                t = t + 1;
            }
            proof {
                assert forall|c: int| 0 <= c < self.ncols && self.stored(row as int, c) implies self.slot(row as int, c) < end by {
                    let k = self.slot(row as int, c);
                    assert(crate::compressed::is_line_slot(self.row_ptr@, self.col_idx@, row as int, c, k));
                }
            }
            dense.push(line);
            row = row + 1;
        }
        dense
    }

    /// The matrix as text: one line per row, every entry (zeros included)
    /// rendered by the scalar type, between brackets and separated by
    /// `", "`.
    pub fn display_text(&self) -> (s: String)
        requires
            self.wf(),
        ensures
            exists|d: Seq<Vec<T>>| self.dense_view(d) && #[trigger] printout(d, s@),
    {
        let d = self.to_dense();
        render_rows(&d)
    }
}

} // verus!
