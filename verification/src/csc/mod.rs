//! Compressed sparse column storage of a general matrix, the format the
//! Cholesky factorization reads column by column.
pub mod ops;
pub mod iter;

use vstd::prelude::*;
use crate::rows::strictly_sorted;
use crate::compressed::{
    lines_ok, line_has, line_slot, line_sorted, is_line_slot, line_of, find_in_line, compress_lines, pattern_entry_bad,
    first_pattern_bad, lemma_line_bounds, lemma_line_slot_is,
};
use crate::csr::bounds_error;
use crate::error::SparseError;
use crate::line_ops::{LineFault, check_lines, line_valid, line_fault, lines_sliceable, lemma_lines_valid};
use crate::scalar::{SparseScalar, is_zero_value};
use crate::text::{printout, render_rows};

verus! {

/// Compressed Sparse Column matrix.
///
/// `col_ptr[j]..col_ptr[j + 1]` is the storage range of column `j`; within
/// it the row indices are strictly increasing and below `nrows`.
#[derive(Debug, Clone)]
pub struct CscMatrix<T> {
    pub values: Vec<T>,
    pub row_idx: Vec<usize>,
    pub col_ptr: Vec<usize>,
    pub nrows: usize,
    pub ncols: usize,
}

impl<T> CscMatrix<T> {
    /// Well-formedness: the invariants listed on the type.
    pub open spec fn wf(&self) -> bool {
        &&& self.col_ptr@.len() == self.ncols + 1
        &&& self.col_ptr@[0] == 0
        &&& self.col_ptr@[self.ncols as int] == self.row_idx@.len()
        &&& self.values@.len() == self.row_idx@.len()
        &&& forall|a: int, b: int| 0 <= a <= b <= self.ncols ==> #[trigger] self.col_ptr@[a] <= #[trigger] self.col_ptr@[b]
        &&& forall|j: int| 0 <= j < self.ncols ==> strictly_sorted(#[trigger] self.col_rows(j))
        &&& forall|j: int, k: int| 0 <= j < self.ncols && 0 <= k < self.col_rows(j).len() ==> #[trigger] self.col_rows(j)[k] < self.nrows
    }

    /// The stored pattern is symmetric: row `r` is stored in column `c`
    /// exactly when row `c` is stored in column `r`.
    pub open spec fn symmetric_pattern(&self) -> bool {
        forall|r: int, c: int| 0 <= r < self.ncols && 0 <= c < self.ncols ==>
            (#[trigger] self.col_rows(c).contains(r as usize) <==> #[trigger] self.col_rows(r).contains(c as usize))
    }

    /// Row indices of column `j`.
    pub open spec fn col_rows(&self, j: int) -> Seq<usize> {
        self.row_idx@.subrange(self.col_ptr@[j] as int, self.col_ptr@[j + 1] as int)
    }

    /// Values of column `j`.
    pub open spec fn col_vals(&self, j: int) -> Seq<T> {
        self.values@.subrange(self.col_ptr@[j] as int, self.col_ptr@[j + 1] as int)
    }

    /// Entry `(r, c)` is stored.
    pub open spec fn stored(&self, r: int, c: int) -> bool {
        &&& 0 <= c < self.ncols
        &&& line_has(self.col_ptr@, self.row_idx@, c, r)
    }

    /// Stored value of entry `(r, c)`.
    pub open spec fn value_at(&self, r: int, c: int) -> T {
        self.values@[line_slot(self.col_ptr@, self.row_idx@, c, r)]
    }

    /// Storage index of a stored entry.
    pub open spec fn slot(&self, r: int, c: int) -> int {
        line_slot(self.col_ptr@, self.row_idx@, c, r)
    }

    /// Same shape and pattern as `other`.
    pub open spec fn same_pattern(&self, other: &Self) -> bool {
        &&& self.nrows == other.nrows
        &&& self.ncols == other.ncols
        &&& self.col_ptr@ == other.col_ptr@
        &&& self.row_idx@ == other.row_idx@
        &&& self.values@.len() == other.values@.len()
    }

    /// The column of storage index `t`.
    pub open spec fn col_of(&self, t: int) -> int {
        line_of(self.col_ptr@, self.ncols as int, t)
    }

    /// Every stored value is the same zero.
    pub open spec fn all_zero(&self) -> bool
        where T: SparseScalar
    {
        &&& forall|k: int| 0 <= k < self.values@.len() ==> is_zero_value(#[trigger] self.values@[k])
        &&& forall|a: int, b: int|
            0 <= a < self.values@.len() && 0 <= b < self.values@.len() ==> #[trigger] self.values@[a]
                == #[trigger] self.values@[b]
    }

    /// Well-formed column lines with parallel values make a well-formed
    /// matrix.
    pub proof fn lemma_from_lines(&self)
        requires
            lines_ok(self.col_ptr@, self.row_idx@, self.ncols as int, self.nrows as int),
            self.values@.len() == self.row_idx@.len(),
        ensures
            self.wf(),
    {
        let cp = self.col_ptr@;
        let ri = self.row_idx@;
        assert forall|j: int| 0 <= j < self.ncols implies strictly_sorted(#[trigger] self.col_rows(j)) by {
            lemma_line_bounds(cp, ri, self.ncols as int, self.nrows as int, j);
            assert(line_sorted(cp, ri, j));
            let c = self.col_rows(j);
            assert forall|a: int, b: int| 0 <= a < b < c.len() implies c[a] < c[b] by {
                assert(c[a] == ri[cp[j] + a]);
                assert(c[b] == ri[cp[j] + b]);
            }
        }
        assert forall|j: int, k: int| 0 <= j < self.ncols && 0 <= k < self.col_rows(j).len() implies #[trigger] self.col_rows(j)[k] < self.nrows by {
            lemma_line_bounds(cp, ri, self.ncols as int, self.nrows as int, j);
            assert(self.col_rows(j)[k] == ri[cp[j] + k]);
        }
    }

    /// Well-formedness depends on the pattern only.
    pub proof fn lemma_same_pattern_wf(&self, other: &Self)
        requires
            self.wf(),
            other.same_pattern(self),
        ensures
            other.wf(),
    {
        assert forall|j: int| 0 <= j < self.ncols implies #[trigger] other.col_rows(j) == self.col_rows(j) by {}
    }

    /// A stored entry's slot is in the storage range of its column.
    pub proof fn lemma_slot(&self, r: int, c: int)
        requires
            self.wf(),
            self.stored(r, c),
        ensures
            is_line_slot(self.col_ptr@, self.row_idx@, c, r, self.slot(r, c)),
            0 <= self.slot(r, c) < self.values@.len(),
            0 <= r < self.nrows,
    {
        self.lemma_lines();
        let k = self.slot(r, c);
        assert(is_line_slot(self.col_ptr@, self.row_idx@, c, r, k));
        lemma_line_bounds(self.col_ptr@, self.row_idx@, self.ncols as int, self.nrows as int, c);
    }

    /// Well-formed storage is a well-formed set of column lines.
    pub proof fn lemma_lines(&self)
        requires
            self.wf(),
        ensures
            lines_ok(self.col_ptr@, self.row_idx@, self.ncols as int, self.nrows as int),
    {
        let cp = self.col_ptr@;
        let ri = self.row_idx@;
        assert forall|j: int| 0 <= j < self.ncols implies #[trigger] line_sorted(cp, ri, j) by {
            assert(strictly_sorted(self.col_rows(j)));
            assert(cp[0] <= cp[j] && cp[j] <= cp[j + 1] && cp[j + 1] <= cp[self.ncols as int]);
            assert forall|a: int, b: int| cp[j] <= a < b < cp[j + 1] implies #[trigger] ri[a] < #[trigger] ri[b] by {
                assert(self.col_rows(j)[a - cp[j]] < self.col_rows(j)[b - cp[j]]);
            }
        }
        assert forall|k: int| 0 <= k < ri.len() implies #[trigger] ri[k] < self.nrows by {
            crate::compressed::lemma_line_search_pub(cp, ri, self.ncols as int, k);
            let j = choose|j: int| 0 <= j < self.ncols && #[trigger] cp[j] <= k < cp[j + 1];
            assert(self.col_rows(j)[k - cp[j]] == ri[k]);
        }
    }

    /// Number of stored entries.
    pub fn nnz(&self) -> (r: usize)
        ensures
            r == self.values@.len(),
    {
        self.values.len()
    }

    /// Raw column pointer array.
    pub fn col_ptr(&self) -> (r: &[usize])
        ensures
            r@ == self.col_ptr@,
    {
        self.col_ptr.as_slice()
    }

    /// Raw row index array.
    pub fn row_idx(&self) -> (r: &[usize])
        ensures
            r@ == self.row_idx@,
    {
        self.row_idx.as_slice()
    }

    /// Raw values array.
    pub fn values(&self) -> (r: &[T])
        ensures
            r@ == self.values@,
    {
        self.values.as_slice()
    }
}

impl<T: SparseScalar> CscMatrix<T> {
    // -------------------------------------------------------------
    // Construction
    // -------------------------------------------------------------

    /// Build a zero-valued matrix from a column-oriented sparsity pattern:
    /// `pattern[j]` lists the stored rows of column `j` (repeats and any
    /// order accepted).
    ///
    /// Errors: `PatternLengthMismatch` if `pattern.len() != ncols` (its
    /// `nrows` field then holds `ncols`); else `RowOutOfRange` for the first
    /// row `>= nrows`, columns in order.
    pub fn from_pattern(nrows: usize, ncols: usize, pattern: &[Vec<usize>]) -> (r: Result<Self, SparseError>)
        ensures
            pattern@.len() != ncols ==> r == Err::<Self, SparseError>(
                SparseError::PatternLengthMismatch { pattern_len: pattern@.len() as usize, nrows: ncols },
            ),
            pattern@.len() == ncols ==> (r is Ok <==> !exists|j: int, k: int| #[trigger] pattern_entry_bad(nrows, pattern@, j, k)),
            pattern@.len() == ncols && r is Err ==> exists|j: int, k: int| #[trigger] first_pattern_bad(nrows, pattern@, j, k)
                && r == Err::<Self, SparseError>(SparseError::RowOutOfRange { row: pattern@[j]@[k], nrows }),
            r matches Ok(m) ==> {
                &&& m.wf()
                &&& m.nrows == nrows
                &&& m.ncols == ncols
                &&& m.all_zero()
                &&& forall|j: int, i: usize| 0 <= j < ncols ==> (#[trigger] m.stored(i as int, j) <==> pattern@[j]@.contains(i))
            },
    {
        if pattern.len() != ncols {
            return Err(SparseError::PatternLengthMismatch { pattern_len: pattern.len(), nrows: ncols });
        }
        match compress_lines(nrows, pattern) {
            Ok((col_ptr, row_idx)) => {
                let nnz = row_idx.len();
                let z = T::zero();
                let mut values: Vec<T> = Vec::new();
                let mut t: usize = 0;
                while t < nnz
                    invariant
                        0 <= t <= nnz,
                        values@.len() == t,
                        is_zero_value(z),
                        forall|k: int| 0 <= k < t ==> values@[k] == z,
                    decreases nnz - t,
                {
                    values.push(z);
                    t = t + 1;
                }
                let m = CscMatrix { values, row_idx, col_ptr, nrows, ncols };
                proof {
                    m.lemma_from_lines();
                    assert forall|j: int, i: usize| 0 <= j < ncols implies (#[trigger] m.stored(i as int, j) <==> pattern@[j]@.contains(i)) by {}
                }
                Ok(m)
            },
            Err(v) => Err(SparseError::RowOutOfRange { row: v, nrows }),
        }
    }

    // -------------------------------------------------------------
    // Access and mutation
    // -------------------------------------------------------------

    /// Storage index of `(row, col)`, if stored.
    pub(crate) fn find_idx(&self, row: usize, col: usize) -> (r: Option<usize>)
        requires
            self.wf(),
            col < self.ncols,
        ensures
            match r {
                Some(k) => self.stored(row as int, col as int) && self.slot(row as int, col as int) == k,
                None => !self.stored(row as int, col as int),
            },
    {
        proof {
            self.lemma_lines();
            lemma_line_bounds(self.col_ptr@, self.row_idx@, self.ncols as int, self.nrows as int, col as int);
        }
        let r = find_in_line(&self.col_ptr, &self.row_idx, col, row);
        proof {
            if let Some(k) = r {
                lemma_line_slot_is(self.col_ptr@, self.row_idx@, self.ncols as int, self.nrows as int, col as int, row as int, k as int);
            }
        }
        r
    }

    /// Check that `(row, col)` is inside the matrix.
    pub(crate) fn check_bounds(&self, row: usize, col: usize) -> (r: Result<(), SparseError>)
        ensures
            r == (match bounds_error(self.nrows, self.ncols, row, col) {
                Some(e) => Err::<(), SparseError>(e),
                None => Ok(()),
            }),
    {
        if row >= self.nrows {
            return Err(SparseError::RowOutOfRange { row, nrows: self.nrows });
        }
        if col >= self.ncols {
            return Err(SparseError::ColOutOfRange { col, ncols: self.ncols });
        }
        Ok(())
    }

    /// Value at `(row, col)`; entries absent from the pattern read as zero.
    ///
    /// Errors: `RowOutOfRange`, then `ColOutOfRange`.
    pub fn get(&self, row: usize, col: usize) -> (r: Result<T, SparseError>)
        requires
            self.wf(),
        ensures
            bounds_error(self.nrows, self.ncols, row, col) matches Some(e) ==> r == Err::<T, SparseError>(e),
            bounds_error(self.nrows, self.ncols, row, col) is None ==> (r matches Ok(v) && if self.stored(row as int, col as int) {
                v == self.value_at(row as int, col as int)
            } else {
                is_zero_value(v)
            }),
    {
        self.check_bounds(row, col)?;
        match self.find_idx(row, col) {
            Some(i) => {
                proof {
                    self.lemma_slot(row as int, col as int);
                }
                Ok(self.values[i])
            },
            None => Ok(T::zero()),
        }
    }

    /// Accumulate `val` into `(row, col)`: the stored value becomes
    /// `old + val`.
    ///
    /// Errors: `RowOutOfRange`, `ColOutOfRange`, then `IndexOutOfBounds` if
    /// the entry is absent from the pattern; the values are then unchanged.
    pub fn add_value(&mut self, row: usize, col: usize, val: T) -> (r: Result<(), SparseError>)
        requires
            old(self).wf(),
        ensures
            final(self).wf(),
            final(self).same_pattern(old(self)),
            bounds_error(old(self).nrows, old(self).ncols, row, col) matches Some(e) ==> r == Err::<(), SparseError>(e),
            bounds_error(old(self).nrows, old(self).ncols, row, col) is None && !old(self).stored(row as int, col as int)
                ==> r == Err::<(), SparseError>(SparseError::IndexOutOfBounds { row, col }),
            bounds_error(old(self).nrows, old(self).ncols, row, col) is None && old(self).stored(row as int, col as int) ==> {
                let k = old(self).slot(row as int, col as int);
                &&& r is Ok
                &&& final(self).values@ == old(self).values@.update(k, final(self).values@[k])
                &&& call_ensures(T::plus, (old(self).values@[k], val), final(self).values@[k])
            },
            r is Err ==> final(self).values@ == old(self).values@,
    {
        self.check_bounds(row, col)?;
        match self.find_idx(row, col) {
            Some(idx) => {
                proof {
                    self.lemma_slot(row as int, col as int);
                }
                let cur = self.values[idx];
                let nv = cur.plus(val);
                self.values.set(idx, nv);
                proof {
                    old(self).lemma_same_pattern_wf(self);
                }
                Ok(())
            },
            None => Err(SparseError::IndexOutOfBounds { row, col }),
        }
    }

    /// Overwrite `(row, col)` with `val`.
    ///
    /// Errors: as `add_value`; the values are then unchanged.
    pub fn set_value(&mut self, row: usize, col: usize, val: T) -> (r: Result<(), SparseError>)
        requires
            old(self).wf(),
        ensures
            final(self).wf(),
            final(self).same_pattern(old(self)),
            bounds_error(old(self).nrows, old(self).ncols, row, col) matches Some(e) ==> r == Err::<(), SparseError>(e),
            bounds_error(old(self).nrows, old(self).ncols, row, col) is None && !old(self).stored(row as int, col as int)
                ==> r == Err::<(), SparseError>(SparseError::IndexOutOfBounds { row, col }),
            bounds_error(old(self).nrows, old(self).ncols, row, col) is None && old(self).stored(row as int, col as int) ==> {
                &&& r is Ok
                &&& final(self).values@ == old(self).values@.update(old(self).slot(row as int, col as int), val)
            },
            r is Err ==> final(self).values@ == old(self).values@,
    {
        self.check_bounds(row, col)?;
        match self.find_idx(row, col) {
            Some(idx) => {
                proof {
                    self.lemma_slot(row as int, col as int);
                }
                self.values.set(idx, val);
                proof {
                    old(self).lemma_same_pattern_wf(self);
                }
                Ok(())
            },
            None => Err(SparseError::IndexOutOfBounds { row, col }),
        }
    }

    /// Set all stored values to zero while keeping the pattern.
    pub fn zero(&mut self)
        requires
            old(self).wf(),
        ensures
            final(self).wf(),
            final(self).same_pattern(old(self)),
            final(self).all_zero(),
    {
        let z = T::zero();
        let len = self.values.len();
        let mut i: usize = 0;
        while i < len
            invariant
                0 <= i <= len,
                self.values@.len() == len,
                self.same_pattern(old(self)),
                self.values@.len() == self.row_idx@.len(),
                self.col_ptr == old(self).col_ptr,
                self.row_idx == old(self).row_idx,
                self.nrows == old(self).nrows,
                self.ncols == old(self).ncols,
                old(self).wf(),
                is_zero_value(z),
                forall|k: int| 0 <= k < i ==> self.values@[k] == z,
            decreases len - i,
        {
            self.values.set(i, z);
            i = i + 1;
        }
        proof {
            assert forall|j: int| 0 <= j < self.ncols implies #[trigger] self.col_rows(j) == old(self).col_rows(j) by {}
        }
    }

    /// The main diagonal; entries absent from the pattern read as zero.
    ///
    /// Error: `NotSquare` for a rectangular matrix.
    pub fn extract_diagonal(&self) -> (r: Result<Vec<T>, SparseError>)
        requires
            self.wf(),
        ensures
            self.nrows != self.ncols ==> r == Err::<Vec<T>, SparseError>(
                SparseError::NotSquare { nrows: self.nrows, ncols: self.ncols },
            ),
            self.nrows == self.ncols ==> (r matches Ok(d) && d@.len() == self.ncols && forall|i: int| 0 <= i < self.ncols ==>
                if self.stored(i, i) {
                    #[trigger] d@[i] == self.value_at(i, i)
                } else {
                    is_zero_value(d@[i])
                }),
    {
        if self.nrows != self.ncols {
            return Err(SparseError::NotSquare { nrows: self.nrows, ncols: self.ncols });
        }
        let mut out: Vec<T> = Vec::new();
        let mut i: usize = 0;
        while i < self.ncols
            invariant
                self.wf(),
                0 <= i <= self.ncols,
                out@.len() == i,
                forall|j: int| 0 <= j < i ==> if self.stored(j, j) {
                    #[trigger] out@[j] == self.value_at(j, j)
                } else {
                    is_zero_value(out@[j])
                },
            decreases self.ncols - i,
        {
            let v = match self.find_idx(i, i) {
                Some(k) => {
                    proof {
                        self.lemma_slot(i as int, i as int);
                    }
                    self.values[k]
                },
                None => T::zero(),
            };
            out.push(v);
            i = i + 1;
        }
        Ok(out)
    }
}

// -----------------------------------------------------------------
// Validation
// -----------------------------------------------------------------

impl<T> CscMatrix<T> {
    /// All checks of `validate` pass.
    pub open spec fn valid(&self) -> bool {
        &&& self.col_ptr@.len() == self.ncols + 1
        &&& self.values@.len() == self.row_idx@.len()
        &&& forall|c: int| 0 <= c < self.ncols ==> #[trigger] line_valid(self.col_ptr@, self.row_idx@, self.nrows as int, c)
    }

    /// The columns can be sliced out of the storage whenever the column
    /// pointer array has the right length.
    pub open spec fn cols_sliceable(&self) -> bool {
        self.col_ptr@.len() == self.ncols + 1 ==> lines_sliceable(self.col_ptr@, self.row_idx@, self.ncols as int)
    }

    /// The error `validate` reports for the invalid column `q`.
    pub open spec fn col_error(&self, q: int) -> SparseError {
        match line_fault(self.col_ptr@, self.row_idx@, self.nrows as int, q) {
            LineFault::OutOfRange { line, value } => SparseError::RowOutOfRange { row: value, nrows: self.nrows },
            LineFault::Unsorted { line, value } => SparseError::IndexOutOfBounds { row: value, col: line },
        }
    }

    /// Verify the storage invariants: the length of the column pointers,
    /// then of the values, then column by column the rows in range and
    /// strictly increasing.
    ///
    /// Errors: `PatternLengthMismatch` (its `nrows` field holding `ncols`);
    /// `DimensionMismatch`; for the first invalid column, `RowOutOfRange`
    /// with its first out-of-range row, else `IndexOutOfBounds` with its
    /// first row that is not below the next one.
    pub fn validate(&self) -> (r: Result<(), SparseError>)
        requires
            self.ncols < usize::MAX,
            self.cols_sliceable(),
        ensures
            r is Ok <==> self.valid(),
            self.wf() ==> r is Ok,
            self.col_ptr@.len() != self.ncols + 1 ==> r == Err::<(), SparseError>(
                SparseError::PatternLengthMismatch {
                    pattern_len: if self.col_ptr@.len() == 0 { 0 } else { (self.col_ptr@.len() - 1) as usize },
                    nrows: self.ncols,
                },
            ),
            self.col_ptr@.len() == self.ncols + 1 && self.values@.len() != self.row_idx@.len()
                ==> r == Err::<(), SparseError>(
                SparseError::DimensionMismatch { expected: self.row_idx@.len() as usize, got: self.values@.len() as usize },
            ),
            self.col_ptr@.len() == self.ncols + 1 && self.values@.len() == self.row_idx@.len() && r is Err
                ==> exists|q: int| {
                &&& 0 <= q < self.ncols
                &&& !#[trigger] line_valid(self.col_ptr@, self.row_idx@, self.nrows as int, q)
                &&& forall|q2: int| 0 <= q2 < q ==> line_valid(self.col_ptr@, self.row_idx@, self.nrows as int, q2)
                &&& r == Err::<(), SparseError>(self.col_error(q))
            },
    {
        if self.col_ptr.len() != self.ncols + 1 {
            let len = self.col_ptr.len();
            let pl = if len == 0 { 0 } else { len - 1 };
            return Err(SparseError::PatternLengthMismatch { pattern_len: pl, nrows: self.ncols });
        }
        if self.values.len() != self.row_idx.len() {
            return Err(SparseError::DimensionMismatch { expected: self.row_idx.len(), got: self.values.len() });
        }
        proof {
            if self.wf() {
                self.lemma_lines();
                lemma_lines_valid(self.col_ptr@, self.row_idx@, self.ncols as int, self.nrows as int);
            }
        }
        match check_lines(&self.col_ptr, &self.row_idx, self.ncols, self.nrows) {
            None => Ok(()),
            Some(LineFault::OutOfRange { line, value }) => Err(SparseError::RowOutOfRange { row: value, nrows: self.nrows }),
            Some(LineFault::Unsorted { line, value }) => Err(SparseError::IndexOutOfBounds { row: value, col: line }),
        }
    }
}

// -----------------------------------------------------------------
// Dense view and printout
// -----------------------------------------------------------------

impl<T: SparseScalar> CscMatrix<T> {
    /// `d` is the dense matrix: `d[r][c]` is the stored value of `(r, c)`,
    /// or a zero for an entry absent from the pattern.
    pub open spec fn dense_view(&self, d: Seq<Vec<T>>) -> bool {
        &&& d.len() == self.nrows
        &&& forall|r: int| 0 <= r < self.nrows ==> #[trigger] d[r]@.len() == self.ncols
        &&& forall|r: int, c: int| 0 <= r < self.nrows && 0 <= c < self.ncols ==> if self.stored(r, c) {
            #[trigger] d[r]@[c] == self.value_at(r, c)
        } else {
            is_zero_value(d[r]@[c])
        }
    }

    /// The dense matrix, entry by entry with `get`.
    fn dense_rows(&self) -> (d: Vec<Vec<T>>)
        requires
            self.wf(),
        ensures
            self.dense_view(d@),
    {
        let mut d: Vec<Vec<T>> = Vec::new();
        let mut r: usize = 0;
        while r < self.nrows
            invariant
                self.wf(),
                0 <= r <= self.nrows,
                d@.len() == r,
                forall|q: int| 0 <= q < r ==> #[trigger] d@[q]@.len() == self.ncols,
                forall|q: int, c: int| 0 <= q < r && 0 <= c < self.ncols ==> if self.stored(q, c) {
                    #[trigger] d@[q]@[c] == self.value_at(q, c)
                } else {
                    is_zero_value(d@[q]@[c])
                },
            decreases self.nrows - r,
        {
            let mut line: Vec<T> = Vec::new();
            let mut c: usize = 0;
            while c < self.ncols
                invariant
                    self.wf(),
                    0 <= r < self.nrows,
                    0 <= c <= self.ncols,
                    line@.len() == c,
                    forall|q: int| 0 <= q < c ==> if self.stored(r as int, q) {
                        #[trigger] line@[q] == self.value_at(r as int, q)
                    } else {
                        is_zero_value(line@[q])
                    },
                decreases self.ncols - c,
            {
                let v = match self.get(r, c) {
                    Ok(v) => v,
                    Err(_) => {
                        proof {
                            assert(false);
                        }
                        T::zero()
                    },
                };
                line.push(v);
                c = c + 1;
            }
            d.push(line);
            r = r + 1;
        }
        d
    }

    /// The matrix as text: one line per row, every entry (zeros included)
    /// rendered by the scalar type, between brackets and separated by
    /// `", "`.
    pub fn display_text(&self) -> (s: String)
        requires
            self.wf(),
        ensures
            exists|d: Seq<Vec<T>>| self.dense_view(d) && #[trigger] printout(d, s@),
    {
        let d = self.dense_rows();
        render_rows(&d)
    }
}

// -----------------------------------------------------------------
// Laws
// -----------------------------------------------------------------

impl<T: SparseScalar> CscMatrix<T> {
    /// Read after write: once `set_value(r, c, v)` has succeeded, entry
    /// `(r, c)` holds `v` and every other stored entry is unchanged.
    pub proof fn lemma_set_then_get(before: Self, after: Self, r: int, c: int, v: T)
        requires
            before.wf(),
            before.stored(r, c),
            after.same_pattern(&before),
            after.values@ == before.values@.update(before.slot(r, c), v),
        ensures
            after.stored(r, c),
            after.value_at(r, c) == v,
            forall|a: int, b: int| #[trigger] before.stored(a, b) && (a, b) != (r, c) ==>
                after.stored(a, b) && after.value_at(a, b) == before.value_at(a, b),
    {
        before.lemma_lines();
        before.lemma_slot(r, c);
        assert forall|a: int, b: int| #[trigger] before.stored(a, b) && (a, b) != (r, c) implies
            after.stored(a, b) && after.value_at(a, b) == before.value_at(a, b) by {
            before.lemma_slot(a, b);
            if before.slot(a, b) == before.slot(r, c) {
                crate::compressed::lemma_line_slot_injective(
                    before.col_ptr@, before.row_idx@, before.ncols as int, before.nrows as int, b, a, c, r);
            }
        }
    }
}

} // verus!
