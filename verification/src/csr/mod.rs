//! Compressed sparse row storage of a general matrix: both triangles
//! stored, used for assembly and the general matrix-vector products.
pub mod ops;
pub mod iter;
pub mod utils;

use vstd::prelude::*;
use crate::compressed::{
    lines_ok, line_has, line_slot, is_line_slot, line_of, find_in_line, compress_lines, pattern_entry_bad,
    first_pattern_bad, lemma_line_bounds, lemma_line_slot_is, lemma_line_slot_unique, lemma_line_of,
};
use crate::error::SparseError;
use crate::sym::{dof_bad, first_dof_bad, dofs_coupled, lemma_pattern_push};
use crate::line_ops::{LineFault, check_lines, line_valid, line_fault, lines_sliceable, lemma_lines_valid};
use crate::scalar::{SparseScalar, is_zero_value, is_one_value, added_in_order, lemma_added_none, lemma_added_step};

verus! {

/// Compressed Sparse Row matrix: general (unsymmetric) storage.
///
/// `row_ptr[i]..row_ptr[i + 1]` is the storage range of row `i`; within it
/// the column indices are strictly increasing and below `ncols`, and
/// `values` runs parallel to `col_idx`.
#[derive(Debug, Clone)]
pub struct CsrMatrix<T> {
    pub values: Vec<T>,
    pub col_idx: Vec<usize>,
    pub row_ptr: Vec<usize>,
    pub nrows: usize,
    pub ncols: usize,
}

/// The error of an index check: the row first, then the column.
pub open spec fn bounds_error(nrows: usize, ncols: usize, row: usize, col: usize) -> Option<SparseError> {
    if row >= nrows {
        Some(SparseError::RowOutOfRange { row, nrows })
    } else if col >= ncols {
        Some(SparseError::ColOutOfRange { col, ncols })
    } else {
        None
    }
}

impl<T> CsrMatrix<T> {
    /// Well-formedness: the invariants listed on the type.
    pub open spec fn wf(&self) -> bool {
        &&& lines_ok(self.row_ptr@, self.col_idx@, self.nrows as int, self.ncols as int)
        &&& self.values@.len() == self.col_idx@.len()
    }

    /// Entry `(r, c)` belongs to the stored pattern.
    pub open spec fn stored(&self, r: int, c: int) -> bool {
        &&& 0 <= r < self.nrows
        &&& line_has(self.row_ptr@, self.col_idx@, r, c)
    }

    /// Storage index of a stored entry.
    pub open spec fn slot(&self, r: int, c: int) -> int {
        line_slot(self.row_ptr@, self.col_idx@, r, c)
    }

    /// Stored value of entry `(r, c)`.
    pub open spec fn value_at(&self, r: int, c: int) -> T {
        self.values@[self.slot(r, c)]
    }

    /// Same shape and pattern as `other`.
    pub open spec fn same_pattern(&self, other: &Self) -> bool {
        &&& self.nrows == other.nrows
        &&& self.ncols == other.ncols
        &&& self.row_ptr@ == other.row_ptr@
        &&& self.col_idx@ == other.col_idx@
        &&& self.values@.len() == other.values@.len()
    }

    /// Every stored value is the same zero.
    pub open spec fn all_zero(&self) -> bool
        where T: SparseScalar
    {
        &&& forall|k: int| 0 <= k < self.values@.len() ==> is_zero_value(#[trigger] self.values@[k])
        &&& forall|a: int, b: int|
            0 <= a < self.values@.len() && 0 <= b < self.values@.len() ==> #[trigger] self.values@[a]
                == #[trigger] self.values@[b]
    }

    /// The row of storage index `t`.
    pub open spec fn row_of(&self, t: int) -> int {
        line_of(self.row_ptr@, self.nrows as int, t)
    }

    /// A stored entry's slot is in the storage range of its row.
    pub proof fn lemma_slot(&self, r: int, c: int)
        requires
            self.wf(),
            self.stored(r, c),
        ensures
            is_line_slot(self.row_ptr@, self.col_idx@, r, c, self.slot(r, c)),
            0 <= self.slot(r, c) < self.values@.len(),
            0 <= c < self.ncols,
    {
        let k = self.slot(r, c);
        assert(is_line_slot(self.row_ptr@, self.col_idx@, r, c, k));
        lemma_line_bounds(self.row_ptr@, self.col_idx@, self.nrows as int, self.ncols as int, r);
    }

    /// The slot of `(r, c)` is the storage index that holds it.
    pub proof fn lemma_slot_is(&self, r: int, c: int, k: int)
        requires
            self.wf(),
            0 <= r < self.nrows,
            is_line_slot(self.row_ptr@, self.col_idx@, r, c, k),
        ensures
            self.stored(r, c),
            self.slot(r, c) == k,
    {
        lemma_line_slot_is(self.row_ptr@, self.col_idx@, self.nrows as int, self.ncols as int, r, c, k);
    }
}

impl<T: SparseScalar> CsrMatrix<T> {
    // -------------------------------------------------------------
    // Construction
    // -------------------------------------------------------------

    /// Build a zero-valued matrix from a sparsity pattern: `pattern[i]`
    /// lists the stored columns of row `i` (repeats and any order accepted).
    ///
    /// Errors: `PatternLengthMismatch` if `pattern.len() != nrows`; else
    /// `ColOutOfRange` for the first column `>= ncols`, rows in order.
    pub fn from_pattern(nrows: usize, ncols: usize, pattern: &[Vec<usize>]) -> (r: Result<Self, SparseError>)
        ensures
            pattern@.len() != nrows ==> r == Err::<Self, SparseError>(
                SparseError::PatternLengthMismatch { pattern_len: pattern@.len() as usize, nrows },
            ),
            pattern@.len() == nrows ==> (r is Ok <==> !exists|i: int, k: int| #[trigger] pattern_entry_bad(ncols, pattern@, i, k)),
            pattern@.len() == nrows && r is Err ==> exists|i: int, k: int| #[trigger] first_pattern_bad(ncols, pattern@, i, k)
                && r == Err::<Self, SparseError>(SparseError::ColOutOfRange { col: pattern@[i]@[k], ncols }),
            r matches Ok(m) ==> {
                &&& m.wf()
                &&& m.nrows == nrows
                &&& m.ncols == ncols
                &&& m.all_zero()
                &&& forall|i: int, c: usize| 0 <= i < nrows ==> (#[trigger] m.stored(i, c as int) <==> pattern@[i]@.contains(c))
            },
    {
        if pattern.len() != nrows {
            return Err(SparseError::PatternLengthMismatch { pattern_len: pattern.len(), nrows });
        }
        match compress_lines(ncols, pattern) {
            Ok((row_ptr, col_idx)) => {
                let nnz = col_idx.len();
                let z = T::zero();
                let mut values: Vec<T> = Vec::new();
                let mut t: usize = 0;
                while t < nnz
                    invariant
                        0 <= t <= nnz,
                        values@.len() == t,
                        is_zero_value(z),
                        forall|k: int| 0 <= k < t ==> values@[k] == z,
                    decreases nnz - t,
                {
                    values.push(z);
                    t = t + 1;
                }
                let m = CsrMatrix { values, col_idx, row_ptr, nrows, ncols };
                proof {
                    assert forall|i: int, c: usize| 0 <= i < nrows implies (#[trigger] m.stored(i, c as int) <==> pattern@[i]@.contains(c)) by {}
                }
                Ok(m)
            },
            Err(c) => Err(SparseError::ColOutOfRange { col: c, ncols }),
        }
    }

    // -------------------------------------------------------------
    // Accessors
    // -------------------------------------------------------------

    /// Number of stored entries.
    pub fn nnz(&self) -> (r: usize)
        ensures
            r == self.values@.len(),
    {
        self.values.len()
    }

    /// Raw row pointer array.
    pub fn row_ptr(&self) -> (r: &[usize])
        ensures
            r@ == self.row_ptr@,
    {
        self.row_ptr.as_slice()
    }

    /// Raw column index array.
    pub fn col_idx(&self) -> (r: &[usize])
        ensures
            r@ == self.col_idx@,
    {
        self.col_idx.as_slice()
    }

    /// Raw values array.
    pub fn values(&self) -> (r: &[T])
        ensures
            r@ == self.values@,
    {
        self.values.as_slice()
    }

    /// Storage index of `(row, col)`, if stored.
    pub(crate) fn find_idx(&self, row: usize, col: usize) -> (r: Option<usize>)
        requires
            self.wf(),
            row < self.nrows,
        ensures
            match r {
                Some(k) => self.stored(row as int, col as int) && self.slot(row as int, col as int) == k,
                None => !self.stored(row as int, col as int),
            },
    {
        proof {
            lemma_line_bounds(self.row_ptr@, self.col_idx@, self.nrows as int, self.ncols as int, row as int);
        }
        let r = find_in_line(&self.row_ptr, &self.col_idx, row, col);
        proof {
            if let Some(k) = r {
                self.lemma_slot_is(row as int, col as int, k as int);
            }
        }
        r
    }

    /// Check that `(row, col)` is inside the matrix.
    pub(crate) fn check_bounds(&self, row: usize, col: usize) -> (r: Result<(), SparseError>)
        ensures
            r == (match bounds_error(self.nrows, self.ncols, row, col) {
                Some(e) => Err::<(), SparseError>(e),
                None => Ok(()),
            }),
    {
        if row >= self.nrows {
            return Err(SparseError::RowOutOfRange { row, nrows: self.nrows });
        }
        if col >= self.ncols {
            return Err(SparseError::ColOutOfRange { col, ncols: self.ncols });
        }
        Ok(())
    }

    /// Value at `(row, col)`; entries absent from the pattern read as zero.
    ///
    /// Errors: `RowOutOfRange`, then `ColOutOfRange`.
    pub fn get(&self, row: usize, col: usize) -> (r: Result<T, SparseError>)
        requires
            self.wf(),
        ensures
            bounds_error(self.nrows, self.ncols, row, col) matches Some(e) ==> r == Err::<T, SparseError>(e),
            bounds_error(self.nrows, self.ncols, row, col) is None ==> (r matches Ok(v) && if self.stored(row as int, col as int) {
                v == self.value_at(row as int, col as int)
            } else {
                is_zero_value(v)
            }),
    {
        self.check_bounds(row, col)?;
        match self.find_idx(row, col) {
            Some(i) => {
                proof {
                    self.lemma_slot(row as int, col as int);
                }
                Ok(self.values[i])
            },
            None => Ok(T::zero()),
        }
    }

    // -------------------------------------------------------------
    // Mutation
    // -------------------------------------------------------------

    /// Accumulate `val` into `(row, col)`: the stored value becomes
    /// `old + val`.
    ///
    /// Errors: `RowOutOfRange`, `ColOutOfRange`, then `IndexOutOfBounds` if
    /// the entry is absent from the pattern; the values are then unchanged.
    pub fn add_value(&mut self, row: usize, col: usize, val: T) -> (r: Result<(), SparseError>)
        requires
            old(self).wf(),
        ensures
            final(self).wf(),
            final(self).same_pattern(old(self)),
            bounds_error(old(self).nrows, old(self).ncols, row, col) matches Some(e) ==> r == Err::<(), SparseError>(e),
            bounds_error(old(self).nrows, old(self).ncols, row, col) is None && !old(self).stored(row as int, col as int)
                ==> r == Err::<(), SparseError>(SparseError::IndexOutOfBounds { row, col }),
            bounds_error(old(self).nrows, old(self).ncols, row, col) is None && old(self).stored(row as int, col as int) ==> {
                let k = old(self).slot(row as int, col as int);
                &&& r is Ok
                &&& final(self).values@ == old(self).values@.update(k, final(self).values@[k])
                &&& call_ensures(T::plus, (old(self).values@[k], val), final(self).values@[k])
            },
            r is Err ==> final(self).values@ == old(self).values@,
    {
        self.check_bounds(row, col)?;
        match self.find_idx(row, col) {
            Some(idx) => {
                proof {
                    self.lemma_slot(row as int, col as int);
                }
                let cur = self.values[idx];
                let nv = cur.plus(val);
                self.values.set(idx, nv);
                Ok(())
            },
            None => Err(SparseError::IndexOutOfBounds { row, col }),
        }
    }

    /// Overwrite `(row, col)` with `val`.
    ///
    /// Errors: as `add_value`; the values are then unchanged.
    pub fn set_value(&mut self, row: usize, col: usize, val: T) -> (r: Result<(), SparseError>)
        requires
            old(self).wf(),
        ensures
            final(self).wf(),
            final(self).same_pattern(old(self)),
            bounds_error(old(self).nrows, old(self).ncols, row, col) matches Some(e) ==> r == Err::<(), SparseError>(e),
            bounds_error(old(self).nrows, old(self).ncols, row, col) is None && !old(self).stored(row as int, col as int)
                ==> r == Err::<(), SparseError>(SparseError::IndexOutOfBounds { row, col }),
            bounds_error(old(self).nrows, old(self).ncols, row, col) is None && old(self).stored(row as int, col as int) ==> {
                &&& r is Ok
                &&& final(self).values@ == old(self).values@.update(old(self).slot(row as int, col as int), val)
            },
            r is Err ==> final(self).values@ == old(self).values@,
    {
        self.check_bounds(row, col)?;
        match self.find_idx(row, col) {
            Some(idx) => {
                proof {
                    self.lemma_slot(row as int, col as int);
                }
                self.values.set(idx, val);
                Ok(())
            },
            None => Err(SparseError::IndexOutOfBounds { row, col }),
        }
    }

    /// Set all stored values to zero while keeping the pattern.
    pub fn zero(&mut self)
        requires
            old(self).wf(),
        ensures
            final(self).wf(),
            final(self).same_pattern(old(self)),
            final(self).all_zero(),
    {
        let z = T::zero();
        let len = self.values.len();
        let mut i: usize = 0;
        while i < len
            invariant
                0 <= i <= len,
                self.values@.len() == len,
                self.same_pattern(old(self)),
                self.wf(),
                is_zero_value(z),
                forall|k: int| 0 <= k < i ==> self.values@[k] == z,
            decreases len - i,
        {
            self.values.set(i, z);
            i = i + 1;
        }
    }

    /// The main diagonal; entries absent from the pattern read as zero.
    ///
    /// Error: `NotSquare` for a rectangular matrix.
    pub fn extract_diagonal(&self) -> (r: Result<Vec<T>, SparseError>)
        requires
            self.wf(),
        ensures
            self.nrows != self.ncols ==> r == Err::<Vec<T>, SparseError>(
                SparseError::NotSquare { nrows: self.nrows, ncols: self.ncols },
            ),
            self.nrows == self.ncols ==> (r matches Ok(d) && d@.len() == self.nrows && forall|i: int| 0 <= i < self.nrows ==>
                if self.stored(i, i) {
                    #[trigger] d@[i] == self.value_at(i, i)
                } else {
                    is_zero_value(d@[i])
                }),
    {
        if self.nrows != self.ncols {
            return Err(SparseError::NotSquare { nrows: self.nrows, ncols: self.ncols });
        }
        let mut out: Vec<T> = Vec::new();
        let mut i: usize = 0;
        while i < self.nrows
            invariant
                self.wf(),
                0 <= i <= self.nrows,
                out@.len() == i,
                forall|j: int| 0 <= j < i ==> if self.stored(j, j) {
                    #[trigger] out@[j] == self.value_at(j, j)
                } else {
                    is_zero_value(out@[j])
                },
            decreases self.nrows - i,
        {
            let v = match self.find_idx(i, i) {
                Some(k) => {
                    proof {
                        self.lemma_slot(i as int, i as int);
                    }
                    self.values[k]
                },
                None => T::zero(),
            };
            out.push(v);
            i = i + 1;
        }
        Ok(out)
    }
}

// -----------------------------------------------------------------
// Validation
// -----------------------------------------------------------------

impl<T> CsrMatrix<T> {
    /// All checks of `validate` pass.
    pub open spec fn valid(&self) -> bool {
        &&& self.row_ptr@.len() == self.nrows + 1
        &&& self.values@.len() == self.col_idx@.len()
        &&& forall|r: int| 0 <= r < self.nrows ==> #[trigger] line_valid(self.row_ptr@, self.col_idx@, self.ncols as int, r)
    }

    /// The rows can be sliced out of the storage whenever the row pointer
    /// array has the right length: the condition under which the row
    /// checks of `validate` can run.
    pub open spec fn rows_sliceable(&self) -> bool {
        self.row_ptr@.len() == self.nrows + 1 ==> lines_sliceable(self.row_ptr@, self.col_idx@, self.nrows as int)
    }

    /// The error `validate` reports for the invalid row `q`.
    pub open spec fn row_error(&self, q: int) -> SparseError {
        match line_fault(self.row_ptr@, self.col_idx@, self.ncols as int, q) {
            LineFault::OutOfRange { line, value } => SparseError::ColOutOfRange { col: value, ncols: self.ncols },
            LineFault::Unsorted { line, value } => SparseError::IndexOutOfBounds { row: line, col: value },
        }
    }

    /// `true` exactly when the storage meets every invariant of the type
    /// (`wf`), the precondition of the other methods: besides the checks of
    /// `validate`, the row pointers start at zero, do not decrease and end at
    /// the number of stored entries.
    pub fn is_well_formed(&self) -> (r: bool)
        ensures
            r == self.wf(),
    {
        let n = self.nrows;
        let len = self.row_ptr.len();
        if len == 0 || len - 1 != n {
            return false;
        }
        if self.row_ptr[0] != 0 || self.row_ptr[n] != self.col_idx.len() || self.values.len() != self.col_idx.len() {
            return false;
        }
        let mut i: usize = 0;
        while i < n
            invariant
                n == self.nrows,
                self.row_ptr@.len() == n + 1,
                0 <= i <= n,
                forall|j: int| 0 <= j < i ==> #[trigger] self.row_ptr@[j] <= self.row_ptr@[j + 1],
            decreases n - i,
        {
            if self.row_ptr[i] > self.row_ptr[i + 1] {
                proof {
                    if self.wf() {
                        assert(self.row_ptr@[i as int] <= self.row_ptr@[i + 1]);
                    }
                }
                return false;
            }
            i = i + 1;
        }
        proof {
            crate::line_ops::lemma_ptr_monotone(self.row_ptr@, n as int);
            assert forall|j: int| 0 <= j < n implies self.row_ptr@[j] <= #[trigger] self.row_ptr@[j + 1] <= self.col_idx@.len() by {
                assert(self.row_ptr@[j + 1] <= self.row_ptr@[n as int]);
            }
        }
        let ok = self.validate().is_ok();
        proof {
            if ok {
                crate::line_ops::lemma_valid_lines_ok(self.row_ptr@, self.col_idx@, n as int, self.ncols as int);
            }
        }
        ok
    }

    /// Verify the storage invariants: the length of the row pointers, then
    /// of the values, then row by row the columns in range and strictly
    /// increasing.
    ///
    /// Errors: `PatternLengthMismatch`; `DimensionMismatch`; for the first
    /// invalid row, `ColOutOfRange` with its first out-of-range column,
    /// else `IndexOutOfBounds` with its first column that is not below the
    /// next one.
    pub fn validate(&self) -> (r: Result<(), SparseError>)
        requires
            self.nrows < usize::MAX,
            self.rows_sliceable(),
        ensures
            r is Ok <==> self.valid(),
            self.wf() ==> r is Ok,
            self.row_ptr@.len() != self.nrows + 1 ==> r == Err::<(), SparseError>(
                SparseError::PatternLengthMismatch {
                    pattern_len: if self.row_ptr@.len() == 0 { 0 } else { (self.row_ptr@.len() - 1) as usize },
                    nrows: self.nrows,
                },
            ),
            self.row_ptr@.len() == self.nrows + 1 && self.values@.len() != self.col_idx@.len()
                ==> r == Err::<(), SparseError>(
                SparseError::DimensionMismatch { expected: self.col_idx@.len() as usize, got: self.values@.len() as usize },
            ),
            self.row_ptr@.len() == self.nrows + 1 && self.values@.len() == self.col_idx@.len() && r is Err
                ==> exists|q: int| {
                &&& 0 <= q < self.nrows
                &&& !#[trigger] line_valid(self.row_ptr@, self.col_idx@, self.ncols as int, q)
                &&& forall|q2: int| 0 <= q2 < q ==> line_valid(self.row_ptr@, self.col_idx@, self.ncols as int, q2)
                &&& r == Err::<(), SparseError>(self.row_error(q))
            },
    {
        if self.row_ptr.len() != self.nrows + 1 {
            let len = self.row_ptr.len();
            let pl = if len == 0 { 0 } else { len - 1 };
            return Err(SparseError::PatternLengthMismatch { pattern_len: pl, nrows: self.nrows });
        }
        if self.values.len() != self.col_idx.len() {
            return Err(SparseError::DimensionMismatch { expected: self.col_idx.len(), got: self.values.len() });
        }
        proof {
            if self.wf() {
                lemma_lines_valid(self.row_ptr@, self.col_idx@, self.nrows as int, self.ncols as int);
            }
        }
        match check_lines(&self.row_ptr, &self.col_idx, self.nrows, self.ncols) {
            None => Ok(()),
            Some(LineFault::OutOfRange { line, value }) => Err(SparseError::ColOutOfRange { col: value, ncols: self.ncols }),
            Some(LineFault::Unsorted { line, value }) => Err(SparseError::IndexOutOfBounds { row: line, col: value }),
        }
    }
}

// -----------------------------------------------------------------
// Element scatter
// -----------------------------------------------------------------

/// Targets of element row `i`: every position `(i, j)`, mapped to the
/// global entry `(dof_map[i], dof_map[j])` with the element value there.
pub open spec fn full_scatter_row<T>(dm: Seq<usize>, ke: Seq<T>, i: int) -> Seq<(usize, usize, T)> {
    let n = dm.len() as int;
    Seq::new(dm.len(), |j: int| (dm[i], dm[j], ke[i * n + j]))
}

/// Targets of the first `rows` element rows, in the order they are added.
pub open spec fn full_scatter_targets<T>(dm: Seq<usize>, ke: Seq<T>, rows: int) -> Seq<(usize, usize, T)>
    decreases rows,
{
    if rows <= 0 {
        Seq::empty()
    } else {
        full_scatter_targets(dm, ke, rows - 1) + full_scatter_row(dm, ke, rows - 1)
    }
}

/// Flat index of element position `(i, j)` lies inside an `n x n` array.
proof fn lemma_index_in_square(i: int, j: int, n: int)
    requires
        0 <= i < n,
        0 <= j < n,
    ensures
        0 <= i * n + j < n * n,
{
    assert(i * n + j < n * n) by (nonlinear_arith)
        requires
            0 <= i < n,
            0 <= j < n,
    ;
    assert(0 <= i * n) by (nonlinear_arith)
        requires
            0 <= i,
            0 <= n,
    ;
}

/// The targets of the first `a` rows are a prefix of those of the first
/// `b` rows.
proof fn lemma_full_targets_prefix<T>(dm: Seq<usize>, ke: Seq<T>, a: int, b: int)
    requires
        0 <= a <= b,
    ensures
        full_scatter_targets(dm, ke, a).len() <= full_scatter_targets(dm, ke, b).len(),
        full_scatter_targets(dm, ke, b).take(full_scatter_targets(dm, ke, a).len() as int) == full_scatter_targets(dm, ke, a),
    decreases b - a,
{
    if a < b {
        lemma_full_targets_prefix(dm, ke, a, b - 1);
        let sa = full_scatter_targets(dm, ke, a);
        let sb1 = full_scatter_targets(dm, ke, b - 1);
        let sb = full_scatter_targets(dm, ke, b);
        assert(sb == sb1 + full_scatter_row(dm, ke, b - 1));
        assert(sb.take(sa.len() as int) =~= sb1.take(sa.len() as int));
    } else {
        let sa = full_scatter_targets(dm, ke, a);
        assert(sa.take(sa.len() as int) =~= sa);
    }
}

impl<T: SparseScalar> CsrMatrix<T> {
    /// A scatter target can be added to: inside the matrix and stored.
    pub open spec fn target_ok(&self, t: (usize, usize, T)) -> bool {
        &&& bounds_error(self.nrows, self.ncols, t.0, t.1) is None
        &&& self.stored(t.0 as int, t.1 as int)
    }

    /// The error `add_value` reports for a scatter target that is not ok.
    pub open spec fn target_error(&self, t: (usize, usize, T)) -> SparseError {
        match bounds_error(self.nrows, self.ncols, t.0, t.1) {
            Some(e) => e,
            None => SparseError::IndexOutOfBounds { row: t.0, col: t.1 },
        }
    }

    /// The storage updates that adding the targets performs.
    pub open spec fn target_updates(&self, ts: Seq<(usize, usize, T)>) -> Seq<(int, T)> {
        ts.map_values(|t: (usize, usize, T)| (self.slot(t.0 as int, t.1 as int), t.2))
    }

    /// Every target can be added to.
    pub open spec fn targets_ok(&self, ts: Seq<(usize, usize, T)>) -> bool {
        forall|t: int| 0 <= t < ts.len() ==> #[trigger] self.target_ok(ts[t])
    }

    /// Scatter the dense element matrix `ke` (row-major `n x n`,
    /// `n = dof_map.len()`) into the global matrix: every position `(i, j)`,
    /// row by row, is accumulated with `add_value` into
    /// `(dof_map[i], dof_map[j])`.  The first failing accumulation stops the
    /// scatter and its error is returned; the entries accumulated before it
    /// stay accumulated.
    ///
    /// Error first checked: `ScatterSizeMismatch` if `ke.len() != n * n`.
    pub fn scatter_add(&mut self, ke: &[T], dof_map: &[usize]) -> (r: Result<(), SparseError>)
        requires
            old(self).wf(),
            dof_map@.len() * dof_map@.len() <= usize::MAX,
        ensures
            final(self).wf(),
            final(self).same_pattern(old(self)),
            ({
                let n = dof_map@.len();
                let ts = full_scatter_targets(dof_map@, ke@, n as int);
                if ke@.len() != n * n {
                    &&& r == Err::<(), SparseError>(SparseError::ScatterSizeMismatch {
                        ke_len: ke@.len() as usize,
                        n: n as usize,
                        expected: (n * n) as usize,
                    })
                    &&& final(self).values@ == old(self).values@
                } else if old(self).targets_ok(ts) {
                    &&& r is Ok
                    &&& added_in_order(old(self).values@, final(self).values@, old(self).target_updates(ts))
                } else {
                    exists|f: int| {
                        &&& 0 <= f < ts.len()
                        &&& !old(self).target_ok(#[trigger] ts[f])
                        &&& old(self).targets_ok(ts.take(f))
                        &&& r == Err::<(), SparseError>(old(self).target_error(ts[f]))
                        &&& added_in_order(old(self).values@, final(self).values@, old(self).target_updates(ts.take(f)))
                    }
                }
            }),
    {
        let n = dof_map.len();
        let expected = n * n;
        if ke.len() != expected {
            return Err(SparseError::ScatterSizeMismatch { ke_len: ke.len(), n, expected });
        }
        let ghost dm = dof_map@;
        let ghost kv = ke@;
        let ghost ts = full_scatter_targets(dm, kv, n as int);
        let ghost mut done: Seq<(usize, usize, T)> = Seq::empty();
        proof {
            lemma_added_none(old(self).values@);
            assert(old(self).target_updates(done) =~= Seq::<(int, T)>::empty());
        }
        let mut i: usize = 0;
        while i < n
            invariant
                n == dof_map@.len(),
                dm == dof_map@,
                kv == ke@,
                ke@.len() == n * n,
                n * n <= usize::MAX,
                ts == full_scatter_targets(dm, kv, n as int),
                0 <= i <= n,
                done == full_scatter_targets(dm, kv, i as int),
                self.wf(),
                self.same_pattern(old(self)),
                old(self).wf(),
                old(self).targets_ok(done),
                added_in_order(old(self).values@, self.values@, old(self).target_updates(done)),
            decreases n - i,
        {
            let mut j: usize = 0;
            while j < n
                invariant
                    n == dof_map@.len(),
                    dm == dof_map@,
                    kv == ke@,
                    ke@.len() == n * n,
                    n * n <= usize::MAX,
                    ts == full_scatter_targets(dm, kv, n as int),
                    0 <= i < n,
                    0 <= j <= n,
                    done == full_scatter_targets(dm, kv, i as int) + full_scatter_row(dm, kv, i as int).take(j as int),
                    self.wf(),
                    self.same_pattern(old(self)),
                    old(self).wf(),
                    old(self).targets_ok(done),
                    added_in_order(old(self).values@, self.values@, old(self).target_updates(done)),
                decreases n - j,
            {
                proof {
                    lemma_index_in_square(i as int, j as int, n as int);
                }
                let gr = dof_map[i];
                let gc = dof_map[j];
                let val = ke[i * n + j];
                let ghost t = (gr, gc, val);
                proof {
                    assert(full_scatter_row(dm, kv, i as int)[j as int] == t);
                    lemma_full_targets_prefix(dm, kv, i as int + 1, n as int);
                    assert(full_scatter_targets(dm, kv, i as int + 1) == full_scatter_targets(dm, kv, i as int)
                        + full_scatter_row(dm, kv, i as int));
                }
                let ghost before = self.values@;
                let ghost pre = *self;
                let res = self.add_value(gr, gc, val);
                match res {
                    Ok(()) => {
                        proof {
                            let k = old(self).slot(gr as int, gc as int);
                            assert(old(self).target_ok(t));
                            assert(pre.slot(gr as int, gc as int) == k);
                            lemma_added_step(old(self).values@, before, old(self).target_updates(done), k, val, self.values@[k]);
                            assert(before.update(k, self.values@[k]) == self.values@);
                            let nd = full_scatter_targets(dm, kv, i as int) + full_scatter_row(dm, kv, i as int).take(j + 1);
                            assert(nd =~= done.push(t));
                            assert(old(self).target_updates(nd) =~= old(self).target_updates(done).push((k, val)));
                            assert forall|x: int| 0 <= x < nd.len() implies #[trigger] old(self).target_ok(nd[x]) by {
                                if x < done.len() {
                                    assert(nd[x] == done[x]);
                                    assert(old(self).target_ok(done[x]));
                                }
                            }
                            done = nd;
                        }
                    },
                    Err(e) => {
                        proof {
                            let f = done.len() as int;
                            let full = full_scatter_targets(dm, kv, i as int + 1);
                            assert(full.take(full.len() as int) == full);
                            assert(ts.take(full.len() as int) == full);
                            assert(ts[f] == full[f]);
                            assert(full[f] == t);
                            assert(ts.take(f) =~= done);
                            assert(!old(self).target_ok(ts[f]));
                            assert(e == old(self).target_error(ts[f]));
                            assert(self.values@ == before);
                            assert(!old(self).targets_ok(ts)) by {
                                assert(!old(self).target_ok(ts[f]));
                            }
                        }
                        return Err(e);
                    },
                }
                j = j + 1;
            }
            proof {
                assert(full_scatter_row(dm, kv, i as int).take(n as int) =~= full_scatter_row(dm, kv, i as int));
                assert(full_scatter_targets(dm, kv, i as int + 1) == full_scatter_targets(dm, kv, i as int)
                    + full_scatter_row(dm, kv, i as int));
            }
            i = i + 1;
        }
        Ok(())
    }
}

/// Position `a` of a row-major `n x n` array is row `a / n`, column `a % n`.
proof fn lemma_square_position(a: int, n: int)
    requires
        0 <= n,
        0 <= a < n * n,
    ensures
        0 <= a / n < n,
        0 <= a % n < n,
        a == (a / n) * n + a % n,
{
    assert(n > 0) by (nonlinear_arith)
        requires
            0 <= n,
            0 <= a < n * n,
    ;
    vstd::arithmetic::div_mod::lemma_fundamental_div_mod(a, n);
    vstd::arithmetic::div_mod::lemma_mod_bound(a, n);
    assert(0 <= a / n < n) by (nonlinear_arith)
        requires
            n > 0,
            0 <= a < n * n,
            0 <= a % n < n,
            a == n * (a / n) + a % n,
    ;
    assert(n * (a / n) == (a / n) * n) by (nonlinear_arith);
}

/// The targets of the first `rows` element rows, read by position: entry
/// `a` is element position `(a / n, a % n)` and carries `ke[a]`.
proof fn lemma_full_targets_at<T>(dm: Seq<usize>, ke: Seq<T>, rows: int)
    requires
        0 <= rows <= dm.len(),
    ensures
        full_scatter_targets(dm, ke, rows).len() == rows * dm.len(),
        forall|a: int| 0 <= a < rows * dm.len() ==> #[trigger] full_scatter_targets(dm, ke, rows)[a]
            == (dm[a / (dm.len() as int)], dm[a % (dm.len() as int)], ke[a]),
    decreases rows,
{
    let n = dm.len() as int;
    if rows <= 0 {
        assert(rows * n == 0) by (nonlinear_arith)
            requires
                rows == 0,
        ;
    } else {
        let r = rows - 1;
        lemma_full_targets_at(dm, ke, r);
        let prev = full_scatter_targets(dm, ke, r);
        let row = full_scatter_row(dm, ke, r);
        let all = full_scatter_targets(dm, ke, rows);
        assert(all == prev + row);
        assert(rows * n == r * n + n) by (nonlinear_arith)
            requires
                rows == r + 1,
        ;
        assert(all.len() == rows * n);
        assert forall|a: int| 0 <= a < rows * n implies #[trigger] all[a] == (dm[a / n], dm[a % n], ke[a]) by {
            if a >= r * n {
                let c = a - r * n;
                vstd::arithmetic::div_mod::lemma_fundamental_div_mod_converse(a, n, r, c);
                assert(all[a] == row[c]);
                assert(r * n + c == a);
            } else {
                assert(all[a] == prev[a]);
            }
        }
    }
}

impl<T: SparseScalar> CsrMatrix<T> {
    /// Success of the scatter: when every entry `(dof_map[i], dof_map[j])`
    /// is stored, every target of `scatter_add` can be added to, so that a
    /// scatter with `n * n` element values succeeds.
    pub proof fn law_scatter_add_succeeds(m: Self, ke: Seq<T>, dof_map: Seq<usize>)
        requires
            m.wf(),
            forall|i: int, j: int| 0 <= i < dof_map.len() && 0 <= j < dof_map.len()
                ==> #[trigger] m.stored(dof_map[i] as int, dof_map[j] as int),
        ensures
            m.targets_ok(full_scatter_targets(dof_map, ke, dof_map.len() as int)),
    {
        let n = dof_map.len() as int;
        let ts = full_scatter_targets(dof_map, ke, n);
        lemma_full_targets_at(dof_map, ke, n);
        assert forall|t: int| 0 <= t < ts.len() implies #[trigger] m.target_ok(ts[t]) by {
            lemma_square_position(t, n);
            let (r, c) = (dof_map[t / n] as int, dof_map[t % n] as int);
            assert(m.stored(r, c));
            m.lemma_slot(r, c);
        }
    }

    /// Scatter in row-major order: when `scatter_add` succeeds with
    /// distinct degrees of freedom, each global entry
    /// `(dof_map[i], dof_map[j])` has gained the element value at row `i`,
    /// column `j` of the row-major `ke`, that is `ke[i * n + j]`, and every
    /// stored entry outside the rows or columns of `dof_map` keeps its value.
    pub proof fn law_scatter_add_row_major(before: Self, after: Self, ke: Seq<T>, dof_map: Seq<usize>)
        requires
            before.wf(),
            after.same_pattern(&before),
            ke.len() == dof_map.len() * dof_map.len(),
            forall|a: int, b: int| 0 <= a < b < dof_map.len() ==> #[trigger] dof_map[a] != #[trigger] dof_map[b],
            forall|i: int, j: int| 0 <= i < dof_map.len() && 0 <= j < dof_map.len()
                ==> #[trigger] before.stored(dof_map[i] as int, dof_map[j] as int),
            added_in_order(
                before.values@,
                after.values@,
                before.target_updates(full_scatter_targets(dof_map, ke, dof_map.len() as int)),
            ),
        ensures
            forall|i: int, j: int| 0 <= i < dof_map.len() && 0 <= j < dof_map.len() ==> call_ensures(
                T::plus,
                (before.value_at(dof_map[i] as int, dof_map[j] as int), ke[i * dof_map.len() + j]),
                #[trigger] after.value_at(dof_map[i] as int, dof_map[j] as int),
            ),
            forall|r: int, c: int| #[trigger] before.stored(r, c) && (!dof_map.contains(r as usize) || !dof_map.contains(c as usize))
                ==> after.value_at(r, c) == before.value_at(r, c),
    {
        let n = dof_map.len() as int;
        let ts = full_scatter_targets(dof_map, ke, n);
        let ups = before.target_updates(ts);
        lemma_full_targets_at(dof_map, ke, n);
        assert forall|a: int| 0 <= a < ts.len() implies #[trigger] ups[a].0 == before.slot(
            dof_map[a / n] as int,
            dof_map[a % n] as int,
        ) && ups[a].1 == ke[a] && before.stored(dof_map[a / n] as int, dof_map[a % n] as int) by {
            lemma_square_position(a, n);
        }
        assert forall|a: int, b: int| 0 <= a < b < ups.len() implies #[trigger] ups[a].0 != #[trigger] ups[b].0 by {
            lemma_square_position(a, n);
            lemma_square_position(b, n);
            if ups[a].0 == ups[b].0 {
                crate::compressed::lemma_line_slot_injective(
                    before.row_ptr@,
                    before.col_idx@,
                    before.nrows as int,
                    before.ncols as int,
                    dof_map[a / n] as int,
                    dof_map[a % n] as int,
                    dof_map[b / n] as int,
                    dof_map[b % n] as int,
                );
                assert(a / n == b / n);
                assert(a % n == b % n);
            }
        }
        crate::scalar::lemma_added_distinct(before.values@, after.values@, ups);
        assert forall|i: int, j: int| 0 <= i < n && 0 <= j < n implies call_ensures(
            T::plus,
            (before.value_at(dof_map[i] as int, dof_map[j] as int), ke[i * n + j]),
            #[trigger] after.value_at(dof_map[i] as int, dof_map[j] as int),
        ) by {
            let a = i * n + j;
            lemma_index_in_square(i, j, n);
            vstd::arithmetic::div_mod::lemma_fundamental_div_mod_converse(a, n, i, j);
            assert(ups[a].0 == before.slot(dof_map[i] as int, dof_map[j] as int));
        }
        assert forall|r: int, c: int| #[trigger] before.stored(r, c) && (!dof_map.contains(r as usize) || !dof_map.contains(c as usize))
            implies after.value_at(r, c) == before.value_at(r, c) by {
            let k = before.slot(r, c);
            assert forall|t: int| 0 <= t < ups.len() implies #[trigger] ups[t].0 != k by {
                lemma_square_position(t, n);
                if ups[t].0 == k {
                    crate::compressed::lemma_line_slot_injective(
                        before.row_ptr@,
                        before.col_idx@,
                        before.nrows as int,
                        before.ncols as int,
                        dof_map[t / n] as int,
                        dof_map[t % n] as int,
                        r,
                        c,
                    );
                    assert(dof_map[t / n] == r as usize);
                    assert(dof_map[t % n] == c as usize);
                }
            }
            before.lemma_slot(r, c);
        }
    }
}

// -----------------------------------------------------------------
// Boundary conditions
// -----------------------------------------------------------------

impl<T: SparseScalar> CsrMatrix<T> {
    /// Storage index `k` holds an entry of column `col`.
    pub open spec fn in_column(&self, col: int, k: int) -> bool {
        exists|r: int| 0 <= r < self.nrows && #[trigger] is_line_slot(self.row_ptr@, self.col_idx@, r, col, k)
    }

    /// Storage index `k` lies in row `row`.
    pub open spec fn in_row(&self, row: int, k: int) -> bool {
        self.row_ptr@[row] <= k < self.row_ptr@[row + 1]
    }

    /// Apply a Dirichlet boundary condition to DOF `dof`: zero row `dof`
    /// and column `dof`, then set the diagonal to one with `set_value`.
    ///
    /// Errors: `RowOutOfRange` if `dof >= nrows` (nothing changed); the
    /// errors of `set_value` on the diagonal, `ColOutOfRange` or
    /// `IndexOutOfBounds`, after the row and column have been zeroed.
    pub fn zero_row_col(&mut self, dof: usize) -> (r: Result<(), SparseError>)
        requires
            old(self).wf(),
        ensures
            final(self).wf(),
            final(self).same_pattern(old(self)),
            dof >= old(self).nrows ==> r == Err::<(), SparseError>(SparseError::RowOutOfRange { row: dof, nrows: old(self).nrows })
                && final(self).values@ == old(self).values@,
            dof < old(self).nrows ==> {
                let diag_ok = dof < old(self).ncols && old(self).stored(dof as int, dof as int);
                &&& dof >= old(self).ncols ==> r == Err::<(), SparseError>(SparseError::ColOutOfRange { col: dof, ncols: old(self).ncols })
                &&& dof < old(self).ncols && !old(self).stored(dof as int, dof as int)
                    ==> r == Err::<(), SparseError>(SparseError::IndexOutOfBounds { row: dof, col: dof })
                &&& diag_ok ==> r is Ok
                &&& forall|k: int| 0 <= k < old(self).values@.len() ==> {
                    let v = #[trigger] final(self).values@[k];
                    if diag_ok && k == old(self).slot(dof as int, dof as int) {
                        is_one_value(v)
                    } else if old(self).in_row(dof as int, k) || old(self).in_column(dof as int, k) {
                        is_zero_value(v)
                    } else {
                        v == old(self).values@[k]
                    }
                }
            },
    {
        if dof >= self.nrows {
            return Err(SparseError::RowOutOfRange { row: dof, nrows: self.nrows });
        }
        proof {
            lemma_line_bounds(self.row_ptr@, self.col_idx@, self.nrows as int, self.ncols as int, dof as int);
        }
        let start = self.row_ptr[dof];
        let end = self.row_ptr[dof + 1];
        let mut idx = start;
        while idx < end
            invariant
                old(self).wf(),
                self.wf(),
                self.same_pattern(old(self)),
                dof < self.nrows,
                start == old(self).row_ptr@[dof as int],
                end == old(self).row_ptr@[dof + 1],
                start <= idx <= end <= self.values@.len(),
                forall|k: int| 0 <= k < self.values@.len() ==> {
                    let v = #[trigger] self.values@[k];
                    if start <= k < idx {
                        is_zero_value(v)
                    } else {
                        v == old(self).values@[k]
                    }
                },
            decreases end - idx,
        {
            let z = T::zero();
            self.values.set(idx, z);
            idx = idx + 1;
        }
        let mut row: usize = 0;
        while row < self.nrows
            invariant
                old(self).wf(),
                self.wf(),
                self.same_pattern(old(self)),
                dof < self.nrows,
                0 <= row <= self.nrows,
                start == old(self).row_ptr@[dof as int],
                end == old(self).row_ptr@[dof + 1],
                forall|k: int| 0 <= k < self.values@.len() ==> {
                    let v = #[trigger] self.values@[k];
                    if start <= k < end || (exists|r: int| 0 <= r < row && #[trigger] is_line_slot(old(self).row_ptr@, old(self).col_idx@, r, dof as int, k)) {
                        is_zero_value(v)
                    } else {
                        v == old(self).values@[k]
                    }
                },
            decreases self.nrows - row,
        {
            if row != dof {
                match self.find_idx(row, dof) {
                    Some(k) => {
                        proof {
                            self.lemma_slot(row as int, dof as int);
                        }
                        let z = T::zero();
                        let ghost prev = self.values@;
                        self.values.set(k, z);
                        proof {
                            assert(is_line_slot(old(self).row_ptr@, old(self).col_idx@, row as int, dof as int, k as int));
                            assert forall|kk: int| 0 <= kk < self.values@.len() implies {
                                let v = #[trigger] self.values@[kk];
                                if start <= kk < end || (exists|r: int| 0 <= r < row + 1 && #[trigger] is_line_slot(old(self).row_ptr@, old(self).col_idx@, r, dof as int, kk)) {
                                    is_zero_value(v)
                                } else {
                                    v == old(self).values@[kk]
                                }
                            } by {
                                if kk != k {
                                    assert(self.values@[kk] == prev[kk]);
                                    if exists|r: int| 0 <= r < row + 1 && #[trigger] is_line_slot(old(self).row_ptr@, old(self).col_idx@, r, dof as int, kk) {
                                        let r = choose|r: int| 0 <= r < row + 1 && #[trigger] is_line_slot(old(self).row_ptr@, old(self).col_idx@, r, dof as int, kk);
                                        if r == row {
                                            lemma_line_slot_unique(old(self).row_ptr@, old(self).col_idx@, old(self).nrows as int, old(self).ncols as int, r, dof as int, k as int, kk);
                                        }
                                        assert(0 <= r < row && is_line_slot(old(self).row_ptr@, old(self).col_idx@, r, dof as int, kk));
                                    }
                                }
                            }
                        }
                    },
                    None => {
                        proof {
                            assert forall|kk: int| 0 <= kk < self.values@.len() implies {
                                let v = #[trigger] self.values@[kk];
                                if start <= kk < end || (exists|r: int| 0 <= r < row + 1 && #[trigger] is_line_slot(old(self).row_ptr@, old(self).col_idx@, r, dof as int, kk)) {
                                    is_zero_value(v)
                                } else {
                                    v == old(self).values@[kk]
                                }
                            } by {
                                if exists|r: int| 0 <= r < row + 1 && #[trigger] is_line_slot(old(self).row_ptr@, old(self).col_idx@, r, dof as int, kk) {
                                    let r = choose|r: int| 0 <= r < row + 1 && #[trigger] is_line_slot(old(self).row_ptr@, old(self).col_idx@, r, dof as int, kk);
                                    if r == row {
                                        assert(is_line_slot(self.row_ptr@, self.col_idx@, row as int, dof as int, kk));
                                        assert(self.stored(row as int, dof as int));
                                    }
                                    assert(0 <= r < row && is_line_slot(old(self).row_ptr@, old(self).col_idx@, r, dof as int, kk));
                                }
                            }
                        }
                    },
                }
            } else {
                proof {
                    assert forall|kk: int| 0 <= kk < self.values@.len() implies {
                        let v = #[trigger] self.values@[kk];
                        if start <= kk < end || (exists|r: int| 0 <= r < row + 1 && #[trigger] is_line_slot(old(self).row_ptr@, old(self).col_idx@, r, dof as int, kk)) {
                            is_zero_value(v)
                        } else {
                            v == old(self).values@[kk]
                        }
                    } by {
                        if exists|r: int| 0 <= r < row + 1 && #[trigger] is_line_slot(old(self).row_ptr@, old(self).col_idx@, r, dof as int, kk) {
                            let r = choose|r: int| 0 <= r < row + 1 && #[trigger] is_line_slot(old(self).row_ptr@, old(self).col_idx@, r, dof as int, kk);
                            if r != row {
                                assert(0 <= r < row && is_line_slot(old(self).row_ptr@, old(self).col_idx@, r, dof as int, kk));
                            }
                        }
                    }
                }
            }
            row = row + 1;
        }
        let ghost before_one = self.values@;
        let one = T::one();
        let res = self.set_value(dof, dof, one);
        proof {
            let o = *old(self);
            assert forall|k: int| 0 <= k < o.values@.len() implies {
                let v = #[trigger] self.values@[k];
                if dof < o.ncols && o.stored(dof as int, dof as int) && k == o.slot(dof as int, dof as int) {
                    is_one_value(v)
                } else if o.in_row(dof as int, k) || o.in_column(dof as int, k) {
                    is_zero_value(v)
                } else {
                    v == o.values@[k]
                }
            } by {
                if o.in_column(dof as int, k) {
                    let r = choose|r: int| 0 <= r < o.nrows && #[trigger] is_line_slot(o.row_ptr@, o.col_idx@, r, dof as int, k);
                    assert(0 <= r < row && is_line_slot(o.row_ptr@, o.col_idx@, r, dof as int, k));
                }
                if exists|r: int| 0 <= r < row && #[trigger] is_line_slot(o.row_ptr@, o.col_idx@, r, dof as int, k) {
                    let r = choose|r: int| 0 <= r < row && #[trigger] is_line_slot(o.row_ptr@, o.col_idx@, r, dof as int, k);
                    assert(o.in_column(dof as int, k));
                }
                if dof < o.ncols && o.stored(dof as int, dof as int) {
                    o.lemma_slot(dof as int, dof as int);
                }
            }
        }
        res
    }
}

// -----------------------------------------------------------------
// Pattern from element connectivity
// -----------------------------------------------------------------

impl<T: SparseScalar> CsrMatrix<T> {
    /// Build the zero-valued pattern of a matrix assembled from elements:
    /// entry `(i, j)` is stored when DOFs `i` and `j` share an element
    /// (both triangles).
    ///
    /// Error: `ColOutOfRange` for the first DOF `>= n_dof`, scanning the
    /// elements in order.
    pub fn from_dof_connectivity(n_dof: usize, element_dofs: &[Vec<usize>]) -> (r: Result<Self, SparseError>)
        ensures
            (exists|e: int, a: int| #[trigger] dof_bad(element_dofs@, n_dof, e, a)) <==> r is Err,
            r matches Err(err) ==> exists|e: int, a: int| {
                &&& #[trigger] first_dof_bad(element_dofs@, n_dof, e, a)
                &&& err == SparseError::ColOutOfRange { col: element_dofs@[e]@[a], ncols: n_dof }
            },
            r matches Ok(m) ==> {
                &&& m.wf()
                &&& m.nrows == n_dof
                &&& m.ncols == n_dof
                &&& m.all_zero()
                &&& forall|i: int, c: usize| 0 <= i < n_dof ==> (#[trigger] m.stored(i, c as int) <==> dofs_coupled(element_dofs@, i as usize, c))
            },
    {
        let ghost elems = element_dofs@;
        let mut pattern: Vec<Vec<usize>> = Vec::new();
        let mut t: usize = 0;
        while t < n_dof
            invariant
                0 <= t <= n_dof,
                pattern@.len() == t,
                forall|q: int| 0 <= q < t ==> #[trigger] pattern@[q]@.len() == 0,
            decreases n_dof - t,
        {
            pattern.push(Vec::new());
            t = t + 1;
        }
        let mut e: usize = 0;
        while e < element_dofs.len()
            invariant
                elems == element_dofs@,
                0 <= e <= elems.len(),
                pattern@.len() == n_dof,
                forall|e2: int, a2: int| e2 < e ==> !#[trigger] dof_bad(elems, n_dof, e2, a2),
                forall|i: int, c: usize| 0 <= i < n_dof && #[trigger] pattern@[i]@.contains(c) ==>
                    dofs_coupled(elems, i as usize, c) && c < n_dof,
                forall|e2: int, i: usize, c: usize|
                    #![trigger elems[e2]@.contains(i), elems[e2]@.contains(c)]
                    0 <= e2 < e && elems[e2]@.contains(i) && elems[e2]@.contains(c) && i < n_dof
                        ==> pattern@[i as int]@.contains(c),
            decreases elems.len() - e,
        {
            let dofs = &element_dofs[e];
            let mut a: usize = 0;
            while a < dofs.len()
                invariant
                    elems == element_dofs@,
                    0 <= e < elems.len(),
                    dofs == elems[e as int],
                    0 <= a <= dofs@.len(),
                    pattern@.len() == n_dof,
                    forall|e2: int, a2: int| e2 < e ==> !#[trigger] dof_bad(elems, n_dof, e2, a2),
                    forall|a2: int| 0 <= a2 < dofs@.len() && a > 0 ==> !#[trigger] dof_bad(elems, n_dof, e as int, a2),
                    forall|i: int, c: usize| 0 <= i < n_dof && #[trigger] pattern@[i]@.contains(c) ==>
                        dofs_coupled(elems, i as usize, c) && c < n_dof,
                    forall|e2: int, i: usize, c: usize|
                        #![trigger elems[e2]@.contains(i), elems[e2]@.contains(c)]
                        0 <= e2 < e && elems[e2]@.contains(i) && elems[e2]@.contains(c) && i < n_dof
                            ==> pattern@[i as int]@.contains(c),
                    forall|a2: int| 0 <= a2 < a ==> #[trigger] dofs@[a2] < n_dof,
                    forall|a2: int, c: usize|
                        #![trigger dofs@[a2], dofs@.contains(c)]
                        0 <= a2 < a && dofs@.contains(c) ==> pattern@[dofs@[a2] as int]@.contains(c),
                decreases dofs@.len() - a,
            {
                let i = dofs[a];
                if i >= n_dof {
                    proof {
                        assert(dof_bad(elems, n_dof, e as int, a as int));
                        assert(a == 0);
                        assert(first_dof_bad(elems, n_dof, e as int, a as int));
                    }
                    return Err(SparseError::ColOutOfRange { col: i, ncols: n_dof });
                }
                let mut b: usize = 0;
                while b < dofs.len()
                    invariant
                        elems == element_dofs@,
                        0 <= e < elems.len(),
                        dofs == elems[e as int],
                        0 <= a < dofs@.len(),
                        i == dofs@[a as int],
                        i < n_dof,
                        0 <= b <= dofs@.len(),
                        pattern@.len() == n_dof,
                        forall|e2: int, a2: int| e2 < e ==> !#[trigger] dof_bad(elems, n_dof, e2, a2),
                        forall|a2: int| 0 <= a2 < dofs@.len() && a > 0 ==> !#[trigger] dof_bad(elems, n_dof, e as int, a2),
                        forall|b2: int| 0 <= b2 < b ==> !#[trigger] dof_bad(elems, n_dof, e as int, b2),
                        forall|i2: int, c: usize| 0 <= i2 < n_dof && #[trigger] pattern@[i2]@.contains(c) ==>
                            dofs_coupled(elems, i2 as usize, c) && c < n_dof,
                        forall|e2: int, i2: usize, c: usize|
                            #![trigger elems[e2]@.contains(i2), elems[e2]@.contains(c)]
                            0 <= e2 < e && elems[e2]@.contains(i2) && elems[e2]@.contains(c) && i2 < n_dof
                                ==> pattern@[i2 as int]@.contains(c),
                        forall|a2: int| 0 <= a2 < a ==> #[trigger] dofs@[a2] < n_dof,
                        forall|a2: int, c: usize|
                            #![trigger dofs@[a2], dofs@.contains(c)]
                            0 <= a2 < a && dofs@.contains(c) ==> pattern@[dofs@[a2] as int]@.contains(c),
                        forall|b2: int| 0 <= b2 < b ==> #[trigger] pattern@[i as int]@.contains(dofs@[b2]),
                    decreases dofs@.len() - b,
                {
                    let j = dofs[b];
                    if j >= n_dof {
                        proof {
                            assert(dof_bad(elems, n_dof, e as int, b as int));
                            assert(a == 0);
                            assert(first_dof_bad(elems, n_dof, e as int, b as int));
                        }
                        return Err(SparseError::ColOutOfRange { col: j, ncols: n_dof });
                    }
                    let ghost before = pattern@;
                    pattern[i].push(j);
                    proof {
                        assert(elems[e as int]@.contains(j));
                        assert(elems[e as int]@.contains(i));
                        assert(dofs_coupled(elems, i, j));
                        lemma_pattern_push(before, pattern@, i as int, j);
                    }
                    b = b + 1;
                }
                proof {
                    assert forall|c: usize| #[trigger] dofs@.contains(c) implies pattern@[i as int]@.contains(c) by {
                        let b2 = choose|b2: int| 0 <= b2 < dofs@.len() && dofs@[b2] == c;
                        assert(pattern@[i as int]@.contains(dofs@[b2]));
                    }
                }
                a = a + 1;
            }
            proof {
                assert forall|e2: int, i2: usize, c: usize|
                    #![trigger elems[e2]@.contains(i2), elems[e2]@.contains(c)]
                    0 <= e2 < e + 1 && elems[e2]@.contains(i2) && elems[e2]@.contains(c) && i2 < n_dof
                        implies pattern@[i2 as int]@.contains(c) by {
                    if e2 == e {
                        let a2 = choose|a2: int| 0 <= a2 < dofs@.len() && dofs@[a2] == i2;
                        assert(pattern@[dofs@[a2] as int]@.contains(c));
                    }
                }
                assert forall|e2: int, a2: int| e2 < e + 1 implies !#[trigger] dof_bad(elems, n_dof, e2, a2) by {
                    if e2 == e && dofs@.len() > 0 {
                        assert(!dof_bad(elems, n_dof, e as int, a2));
                    }
                }
            }
            e = e + 1;
        }
        proof {
            assert(!exists|e: int, a: int| #[trigger] dof_bad(elems, n_dof, e, a));
            assert forall|r: int, k: int| !#[trigger] pattern_entry_bad(n_dof, pattern@, r, k) by {
                if 0 <= r < pattern@.len() && 0 <= k < pattern@[r]@.len() {
                    assert(pattern@[r]@.contains(pattern@[r]@[k]));
                }
            }
        }
        let res = Self::from_pattern(n_dof, n_dof, &pattern);
        match res {
            Ok(m) => {
                proof {
                    assert forall|i: int, c: usize| 0 <= i < n_dof implies (#[trigger] m.stored(i, c as int) <==> dofs_coupled(elems, i as usize, c)) by {
                        if dofs_coupled(elems, i as usize, c) {
                            let e2 = choose|e2: int| 0 <= e2 < elems.len() && #[trigger] elems[e2]@.contains(i as usize)
                                && elems[e2]@.contains(c);
                            assert(pattern@[i]@.contains(c));
                        }
                    }
                }
                Ok(m)
            },
            Err(err) => {
                proof {
                    assert(false);
                }
                Err(err)
            },
        }
    }
}

// -----------------------------------------------------------------
// Laws
// -----------------------------------------------------------------

impl<T: SparseScalar> CsrMatrix<T> {
    /// The assembly pattern covers its elements: a matrix built by
    /// `from_dof_connectivity(n_dof, element_dofs)` stores every entry
    /// `(dofs[a], dofs[b])` of every element `dofs`, so that scattering an
    /// element matrix of any of the elements succeeds.
    pub proof fn law_connectivity_covers_elements(m: Self, n_dof: usize, element_dofs: Seq<Vec<usize>>, e: int, ke: Seq<T>)
        requires
            m.wf(),
            m.nrows == n_dof,
            forall|i: int, c: usize| 0 <= i < n_dof ==> (#[trigger] m.stored(i, c as int) <==> dofs_coupled(element_dofs, i as usize, c)),
            !exists|e2: int, a: int| #[trigger] dof_bad(element_dofs, n_dof, e2, a),
            0 <= e < element_dofs.len(),
        ensures
            forall|a: int, b: int| 0 <= a < element_dofs[e]@.len() && 0 <= b < element_dofs[e]@.len()
                ==> #[trigger] m.stored(element_dofs[e]@[a] as int, element_dofs[e]@[b] as int),
            m.targets_ok(full_scatter_targets(element_dofs[e]@, ke, element_dofs[e]@.len() as int)),
    {
        let dofs = element_dofs[e]@;
        assert forall|a: int, b: int| 0 <= a < dofs.len() && 0 <= b < dofs.len()
            implies #[trigger] m.stored(dofs[a] as int, dofs[b] as int) by {
            assert(!dof_bad(element_dofs, n_dof, e, a));
            assert(dofs.contains(dofs[a]) && dofs.contains(dofs[b]));
            assert(dofs_coupled(element_dofs, dofs[a], dofs[b]));
        }
        Self::law_scatter_add_succeeds(m, ke, dofs);
    }

    /// Dirichlet condition on the stored entries: after a successful
    /// `zero_row_col(dof)` the diagonal entry `(dof, dof)` is one, every
    /// other stored entry of row `dof` or of column `dof` is zero, and every
    /// entry outside them keeps its value.
    pub proof fn law_zero_row_col_entries(before: Self, after: Self, dof: int)
        requires
            before.wf(),
            after.same_pattern(&before),
            0 <= dof < before.nrows,
            dof < before.ncols,
            before.stored(dof, dof),
            forall|k: int| 0 <= k < before.values@.len() ==> {
                let v = #[trigger] after.values@[k];
                if k == before.slot(dof, dof) {
                    is_one_value(v)
                } else if before.in_row(dof, k) || before.in_column(dof, k) {
                    is_zero_value(v)
                } else {
                    v == before.values@[k]
                }
            },
        ensures
            forall|r: int, c: int| #[trigger] before.stored(r, c) ==> {
                let v = after.value_at(r, c);
                &&& r == dof && c == dof ==> is_one_value(v)
                &&& (r == dof) != (c == dof) ==> is_zero_value(v)
                &&& r != dof && c != dof ==> v == before.value_at(r, c)
            },
    {
        before.lemma_slot(dof, dof);
        assert forall|r: int, c: int| #[trigger] before.stored(r, c) implies {
            let v = after.value_at(r, c);
            &&& r == dof && c == dof ==> is_one_value(v)
            &&& (r == dof) != (c == dof) ==> is_zero_value(v)
            &&& r != dof && c != dof ==> v == before.value_at(r, c)
        } by {
            before.lemma_slot(r, c);
            let k = before.slot(r, c);
            assert(after.slot(r, c) == k);
            assert(after.values@[k] == after.values@[k]);
            if (r, c) != (dof, dof) && k == before.slot(dof, dof) {
                crate::compressed::lemma_line_slot_injective(
                    before.row_ptr@, before.col_idx@, before.nrows as int, before.ncols as int, r, c, dof, dof);
            }
            if c == dof && r != dof {
                assert(is_line_slot(before.row_ptr@, before.col_idx@, r, dof, k));
                assert(before.in_column(dof, k));
            }
            if r != dof && c != dof {
                if r < dof {
                    crate::compressed::lemma_lines_disjoint(
                        before.row_ptr@, before.col_idx@, before.nrows as int, before.ncols as int, r, dof);
                } else {
                    crate::compressed::lemma_lines_disjoint(
                        before.row_ptr@, before.col_idx@, before.nrows as int, before.ncols as int, dof, r);
                }
                assert(!before.in_row(dof, k));
                if before.in_column(dof, k) {
                    let r2 = choose|r2: int| 0 <= r2 < before.nrows && #[trigger] is_line_slot(before.row_ptr@, before.col_idx@, r2, dof, k);
                    assert(before.col_idx@[k] == dof);
                }
            }
        }
    }

    /// Read after write: once `set_value(r, c, v)` has succeeded, entry
    /// `(r, c)` holds `v` and every other stored entry is unchanged.
    pub proof fn lemma_set_then_get(before: Self, after: Self, r: int, c: int, v: T)
        requires
            before.wf(),
            before.stored(r, c),
            after.same_pattern(&before),
            after.values@ == before.values@.update(before.slot(r, c), v),
        ensures
            after.stored(r, c),
            after.value_at(r, c) == v,
            forall|a: int, b: int| #[trigger] before.stored(a, b) && (a, b) != (r, c) ==>
                after.stored(a, b) && after.value_at(a, b) == before.value_at(a, b),
    {
        before.lemma_slot(r, c);
        assert forall|a: int, b: int| #[trigger] before.stored(a, b) && (a, b) != (r, c) implies
            after.stored(a, b) && after.value_at(a, b) == before.value_at(a, b) by {
            before.lemma_slot(a, b);
            if before.slot(a, b) == before.slot(r, c) {
                crate::compressed::lemma_line_slot_injective(
                    before.row_ptr@, before.col_idx@, before.nrows as int, before.ncols as int, a, b, r, c);
            }
        }
    }
}

} // verus!
