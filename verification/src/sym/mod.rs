//! Symmetric compressed sparse row storage: upper triangle only.
pub mod ops;
pub mod iter;

use vstd::prelude::*;
use crate::error::SparseError;
use crate::rows::{strictly_sorted, normalize_indices, search_run};
use crate::scalar::{zero_is_unique, SparseScalar, is_zero_value, is_one_value, added_in_order, lemma_added_step, lemma_added_none, lemma_added_len};
use crate::text::{printout, render_rows};

verus! {

// -----------------------------------------------------------------
// Raw-array model
// -----------------------------------------------------------------

/// Row `r` of the raw arrays is a well-formed upper-triangle row of an
/// `n x n` matrix: non-empty, starting with the diagonal, columns in
/// `[r, n)` and strictly increasing.
pub open spec fn upper_row_ok(rp: Seq<usize>, ci: Seq<usize>, n: int, r: int) -> bool {
    &&& rp[r] < rp[r + 1] <= ci.len()
    &&& ci[rp[r] as int] == r
    &&& forall|k: int| rp[r] <= k < rp[r + 1] ==> r <= #[trigger] ci[k] < n
    &&& forall|a: int, b: int| rp[r] <= a < b < rp[r + 1] ==> #[trigger] ci[a] < #[trigger] ci[b]
}

/// Row pointers of `n` rows: `n + 1` entries, starting at zero,
/// non-decreasing.
pub open spec fn row_ptr_ok(rp: Seq<usize>, n: int) -> bool {
    &&& rp.len() == n + 1
    &&& rp[0] == 0
    &&& forall|a: int, b: int| 0 <= a <= b <= n ==> #[trigger] rp[a] <= #[trigger] rp[b]
}

/// The raw arrays form a well-formed symmetric (upper-triangle) matrix.
pub open spec fn sym_arrays_ok(rp: Seq<usize>, ci: Seq<usize>, nvals: int, n: int) -> bool {
    &&& row_ptr_ok(rp, n)
    &&& rp[n] == ci.len()
    &&& nvals == ci.len()
    &&& forall|r: int| 0 <= r < n ==> #[trigger] upper_row_ok(rp, ci, n, r)
}

/// Column `c` is stored in row `r` of the raw arrays.
pub open spec fn row_has(rp: Seq<usize>, ci: Seq<usize>, r: int, c: int) -> bool {
    exists|k: int| rp[r] <= k < rp[r + 1] && #[trigger] ci[k] == c
}

// -----------------------------------------------------------------
// Errors of `from_pattern`
// -----------------------------------------------------------------

/// Entry `k` of row `r` of an upper-triangle pattern is rejected.
pub open spec fn upper_entry_bad(n: usize, pattern: Seq<Vec<usize>>, r: int, k: int) -> bool {
    &&& 0 <= r < pattern.len()
    &&& 0 <= k < pattern[r]@.len()
    &&& (pattern[r]@[k] >= n || pattern[r]@[k] < r)
}

/// The error reported for a rejected pattern entry.
pub open spec fn upper_entry_error(n: usize, pattern: Seq<Vec<usize>>, r: int, k: int) -> SparseError {
    let c = pattern[r]@[k];
    if c >= n {
        SparseError::ColOutOfRange { col: c, ncols: n }
    } else {
        SparseError::LowerTriangleEntry { row: r as usize, col: c }
    }
}

/// `(r, k)` is the first rejected entry in row-major order.
pub open spec fn first_upper_bad(n: usize, pattern: Seq<Vec<usize>>, r: int, k: int) -> bool {
    &&& upper_entry_bad(n, pattern, r, k)
    &&& forall|r2: int, k2: int|
        (r2 < r || (r2 == r && k2 < k)) ==> !#[trigger] upper_entry_bad(n, pattern, r2, k2)
}

/// Some entry of the pattern is rejected.
pub open spec fn upper_pattern_has_bad(n: usize, pattern: Seq<Vec<usize>>) -> bool {
    exists|r: int, k: int| #[trigger] upper_entry_bad(n, pattern, r, k)
}

// -----------------------------------------------------------------
// The matrix
// -----------------------------------------------------------------

/// Symmetric Compressed Sparse Row matrix — upper triangle storage only.
///
/// For every stored entry `(i, j)`, `j >= i`.  The full matrix is
/// implicitly `A[i,j] = A[j,i]`.  Within each row the columns are sorted
/// ascending and unique, and the diagonal entry is always present.
#[derive(Debug, Clone)]
pub struct SymCsrMatrix<T> {
    pub values: Vec<T>,
    pub col_idx: Vec<usize>,
    pub row_ptr: Vec<usize>,
    /// Dimension of the square matrix.
    pub n: usize,
}

impl<T> SymCsrMatrix<T> {
    /// Well-formedness: the invariants listed on the type.
    pub open spec fn wf(&self) -> bool {
        sym_arrays_ok(self.row_ptr@, self.col_idx@, self.values@.len() as int, self.n as int)
    }

    /// First storage index of row `r`.
    pub open spec fn start(&self, r: int) -> int {
        self.row_ptr@[r] as int
    }

    /// One past the last storage index of row `r`.
    pub open spec fn end(&self, r: int) -> int {
        self.row_ptr@[r + 1] as int
    }

    /// Storage index `k` holds entry `(r, c)`.
    pub open spec fn is_slot(&self, r: int, c: int, k: int) -> bool {
        &&& self.start(r) <= k < self.end(r)
        &&& self.col_idx@[k] == c
    }

    /// Entry `(r, c)` belongs to the stored (upper-triangle) pattern.
    pub open spec fn stored(&self, r: int, c: int) -> bool {
        &&& 0 <= r < self.n
        &&& exists|k: int| #[trigger] self.is_slot(r, c, k)
    }

    /// Storage index of a stored entry.
    pub open spec fn slot(&self, r: int, c: int) -> int {
        choose|k: int| #[trigger] self.is_slot(r, c, k)
    }

    /// Stored value of entry `(r, c)`.
    pub open spec fn value_at(&self, r: int, c: int) -> T {
        self.values@[self.slot(r, c)]
    }

    /// Same pattern (dimension, row pointers, column indices) as `other`.
    pub open spec fn same_pattern(&self, other: &Self) -> bool {
        &&& self.n == other.n
        &&& self.row_ptr@ == other.row_ptr@
        &&& self.col_idx@ == other.col_idx@
        &&& self.values@.len() == other.values@.len()
    }

    /// Within one row, a storage index determines the entry and vice versa.
    pub proof fn lemma_slot_unique(&self, r: int, c: int, k1: int, k2: int)
        requires
            self.wf(),
            0 <= r < self.n,
            self.is_slot(r, c, k1),
            self.is_slot(r, c, k2),
        ensures
            k1 == k2,
    {
        assert(upper_row_ok(self.row_ptr@, self.col_idx@, self.n as int, r));
        if k1 < k2 {
            assert(self.col_idx@[k1] < self.col_idx@[k2]);
        } else if k2 < k1 {
            assert(self.col_idx@[k2] < self.col_idx@[k1]);
        }
    }

    /// A stored entry's slot is the unique storage index holding it.
    pub proof fn lemma_slot_is(&self, r: int, c: int, k: int)
        requires
            self.wf(),
            0 <= r < self.n,
            self.is_slot(r, c, k),
        ensures
            self.stored(r, c),
            self.slot(r, c) == k,
            self.value_at(r, c) == self.values@[k],
    {
        assert(self.is_slot(r, c, k));
        let s = self.slot(r, c);
        self.lemma_slot_unique(r, c, s, k);
    }

    /// `lemma_same_pattern_slot` for every entry.
    pub proof fn lemma_same_pattern_slot_all(&self, other: Self)
        requires
            self.wf(),
            self.same_pattern(&other),
        ensures
            forall|r: int, c: int| 0 <= r < self.n ==> (#[trigger] self.stored(r, c) <==> other.stored(r, c)),
            forall|r: int, c: int| 0 <= r < self.n && self.stored(r, c) ==> #[trigger] self.slot(r, c) == other.slot(r, c),
    {
        assert forall|r: int, c: int| 0 <= r < self.n implies (#[trigger] self.stored(r, c) <==> other.stored(r, c)) by {
            self.lemma_same_pattern_slot(other, r, c);
        }
        assert forall|r: int, c: int| 0 <= r < self.n && self.stored(r, c) implies #[trigger] self.slot(r, c) == other.slot(r, c) by {
            self.lemma_same_pattern_slot(other, r, c);
        }
    }

    /// Rows occupy consecutive, disjoint storage ranges.
    pub proof fn lemma_rows_disjoint(&self, r1: int, r2: int)
        requires
            self.wf(),
            0 <= r1 < r2 < self.n,
        ensures
            self.end(r1) <= self.start(r2),
    {
        assert(self.row_ptr@[r1 + 1] <= self.row_ptr@[r2]);
    }

    /// The row whose storage range holds index `t`.
    pub open spec fn row_of(&self, t: int) -> int {
        choose|a: int| 0 <= a < self.n && #[trigger] self.start(a) <= t < self.end(a)
    }

    /// Every storage index belongs to some row.
    pub proof fn lemma_row_of(&self, t: int)
        requires
            self.wf(),
            0 <= t < self.col_idx@.len(),
        ensures
            0 <= self.row_of(t) < self.n,
            self.start(self.row_of(t)) <= t < self.end(self.row_of(t)),
            self.is_slot(self.row_of(t), self.col_idx@[t] as int, t),
    {
        self.lemma_row_search(t, 0);
    }

    proof fn lemma_row_search(&self, t: int, a: int)
        requires
            self.wf(),
            0 <= t < self.col_idx@.len(),
            0 <= a <= self.n,
            self.start(a) <= t,
        ensures
            exists|b: int| 0 <= b < self.n && #[trigger] self.start(b) <= t < self.end(b),
        decreases self.n - a,
    {
        if a == self.n {
            assert(self.row_ptr@[self.n as int] == self.col_idx@.len());
        } else if t < self.end(a) {
            assert(0 <= a < self.n && self.start(a) <= t < self.end(a));
        } else {
            self.lemma_row_search(t, a + 1);
        }
    }

    /// The row of a storage index is the row whose range holds it.
    pub proof fn lemma_row_of_is(&self, t: int, r: int)
        requires
            self.wf(),
            0 <= r < self.n,
            self.start(r) <= t < self.end(r),
        ensures
            self.row_of(t) == r,
    {
        self.lemma_row_bounds(r);
        self.lemma_row_of(t);
        let a = self.row_of(t);
        if a < r {
            self.lemma_rows_disjoint(a, r);
        } else if a > r {
            self.lemma_rows_disjoint(r, a);
        }
    }

    /// Distinct stored entries occupy distinct storage indices.
    pub proof fn lemma_slot_injective(&self, r1: int, c1: int, r2: int, c2: int)
        requires
            self.wf(),
            0 <= r1 < self.n,
            0 <= r2 < self.n,
            self.stored(r1, c1),
            self.stored(r2, c2),
            self.slot(r1, c1) == self.slot(r2, c2),
        ensures
            r1 == r2,
            c1 == c2,
    {
        let t = self.slot(r1, c1);
        assert(self.is_slot(r1, c1, t));
        assert(self.is_slot(r2, c2, t));
        if r1 < r2 {
            self.lemma_rows_disjoint(r1, r2);
        } else if r2 < r1 {
            self.lemma_rows_disjoint(r2, r1);
        }
    }

    /// Row pointers are bounded by the number of stored entries.
    pub proof fn lemma_row_bounds(&self, r: int)
        requires
            self.wf(),
            0 <= r < self.n,
        ensures
            0 <= self.start(r) < self.end(r) <= self.col_idx@.len(),
            self.col_idx@[self.start(r)] == r,
    {
        assert(upper_row_ok(self.row_ptr@, self.col_idx@, self.n as int, r));
    }
}

impl<T> SymCsrMatrix<T> {
    /// Matrices with the same pattern store the same entries at the same
    /// storage indices.
    pub proof fn lemma_same_pattern_slot(&self, other: Self, r: int, c: int)
        requires
            self.wf(),
            self.same_pattern(&other),
            0 <= r < self.n,
        ensures
            self.stored(r, c) <==> other.stored(r, c),
            self.stored(r, c) ==> self.slot(r, c) == other.slot(r, c),
    {
        if self.stored(r, c) {
            let k = self.slot(r, c);
            assert(other.is_slot(r, c, k));
            let k2 = other.slot(r, c);
            assert(self.is_slot(r, c, k2));
            self.lemma_slot_unique(r, c, k, k2);
        }
        if other.stored(r, c) {
            let k2 = other.slot(r, c);
            assert(self.is_slot(r, c, k2));
        }
    }
}

impl<T: SparseScalar> SymCsrMatrix<T> {
    /// Every stored value is the same zero value.
    pub open spec fn all_zero(&self) -> bool {
        &&& forall|k: int| 0 <= k < self.values@.len() ==> is_zero_value(#[trigger] self.values@[k])
        &&& forall|a: int, b: int|
            0 <= a < self.values@.len() && 0 <= b < self.values@.len() ==> #[trigger] self.values@[a]
                == #[trigger] self.values@[b]
    }

    // -------------------------------------------------------------
    // Construction
    // -------------------------------------------------------------

    /// Build a zero-valued symmetric CSR matrix from an upper-triangle
    /// pattern.  `pattern[i]` lists the columns of row `i`; duplicates and
    /// unsorted entries are accepted, and the diagonal is added if missing.
    ///
    /// Errors: `PatternLengthMismatch` if `pattern.len() != n`; otherwise the
    /// first entry (row-major) with a column `>= n` (`ColOutOfRange`) or
    /// below its row (`LowerTriangleEntry`).
    pub fn from_pattern(n: usize, pattern: &[Vec<usize>]) -> (r: Result<Self, SparseError>)
        ensures
            pattern@.len() != n ==> r == Err::<Self, SparseError>(
                SparseError::PatternLengthMismatch { pattern_len: pattern@.len() as usize, nrows: n },
            ),
            pattern@.len() == n ==> (r is Ok <==> !upper_pattern_has_bad(n, pattern@)),
            r matches Err(e) ==> (pattern@.len() == n ==> exists|i: int, k: int|
                first_upper_bad(n, pattern@, i, k) && e == upper_entry_error(n, pattern@, i, k)),
            r matches Ok(m) ==> {
                &&& m.wf()
                &&& m.n == n
                &&& m.all_zero()
                &&& forall|i: int, c: usize|
                    0 <= i < n ==> (m.stored(i, c as int) <==> (pattern@[i]@.contains(c) || c == i))
            },
    {
        if pattern.len() != n {
            return Err(SparseError::PatternLengthMismatch { pattern_len: pattern.len(), nrows: n });
        }
        let mut row_ptr: Vec<usize> = Vec::new();
        let mut col_idx: Vec<usize> = Vec::new();
        row_ptr.push(0);
        let mut row: usize = 0;
        while row < n
            invariant
                pattern@.len() == n,
                0 <= row <= n,
                row_ptr@.len() == row + 1,
                row_ptr@[0] == 0,
                forall|a: int, b: int| 0 <= a <= b <= row ==> #[trigger] row_ptr@[a] <= #[trigger] row_ptr@[b],
                row_ptr@[row as int] == col_idx@.len(),
                forall|r: int| 0 <= r < row ==> #[trigger] upper_row_ok(row_ptr@, col_idx@, n as int, r),
                forall|r: int, c: usize|
                    0 <= r < row ==> (#[trigger] row_has(row_ptr@, col_idx@, r, c as int) <==> (
                    pattern@[r]@.contains(c) || c == r)),
                forall|r: int, k: int| r < row ==> !#[trigger] upper_entry_bad(n, pattern@, r, k),
            decreases n - row,
        {
            let cols = &pattern[row];
            let mut k: usize = 0;
            while k < cols.len()
                invariant
                    pattern@.len() == n,
                    row < n,
                    cols == pattern@[row as int],
                    0 <= k <= cols@.len(),
                    forall|r: int, j: int| r < row ==> !#[trigger] upper_entry_bad(n, pattern@, r, j),
                    forall|j: int| 0 <= j < k ==> !#[trigger] upper_entry_bad(n, pattern@, row as int, j),
                decreases cols@.len() - k,
            {
                let c = cols[k];
                if c >= n || c < row {
                    proof {
                        assert(upper_entry_bad(n, pattern@, row as int, k as int));
                        assert(first_upper_bad(n, pattern@, row as int, k as int));
                    }
                    if c >= n {
                        return Err(SparseError::ColOutOfRange { col: c, ncols: n });
                    }
                    return Err(SparseError::LowerTriangleEntry { row: row, col: c });
                }
                k = k + 1;
            }
            let mut normalized = normalize_indices(cols, Some(row));
            let ghost old_ci = col_idx@;
            let ghost old_rp = row_ptr@;
            let ghost v = normalized@;
            proof {
                // every normalised column lies in [row, n)
                assert forall|j: int| 0 <= j < v.len() implies row <= #[trigger] v[j] < n by {
                    assert(v.contains(v[j]));
                    if v[j] != row {
                        let kk = choose|kk: int| 0 <= kk < cols@.len() && cols@[kk] == v[j];
                        assert(!upper_entry_bad(n, pattern@, row as int, kk));
                    }
                }
                assert(v.contains(row));
                let d = choose|d: int| 0 <= d < v.len() && v[d] == row;
                if d > 0 {
                    assert(v[0] < v[d]);
                }
            }
            col_idx.append(&mut normalized);
            let len = col_idx.len();
            row_ptr.push(len);
            proof {
                let rp = row_ptr@;
                let ci = col_idx@;
                assert(ci =~= old_ci + v);
                assert forall|a: int, b: int| 0 <= a <= b <= row + 1 implies #[trigger] rp[a] <= #[trigger] rp[b] by {
                    if b <= row {
                        assert(old_rp[a] <= old_rp[b]);
                    } else if a <= row {
                        assert(old_rp[a] <= old_rp[row as int]);
                    }
                }
                assert forall|r: int| 0 <= r < row + 1 implies #[trigger] upper_row_ok(rp, ci, n as int, r) by {
                    if r < row {
                        assert(upper_row_ok(old_rp, old_ci, n as int, r));
                        assert(old_rp[r + 1] <= old_rp[row as int]);
                        assert forall|j: int| rp[r] <= j < rp[r + 1] implies r <= #[trigger] ci[j] < n by {
                            assert(ci[j] == old_ci[j]);
                        }
                        assert forall|a: int, b: int| rp[r] <= a < b < rp[r + 1] implies #[trigger] ci[a] < #[trigger] ci[b] by {
                            assert(ci[a] == old_ci[a]);
                            assert(ci[b] == old_ci[b]);
                        }
                    } else {
                        assert(ci[rp[r] as int] == v[0]);
                        assert forall|j: int| rp[r] <= j < rp[r + 1] implies r <= #[trigger] ci[j] < n by {
                            assert(ci[j] == v[j - old_ci.len()]);
                        }
                        assert forall|a: int, b: int| rp[r] <= a < b < rp[r + 1] implies #[trigger] ci[a] < #[trigger] ci[b] by {
                            assert(ci[a] == v[a - old_ci.len()]);
                            assert(ci[b] == v[b - old_ci.len()]);
                        }
                    }
                }
                assert forall|r: int, c: usize| 0 <= r < row + 1 implies (#[trigger] row_has(rp, ci, r, c as int) <==> (
                pattern@[r]@.contains(c) || c == r)) by {
                    if r < row {
                        assert(old_rp[r + 1] <= old_rp[row as int]);
                        assert(row_has(old_rp, old_ci, r, c as int) <==> (pattern@[r]@.contains(c) || c == r));
                        if row_has(rp, ci, r, c as int) {
                            let j = choose|j: int| rp[r] <= j < rp[r + 1] && #[trigger] ci[j] == c;
                            assert(old_ci[j] == c);
                        }
                        if row_has(old_rp, old_ci, r, c as int) {
                            let j = choose|j: int| old_rp[r] <= j < old_rp[r + 1] && #[trigger] old_ci[j] == c;
                            assert(ci[j] == c);
                        }
                    } else {
                        if row_has(rp, ci, r, c as int) {
                            let j = choose|j: int| rp[r] <= j < rp[r + 1] && #[trigger] ci[j] == c;
                            assert(v[j - old_ci.len()] == c);
                            assert(v.contains(c));
                        }
                        if v.contains(c) {
                            let j = choose|j: int| 0 <= j < v.len() && v[j] == c;
                            assert(ci[j + old_ci.len()] == c);
                        }
                    }
                }
            }
            row = row + 1;
        }
        let nnz = col_idx.len();
        let z = T::zero();
        let mut values: Vec<T> = Vec::new();
        let mut i: usize = 0;
        while i < nnz
            invariant
                0 <= i <= nnz,
                values@.len() == i,
                call_ensures(T::zero, (), z),
                forall|k: int| 0 <= k < i ==> values@[k] == z,
            decreases nnz - i,
        {
            values.push(z);
            i = i + 1;
        }
        let m = SymCsrMatrix { values, col_idx, row_ptr, n };
        proof {
            assert(!upper_pattern_has_bad(n, pattern@));
            assert forall|i: int, c: usize| 0 <= i < n implies (m.stored(i, c as int) <==> (
            pattern@[i]@.contains(c) || c == i)) by {
                assert(row_has(m.row_ptr@, m.col_idx@, i, c as int) <==> (pattern@[i]@.contains(c) || c == i));
                if m.stored(i, c as int) {
                    let k = choose|k: int| #[trigger] m.is_slot(i, c as int, k);
                    assert(m.col_idx@[k] == c);
                }
                if row_has(m.row_ptr@, m.col_idx@, i, c as int) {
                    let k = choose|k: int| m.row_ptr@[i] <= k < m.row_ptr@[i + 1] && #[trigger] m.col_idx@[k] == c;
                    assert(m.is_slot(i, c as int, k));
                }
            }
        }
        Ok(m)
    }
}


/// The error `check_upper` reports for `(row, col)` in an `n x n` matrix, if any.
pub open spec fn upper_check(n: usize, row: usize, col: usize) -> Option<SparseError> {
    if row >= n {
        Some(SparseError::RowOutOfRange { row, nrows: n })
    } else if col >= n {
        Some(SparseError::ColOutOfRange { col, ncols: n })
    } else if col < row {
        Some(SparseError::LowerTriangleEntry { row, col })
    } else {
        None
    }
}

impl<T: SparseScalar> SymCsrMatrix<T> {
    // -------------------------------------------------------------
    // Accessors
    // -------------------------------------------------------------

    /// Number of stored entries (upper triangle + diagonal).
    pub fn nnz(&self) -> (r: usize)
        ensures
            r == self.values@.len(),
    {
        self.values.len()
    }

    /// Raw row pointer array.
    pub fn row_ptr(&self) -> (r: &[usize])
        ensures
            r@ == self.row_ptr@,
    {
        self.row_ptr.as_slice()
    }

    /// Raw column index array.
    pub fn col_idx(&self) -> (r: &[usize])
        ensures
            r@ == self.col_idx@,
    {
        self.col_idx.as_slice()
    }

    /// Raw values array.
    pub fn values(&self) -> (r: &[T])
        ensures
            r@ == self.values@,
    {
        self.values.as_slice()
    }

    /// Mutable raw values, as a slice: neither the pattern nor the number of
    /// values can change through it.
    pub fn values_mut(&mut self) -> (r: &mut [T])
        ensures
            r@ == old(self).values@,
            final(self).values@ == final(r)@,
            final(self).col_idx == old(self).col_idx,
            final(self).row_ptr == old(self).row_ptr,
            final(self).n == old(self).n,
    {
        self.values.as_mut_slice()
    }

    /// Storage index of `(row, col)` within row `row`, if stored.
    pub fn find_idx(&self, row: usize, col: usize) -> (r: Option<usize>)
        requires
            self.wf(),
            row < self.n,
        ensures
            match r {
                Some(k) => self.is_slot(row as int, col as int, k as int),
                None => !self.stored(row as int, col as int),
            },
    {
        proof {
            self.lemma_row_bounds(row as int);
            assert(upper_row_ok(self.row_ptr@, self.col_idx@, self.n as int, row as int));
        }
        let start = self.row_ptr[row];
        let end = self.row_ptr[row + 1];
        match search_run(&self.col_idx, start, end, col) {
            Ok(k) => Some(k),
            Err(_) => {
                proof {
                    if self.stored(row as int, col as int) {
                        let k = choose|k: int| #[trigger] self.is_slot(row as int, col as int, k);
                        assert(self.col_idx@[k] != col);
                    }
                }
                None
            },
        }
    }

    /// Check that `(row, col)` is in range and in the upper triangle.
    fn check_upper(&self, row: usize, col: usize) -> (r: Result<(), SparseError>)
        ensures
            r == (match upper_check(self.n, row, col) {
                Some(e) => Err::<(), SparseError>(e),
                None => Ok(()),
            }),
    {
        if row >= self.n {
            return Err(SparseError::RowOutOfRange { row, nrows: self.n });
        }
        if col >= self.n {
            return Err(SparseError::ColOutOfRange { col, ncols: self.n });
        }
        if col < row {
            return Err(SparseError::LowerTriangleEntry { row, col });
        }
        Ok(())
    }

    /// Value at `(row, col)` of the full symmetric matrix.  Lower-triangle
    /// queries are redirected to the mirrored upper entry; structural zeros
    /// read as zero.
    pub fn get(&self, row: usize, col: usize) -> (r: Result<T, SparseError>)
        requires
            self.wf(),
        ensures
            self.get_reads(row, col, r),
    {
        if row >= self.n {
            return Err(SparseError::RowOutOfRange { row, nrows: self.n });
        }
        if col >= self.n {
            return Err(SparseError::ColOutOfRange { col, ncols: self.n });
        }
        let (r, c) = if col >= row { (row, col) } else { (col, row) };
        match self.find_idx(r, c) {
            Some(i) => {
                proof {
                    self.lemma_slot_is(r as int, c as int, i as int);
                    self.lemma_row_bounds(r as int);
                }
                Ok(self.values[i])
            },
            None => Ok(T::zero()),
        }
    }

    // -------------------------------------------------------------
    // Mutation
    // -------------------------------------------------------------

    /// Accumulate `val` into the upper-triangle entry `(row, col)` and return
    /// its storage index.
    pub fn add_value_and_return_index(&mut self, row: usize, col: usize, val: T) -> (r: Result<usize, SparseError>)
        requires
            old(self).wf(),
        ensures
            final(self).wf(),
            final(self).same_pattern(old(self)),
            upper_check(old(self).n, row, col) matches Some(e) ==> r == Err::<usize, SparseError>(e),
            upper_check(old(self).n, row, col) is None && !old(self).stored(row as int, col as int)
                ==> r == Err::<usize, SparseError>(SparseError::IndexOutOfBounds { row, col }),
            upper_check(old(self).n, row, col) is None && old(self).stored(row as int, col as int)
                ==> r == Ok::<usize, SparseError>(old(self).slot(row as int, col as int) as usize),
            r matches Ok(k) ==> {
                &&& old(self).is_slot(row as int, col as int, k as int)
                &&& final(self).values@ == old(self).values@.update(k as int, final(self).values@[k as int])
                &&& call_ensures(T::plus, (old(self).values@[k as int], val), final(self).values@[k as int])
            },
            r is Err ==> final(self).values@ == old(self).values@,
    {
        self.check_upper(row, col)?;
        match self.find_idx(row, col) {
            Some(idx) => {
                proof {
                    self.lemma_slot_is(row as int, col as int, idx as int);
                    self.lemma_row_bounds(row as int);
                }
                let cur = self.values[idx];
                let nv = cur.plus(val);
                self.values.set(idx, nv);
                Ok(idx)
            },
            None => Err(SparseError::IndexOutOfBounds { row, col }),
        }
    }

    /// Accumulate `val` into the upper-triangle entry `(row, col)`.
    pub fn add_value(&mut self, row: usize, col: usize, val: T) -> (r: Result<(), SparseError>)
        requires
            old(self).wf(),
        ensures
            final(self).wf(),
            final(self).same_pattern(old(self)),
            upper_check(old(self).n, row, col) matches Some(e) ==> r == Err::<(), SparseError>(e),
            upper_check(old(self).n, row, col) is None && !old(self).stored(row as int, col as int)
                ==> r == Err::<(), SparseError>(SparseError::IndexOutOfBounds { row, col }),
            upper_check(old(self).n, row, col) is None && old(self).stored(row as int, col as int) ==> {
                let k = old(self).slot(row as int, col as int);
                &&& r is Ok
                &&& final(self).values@ == old(self).values@.update(k, final(self).values@[k])
                &&& call_ensures(T::plus, (old(self).values@[k], val), final(self).values@[k])
            },
            r is Err ==> final(self).values@ == old(self).values@,
    {
        match self.add_value_and_return_index(row, col, val) {
            Ok(_) => Ok(()),
            Err(e) => Err(e),
        }
    }

    /// Overwrite the upper-triangle entry `(row, col)` with `val`.
    pub fn set_value(&mut self, row: usize, col: usize, val: T) -> (r: Result<(), SparseError>)
        requires
            old(self).wf(),
        ensures
            final(self).wf(),
            final(self).same_pattern(old(self)),
            upper_check(old(self).n, row, col) matches Some(e) ==> r == Err::<(), SparseError>(e),
            upper_check(old(self).n, row, col) is None && !old(self).stored(row as int, col as int)
                ==> r == Err::<(), SparseError>(SparseError::IndexOutOfBounds { row, col }),
            upper_check(old(self).n, row, col) is None && old(self).stored(row as int, col as int) ==> {
                &&& r is Ok
                &&& final(self).values@ == old(self).values@.update(old(self).slot(row as int, col as int), val)
            },
            r is Err ==> final(self).values@ == old(self).values@,
    {
        self.check_upper(row, col)?;
        match self.find_idx(row, col) {
            Some(idx) => {
                proof {
                    self.lemma_slot_is(row as int, col as int, idx as int);
                    self.lemma_row_bounds(row as int);
                }
                self.values.set(idx, val);
                Ok(())
            },
            None => Err(SparseError::IndexOutOfBounds { row, col }),
        }
    }

    /// Set all stored values to zero while keeping the pattern.
    pub fn zero(&mut self)
        requires
            old(self).wf(),
        ensures
            final(self).wf(),
            final(self).same_pattern(old(self)),
            final(self).all_zero(),
    {
        let z = T::zero();
        let len = self.values.len();
        let mut i: usize = 0;
        while i < len
            invariant
                0 <= i <= len,
                self.values@.len() == len,
                self.same_pattern(old(self)),
                self.wf(),
                call_ensures(T::zero, (), z),
                forall|k: int| 0 <= k < i ==> self.values@[k] == z,
            decreases len - i,
        {
            self.values.set(i, z);
            i = i + 1;
        }
    }

    /// Extract the diagonal.  Every row stores its diagonal, so entry `i`
    /// is the stored value of `(i, i)`.
    pub fn extract_diagonal(&self) -> (r: Vec<T>)
        requires
            self.wf(),
        ensures
            r@.len() == self.n,
            forall|i: int| 0 <= i < self.n ==> self.stored(i, i) && #[trigger] r@[i] == self.value_at(i, i),
    {
        let mut out: Vec<T> = Vec::new();
        let mut i: usize = 0;
        while i < self.n
            invariant
                self.wf(),
                0 <= i <= self.n,
                out@.len() == i,
                forall|j: int| 0 <= j < i ==> #[trigger] out@[j] == self.value_at(j, j),
            decreases self.n - i,
        {
            proof {
                self.lemma_row_bounds(i as int);
                assert(self.is_slot(i as int, i as int, self.start(i as int)));
            }
            let idx = match self.find_idx(i, i) {
                Some(k) => k,
                None => {
                    proof {
                        assert(false);
                    }
                    0
                },
            };
            proof {
                self.lemma_slot_is(i as int, i as int, idx as int);
            }
            let ghost prev = out@;
            out.push(self.values[idx]);
            proof {
                assert forall|j: int| 0 <= j < i + 1 implies #[trigger] out@[j] == self.value_at(j, j) by {
                    if j < i {
                        assert(out@[j] == prev[j]);
                    }
                }
            }
            i = i + 1;
        }
        proof {
            assert forall|i: int| 0 <= i < self.n implies self.stored(i, i) by {
                self.lemma_row_bounds(i);
                assert(self.is_slot(i, i, self.start(i)));
            }
        }
        out
    }
}

/// The scatter target for element-matrix position `(i, j)`, `i <= j`: the
/// global upper-triangle coordinate and the element value that lands there.
pub open spec fn scatter_pair<T>(dm: Seq<usize>, ke: Seq<T>, i: int, j: int) -> (usize, usize, T) {
    let n = dm.len() as int;
    if dm[i] <= dm[j] {
        (dm[i], dm[j], ke[i * n + j])
    } else {
        (dm[j], dm[i], ke[j * n + i])
    }
}

/// Targets of element row `i`: positions `(i, j)` for `j` in `i..n`.
pub open spec fn scatter_row_targets<T>(dm: Seq<usize>, ke: Seq<T>, i: int) -> Seq<(usize, usize, T)> {
    Seq::new((dm.len() - i) as nat, |t: int| scatter_pair(dm, ke, i, i + t))
}

/// Targets of the first `rows` element rows, in the order they are added.
pub open spec fn scatter_targets<T>(dm: Seq<usize>, ke: Seq<T>, rows: int) -> Seq<(usize, usize, T)>
    decreases rows,
{
    if rows <= 0 {
        Seq::empty()
    } else {
        scatter_targets(dm, ke, rows - 1) + scatter_row_targets(dm, ke, rows - 1)
    }
}

/// Flat index of element position `(i, j)` lies inside an `n x n` array.
proof fn lemma_index_in_square(i: int, j: int, n: int)
    requires
        0 <= i < n,
        0 <= j < n,
    ensures
        0 <= i * n + j < n * n,
{
    assert(i * n + j < n * n) by (nonlinear_arith)
        requires
            0 <= i < n,
            0 <= j < n,
    ;
    assert(0 <= i * n) by (nonlinear_arith)
        requires
            0 <= i,
            0 <= n,
    ;
}

/// The targets of the first `a` rows are a prefix of those of the first
/// `b` rows.
proof fn lemma_targets_prefix<T>(dm: Seq<usize>, ke: Seq<T>, a: int, b: int)
    requires
        0 <= a <= b,
    ensures
        scatter_targets(dm, ke, a).len() <= scatter_targets(dm, ke, b).len(),
        scatter_targets(dm, ke, b).take(scatter_targets(dm, ke, a).len() as int) == scatter_targets(dm, ke, a),
    decreases b - a,
{
    if a < b {
        lemma_targets_prefix(dm, ke, a, b - 1);
        let sa = scatter_targets(dm, ke, a);
        let sb1 = scatter_targets(dm, ke, b - 1);
        let sb = scatter_targets(dm, ke, b);
        assert(sb == sb1 + scatter_row_targets(dm, ke, b - 1));
        assert(sb.take(sa.len() as int) =~= sb1.take(sa.len() as int));
    } else {
        let sa = scatter_targets(dm, ke, a);
        assert(sa.take(sa.len() as int) =~= sa);
    }
}

impl<T: SparseScalar> SymCsrMatrix<T> {
    /// A scatter target can be added to: in range, upper, and stored.
    pub open spec fn target_ok(&self, t: (usize, usize, T)) -> bool {
        &&& upper_check(self.n, t.0, t.1) is None
        &&& self.stored(t.0 as int, t.1 as int)
    }

    /// The error `add_value` reports for a scatter target that is not ok.
    pub open spec fn target_error(&self, t: (usize, usize, T)) -> SparseError {
        match upper_check(self.n, t.0, t.1) {
            Some(e) => e,
            None => SparseError::IndexOutOfBounds { row: t.0, col: t.1 },
        }
    }

    /// The storage updates that adding the targets performs.
    pub open spec fn target_updates(&self, ts: Seq<(usize, usize, T)>) -> Seq<(int, T)> {
        ts.map_values(|t: (usize, usize, T)| (self.slot(t.0 as int, t.1 as int), t.2))
    }

    /// Every target can be added to.
    pub open spec fn targets_ok(&self, ts: Seq<(usize, usize, T)>) -> bool {
        forall|t: int| 0 <= t < ts.len() ==> #[trigger] self.target_ok(ts[t])
    }

    /// Scatter the upper triangle of the symmetric element matrix `ke`
    /// (row-major `n x n`, `n = dof_map.len()`) into the global matrix.
    ///
    /// Element positions `(i, j)` with `i <= j` are visited row by row; each
    /// is mapped to the upper-triangle global entry of
    /// `(dof_map[i], dof_map[j])` and accumulated with `add_value`.  The
    /// first failing accumulation stops the scatter and its error is
    /// returned; the entries accumulated before it stay accumulated.
    pub fn scatter_add(&mut self, ke: &[T], dof_map: &[usize]) -> (r: Result<(), SparseError>)
        requires
            old(self).wf(),
            dof_map@.len() * dof_map@.len() <= usize::MAX,
        ensures
            final(self).wf(),
            final(self).same_pattern(old(self)),
            ({
                let n = dof_map@.len();
                let ts = scatter_targets(dof_map@, ke@, n as int);
                if ke@.len() != n * n {
                    &&& r == Err::<(), SparseError>(SparseError::ScatterSizeMismatch {
                        ke_len: ke@.len() as usize,
                        n: n as usize,
                        expected: (n * n) as usize,
                    })
                    &&& final(self).values@ == old(self).values@
                } else if old(self).targets_ok(ts) {
                    &&& r is Ok
                    &&& added_in_order(old(self).values@, final(self).values@, old(self).target_updates(ts))
                } else {
                    exists|f: int| {
                        &&& 0 <= f < ts.len()
                        &&& !old(self).target_ok(#[trigger] ts[f])
                        &&& old(self).targets_ok(ts.take(f))
                        &&& r == Err::<(), SparseError>(old(self).target_error(ts[f]))
                        &&& added_in_order(old(self).values@, final(self).values@, old(self).target_updates(ts.take(f)))
                    }
                }
            }),
    {
        let n = dof_map.len();
        let expected = n * n;
        if ke.len() != expected {
            return Err(SparseError::ScatterSizeMismatch { ke_len: ke.len(), n, expected });
        }
        let ghost dm = dof_map@;
        let ghost kv = ke@;
        let ghost ts = scatter_targets(dm, kv, n as int);
        let ghost mut done: Seq<(usize, usize, T)> = Seq::empty();
        proof {
            lemma_added_none(old(self).values@);
            assert(old(self).target_updates(done) =~= Seq::<(int, T)>::empty());
        }
        let mut i: usize = 0;
        while i < n
            invariant
                n == dof_map@.len(),
                dm == dof_map@,
                kv == ke@,
                ke@.len() == n * n,
                n * n <= usize::MAX,
                ts == scatter_targets(dm, kv, n as int),
                0 <= i <= n,
                done == scatter_targets(dm, kv, i as int),
                self.wf(),
                self.same_pattern(old(self)),
                old(self).wf(),
                old(self).targets_ok(done),
                added_in_order(old(self).values@, self.values@, old(self).target_updates(done)),
            decreases n - i,
        {
            let mut j: usize = i;
            while j < n
                invariant
                    n == dof_map@.len(),
                    dm == dof_map@,
                    kv == ke@,
                    ke@.len() == n * n,
                    n * n <= usize::MAX,
                    ts == scatter_targets(dm, kv, n as int),
                    0 <= i < n,
                    i <= j <= n,
                    done == scatter_targets(dm, kv, i as int) + scatter_row_targets(dm, kv, i as int).take(j - i),
                    self.wf(),
                    self.same_pattern(old(self)),
                    old(self).wf(),
                    old(self).targets_ok(done),
                    added_in_order(old(self).values@, self.values@, old(self).target_updates(done)),
                decreases n - j,
            {
                proof {
                    lemma_index_in_square(i as int, j as int, n as int);
                    lemma_index_in_square(j as int, i as int, n as int);
                }
                let (gr, gc, val) = if dof_map[i] <= dof_map[j] {
                    (dof_map[i], dof_map[j], ke[i * n + j])
                } else {
                    (dof_map[j], dof_map[i], ke[j * n + i])
                };
                let ghost t = (gr, gc, val);
                proof {
                    assert(t == scatter_pair(dm, kv, i as int, j as int));
                    assert(scatter_row_targets(dm, kv, i as int)[j - i] == t);
                    lemma_targets_prefix(dm, kv, i as int + 1, n as int);
                    assert(scatter_targets(dm, kv, i as int + 1) == scatter_targets(dm, kv, i as int)
                        + scatter_row_targets(dm, kv, i as int));
                }
                let ghost before = self.values@;
                let ghost pre = *self;
                let res = self.add_value(gr, gc, val);
                match res {
                    Ok(()) => {
                        proof {
                            let k = old(self).slot(gr as int, gc as int);
                            pre.lemma_same_pattern_slot(*old(self), gr as int, gc as int);
                            assert(old(self).target_ok(t));
                            lemma_added_step(old(self).values@, before, old(self).target_updates(done), k, val, self.values@[k]);
                            assert(before.update(k, self.values@[k]) == self.values@);
                            let nd = scatter_targets(dm, kv, i as int) + scatter_row_targets(dm, kv, i as int).take(j + 1 - i);
                            assert(nd =~= done.push(t));
                            assert(old(self).target_updates(nd) =~= old(self).target_updates(done).push((k, val)));
                            assert forall|x: int| 0 <= x < nd.len() implies #[trigger] old(self).target_ok(nd[x]) by {
                                if x < done.len() {
                                    assert(nd[x] == done[x]);
                                    assert(old(self).target_ok(done[x]));
                                }
                            }
                            done = nd;
                        }
                    },
                    Err(e) => {
                        proof {
                            if gr < pre.n {
                                pre.lemma_same_pattern_slot(*old(self), gr as int, gc as int);
                            }
                            let f = done.len() as int;
                            let full = scatter_targets(dm, kv, i as int + 1);
                            assert(full.take(full.len() as int) == full);
                            assert(ts.take(full.len() as int) == full);
                            assert(ts[f] == full[f]);
                            assert(full[f] == t);
                            assert(ts.take(f) =~= done);
                            assert(!old(self).target_ok(ts[f]));
                            assert(e == old(self).target_error(ts[f]));
                            assert(self.values@ == before);
                            assert(!old(self).targets_ok(ts)) by {
                                assert(!old(self).target_ok(ts[f]));
                            }
                        }
                        return Err(e);
                    },
                }
                j = j + 1;
            }
            proof {
                assert(scatter_row_targets(dm, kv, i as int).take(n - i) =~= scatter_row_targets(dm, kv, i as int));
                assert(scatter_targets(dm, kv, i as int + 1) == scatter_targets(dm, kv, i as int)
                    + scatter_row_targets(dm, kv, i as int));
            }
            i = i + 1;
        }
        Ok(())
    }

    /// Storage index `k` holds an entry `(r, dof)` with `r < dof`.
    pub open spec fn in_column_above(&self, dof: int, k: int) -> bool {
        exists|r: int| 0 <= r < dof && #[trigger] self.is_slot(r, dof, k)
    }

    /// Apply a Dirichlet boundary condition: zero row and column `dof` of
    /// the full matrix and set the diagonal to one.
    pub fn zero_row_col(&mut self, dof: usize) -> (r: Result<(), SparseError>)
        requires
            old(self).wf(),
        ensures
            final(self).wf(),
            final(self).same_pattern(old(self)),
            dof >= old(self).n ==> r == Err::<(), SparseError>(SparseError::RowOutOfRange { row: dof, nrows: old(self).n })
                && final(self).values@ == old(self).values@,
            dof < old(self).n ==> r is Ok,
            dof < old(self).n ==> forall|k: int| 0 <= k < old(self).values@.len() ==> {
                let v = #[trigger] final(self).values@[k];
                if k == old(self).start(dof as int) {
                    is_one_value(v)
                } else if old(self).start(dof as int) < k < old(self).end(dof as int)
                    || old(self).in_column_above(dof as int, k) {
                    is_zero_value(v)
                } else {
                    v == old(self).values@[k]
                }
            },
    {
        if dof >= self.n {
            return Err(SparseError::RowOutOfRange { row: dof, nrows: self.n });
        }
        proof {
            self.lemma_row_bounds(dof as int);
        }
        let start = self.row_ptr[dof];
        let end = self.row_ptr[dof + 1];
        let mut idx = start;
        while idx < end
            invariant
                old(self).wf(),
                self.wf(),
                self.same_pattern(old(self)),
                dof < self.n,
                start == old(self).start(dof as int),
                end == old(self).end(dof as int),
                start <= idx <= end <= self.values@.len(),
                forall|k: int| 0 <= k < self.values@.len() ==> {
                    let v = #[trigger] self.values@[k];
                    if start <= k < idx {
                        is_zero_value(v)
                    } else {
                        v == old(self).values@[k]
                    }
                },
            decreases end - idx,
        {
            let z = T::zero();
            self.values.set(idx, z);
            idx = idx + 1;
        }
        let mut row: usize = 0;
        while row < dof
            invariant
                old(self).wf(),
                self.wf(),
                self.same_pattern(old(self)),
                dof < self.n,
                0 <= row <= dof,
                start == old(self).start(dof as int),
                end == old(self).end(dof as int),
                forall|k: int| 0 <= k < self.values@.len() ==> {
                    let v = #[trigger] self.values@[k];
                    if start <= k < end || (exists|r: int| 0 <= r < row && #[trigger] old(self).is_slot(r, dof as int, k)) {
                        is_zero_value(v)
                    } else {
                        v == old(self).values@[k]
                    }
                },
            decreases dof - row,
        {
            match self.find_idx(row, dof) {
                Some(k) => {
                    proof {
                        self.lemma_row_bounds(row as int);
                    }
                    let z = T::zero();
                    let ghost prev = self.values@;
                    self.values.set(k, z);
                    proof {
                        assert(old(self).is_slot(row as int, dof as int, k as int));
                        assert forall|kk: int| 0 <= kk < self.values@.len() implies {
                            let v = #[trigger] self.values@[kk];
                            if start <= kk < end || (exists|r: int| 0 <= r < row + 1 && #[trigger] old(self).is_slot(r, dof as int, kk)) {
                                is_zero_value(v)
                            } else {
                                v == old(self).values@[kk]
                            }
                        } by {
                            if kk != k {
                                assert(self.values@[kk] == prev[kk]);
                                if exists|r: int| 0 <= r < row + 1 && #[trigger] old(self).is_slot(r, dof as int, kk) {
                                    let r = choose|r: int| 0 <= r < row + 1 && #[trigger] old(self).is_slot(r, dof as int, kk);
                                    if r == row {
                                        old(self).lemma_slot_unique(r, dof as int, k as int, kk);
                                    }
                                    assert(0 <= r < row && old(self).is_slot(r, dof as int, kk));
                                }
                            }
                        }
                    }
                },
                None => {
                    proof {
                        assert forall|kk: int| 0 <= kk < self.values@.len() implies {
                            let v = #[trigger] self.values@[kk];
                            if start <= kk < end || (exists|r: int| 0 <= r < row + 1 && #[trigger] old(self).is_slot(r, dof as int, kk)) {
                                is_zero_value(v)
                            } else {
                                v == old(self).values@[kk]
                            }
                        } by {
                            if exists|r: int| 0 <= r < row + 1 && #[trigger] old(self).is_slot(r, dof as int, kk) {
                                let r = choose|r: int| 0 <= r < row + 1 && #[trigger] old(self).is_slot(r, dof as int, kk);
                                if r == row {
                                    assert(self.is_slot(row as int, dof as int, kk));
                                    assert(self.stored(row as int, dof as int));
                                }
                                assert(0 <= r < row && old(self).is_slot(r, dof as int, kk));
                            }
                        }
                    }
                },
            }
            row = row + 1;
        }
        proof {
            assert(self.is_slot(dof as int, dof as int, start as int));
        }
        let diag = match self.find_idx(dof, dof) {
            Some(k) => k,
            None => {
                proof {
                    assert(false);
                }
                start
            },
        };
        proof {
            self.lemma_slot_unique(dof as int, dof as int, diag as int, start as int);
        }
        let one = T::one();
        let ghost before_one = self.values@;
        self.values.set(diag, one);
        proof {
            assert forall|k: int| 0 <= k < old(self).values@.len() implies {
                let v = #[trigger] self.values@[k];
                if k == old(self).start(dof as int) {
                    is_one_value(v)
                } else if old(self).start(dof as int) < k < old(self).end(dof as int)
                    || old(self).in_column_above(dof as int, k) {
                    is_zero_value(v)
                } else {
                    v == old(self).values@[k]
                }
            } by {
                if k != diag {
                    assert(self.values@[k] == before_one[k]);
                    if old(self).in_column_above(dof as int, k) {
                        let r = choose|r: int| 0 <= r < dof && #[trigger] old(self).is_slot(r, dof as int, k);
                        assert(0 <= r < row && old(self).is_slot(r, dof as int, k));
                    }
                    if exists|r: int| 0 <= r < row && #[trigger] old(self).is_slot(r, dof as int, k) {
                        let r = choose|r: int| 0 <= r < row && #[trigger] old(self).is_slot(r, dof as int, k);
                        assert(old(self).in_column_above(dof as int, k));
                    }
                }
            }
        }
        Ok(())
    }
}

/// Where element row `i` begins in the list of upper-triangle scatter
/// targets of an element with `n` degrees of freedom.
pub open spec fn row_start(n: int, i: int) -> int
    decreases i,
{
    if i <= 0 {
        0
    } else {
        row_start(n, i - 1) + (n - (i - 1))
    }
}

/// Position of element pair `(i, j)`, `i <= j`, in the scatter targets.
pub open spec fn pair_position(n: int, i: int, j: int) -> int {
    row_start(n, i) + (j - i)
}

/// Position `t` holds some pair of the first `rows` element rows.
spec fn holds_pair(n: int, rows: int, t: int) -> bool {
    exists|i: int, j: int| 0 <= i < rows && i <= j < n && t == #[trigger] pair_position(n, i, j)
}

/// Rows begin in increasing order.
proof fn lemma_row_start_monotone(n: int, a: int, b: int)
    requires
        0 <= a <= b <= n,
    ensures
        row_start(n, a) <= row_start(n, b),
    decreases b - a,
{
    if a < b {
        lemma_row_start_monotone(n, a, b - 1);
    }
}

/// The scatter targets of the first `rows` element rows, by position: pair
/// `(i, j)` sits at `pair_position(n, i, j)`, and every position holds a
/// pair.
proof fn lemma_targets_at<T>(dm: Seq<usize>, ke: Seq<T>, rows: int)
    requires
        0 <= rows <= dm.len(),
    ensures
        scatter_targets(dm, ke, rows).len() == row_start(dm.len() as int, rows),
        forall|i: int, j: int| 0 <= i < rows && i <= j < dm.len() ==>
            #[trigger] scatter_targets(dm, ke, rows)[pair_position(dm.len() as int, i, j)] == scatter_pair(dm, ke, i, j),
        forall|t: int| 0 <= t < row_start(dm.len() as int, rows) ==> #[trigger] holds_pair(dm.len() as int, rows, t),
    decreases rows,
{
    let n = dm.len() as int;
    if rows > 0 {
        let r = rows - 1;
        lemma_targets_at(dm, ke, r);
        let prev = scatter_targets(dm, ke, r);
        let rowt = scatter_row_targets(dm, ke, r);
        let all = scatter_targets(dm, ke, rows);
        assert(all == prev + rowt);
        assert forall|i: int, j: int| 0 <= i < rows && i <= j < n implies
            #[trigger] all[pair_position(n, i, j)] == scatter_pair(dm, ke, i, j) by {
            lemma_row_start_monotone(n, 0, i);
            if i < r {
                lemma_row_start_monotone(n, i + 1, r);
                assert(row_start(n, i + 1) == row_start(n, i) + (n - i));
                assert(all[pair_position(n, i, j)] == prev[pair_position(n, i, j)]);
            } else {
                assert(all[pair_position(n, i, j)] == rowt[j - r]);
            }
        }
        assert forall|t: int| 0 <= t < row_start(n, rows) implies #[trigger] holds_pair(n, rows, t) by {
            if t >= row_start(n, r) {
                assert(t == pair_position(n, r, r + (t - row_start(n, r))));
            } else {
                assert(holds_pair(n, r, t));
                let (i, j) = choose|i: int, j: int| 0 <= i < r && i <= j < n && t == #[trigger] pair_position(n, i, j);
                assert(t == pair_position(n, i, j));
            }
        }
    }
}

/// Distinct element pairs have distinct positions.
proof fn lemma_pair_position_injective(n: int, i1: int, j1: int, i2: int, j2: int)
    requires
        0 <= i1 <= j1 < n,
        0 <= i2 <= j2 < n,
        pair_position(n, i1, j1) == pair_position(n, i2, j2),
    ensures
        i1 == i2,
        j1 == j2,
{
    if i1 < i2 {
        lemma_row_start_monotone(n, i1 + 1, i2);
    } else if i2 < i1 {
        lemma_row_start_monotone(n, i2 + 1, i1);
    }
}

impl<T: SparseScalar> SymCsrMatrix<T> {
    /// Success of the scatter: when every upper-triangle entry
    /// `(dof_map[i], dof_map[j])` with `dof_map[i] <= dof_map[j]` is stored,
    /// every target of `scatter_add` can be added to, so that a scatter with
    /// `n * n` element values succeeds.
    pub proof fn law_scatter_add_succeeds(m: Self, ke: Seq<T>, dof_map: Seq<usize>)
        requires
            m.wf(),
            forall|i: int, j: int| 0 <= i < dof_map.len() && 0 <= j < dof_map.len() && dof_map[i] <= dof_map[j]
                ==> #[trigger] m.stored(dof_map[i] as int, dof_map[j] as int),
        ensures
            m.targets_ok(scatter_targets(dof_map, ke, dof_map.len() as int)),
    {
        let n = dof_map.len() as int;
        let ts = scatter_targets(dof_map, ke, n);
        lemma_targets_at(dof_map, ke, n);
        assert forall|t: int| 0 <= t < ts.len() implies #[trigger] m.target_ok(ts[t]) by {
            assert(holds_pair(n, n, t));
            let (i, j) = choose|i: int, j: int| 0 <= i < n && i <= j < n && t == #[trigger] pair_position(n, i, j);
            let p = scatter_pair(dof_map, ke, i, j);
            assert(ts[pair_position(n, i, j)] == p);
            if dof_map[i] <= dof_map[j] {
                assert(m.stored(dof_map[i] as int, dof_map[j] as int));
            } else {
                assert(m.stored(dof_map[j] as int, dof_map[i] as int));
            }
            let k = choose|k: int| #[trigger] m.is_slot(p.0 as int, p.1 as int, k);
            assert(upper_row_ok(m.row_ptr@, m.col_idx@, m.n as int, p.0 as int));
            assert(p.0 <= m.col_idx@[k] < m.n);
        }
    }

    /// Scatter of an element matrix with distinct degrees of freedom, in
    /// any order of them: when `scatter_add` succeeds, every global entry
    /// `(dof_map[i], dof_map[j])` with `dof_map[i] <= dof_map[j]` has gained
    /// the element value at row `i`, column `j` of the row-major `ke`, that
    /// is `ke[i * n + j]`, and every stored entry outside the rows or columns
    /// of `dof_map` keeps its value.  For a symmetric `ke` this is the value
    /// at `(j, i)` too, so listing the degrees of freedom in another order
    /// (and permuting `ke` with them) adds the same values.
    pub proof fn law_scatter_add_upper(before: Self, after: Self, ke: Seq<T>, dof_map: Seq<usize>)
        requires
            before.wf(),
            after.same_pattern(&before),
            ke.len() == dof_map.len() * dof_map.len(),
            forall|a: int, b: int| 0 <= a < b < dof_map.len() ==> #[trigger] dof_map[a] != #[trigger] dof_map[b],
            forall|i: int, j: int| 0 <= i < dof_map.len() && 0 <= j < dof_map.len() && dof_map[i] <= dof_map[j]
                ==> #[trigger] before.stored(dof_map[i] as int, dof_map[j] as int),
            added_in_order(
                before.values@,
                after.values@,
                before.target_updates(scatter_targets(dof_map, ke, dof_map.len() as int)),
            ),
        ensures
            forall|i: int, j: int| 0 <= i < dof_map.len() && 0 <= j < dof_map.len() && dof_map[i] <= dof_map[j]
                ==> call_ensures(
                T::plus,
                (before.value_at(dof_map[i] as int, dof_map[j] as int), ke[i * dof_map.len() + j]),
                #[trigger] after.value_at(dof_map[i] as int, dof_map[j] as int),
            ),
            forall|r: int, c: int| #[trigger] before.stored(r, c) && (!dof_map.contains(r as usize) || !dof_map.contains(c as usize))
                ==> after.value_at(r, c) == before.value_at(r, c),
    {
        let n = dof_map.len() as int;
        let ts = scatter_targets(dof_map, ke, n);
        let ups = before.target_updates(ts);
        lemma_targets_at(dof_map, ke, n);
        before.lemma_same_pattern_slot_all(after);
        // Each target is the upper coordinate of its pair, which is stored.
        assert forall|i: int, j: int| 0 <= i <= j < n implies {
            let p = #[trigger] scatter_pair(dof_map, ke, i, j);
            &&& before.stored(p.0 as int, p.1 as int)
            &&& (p.0 == dof_map[i] && p.1 == dof_map[j]) || (p.0 == dof_map[j] && p.1 == dof_map[i])
        } by {
            if dof_map[i] <= dof_map[j] {
                assert(before.stored(dof_map[i] as int, dof_map[j] as int));
            } else {
                assert(before.stored(dof_map[j] as int, dof_map[i] as int));
            }
        }
        assert forall|a: int, b: int| 0 <= a < b < ups.len() implies #[trigger] ups[a].0 != #[trigger] ups[b].0 by {
            assert(holds_pair(n, n, a) && holds_pair(n, n, b));
            let (i1, j1) = choose|i: int, j: int| 0 <= i < n && i <= j < n && a == #[trigger] pair_position(n, i, j);
            let (i2, j2) = choose|i: int, j: int| 0 <= i < n && i <= j < n && b == #[trigger] pair_position(n, i, j);
            let p1 = scatter_pair(dof_map, ke, i1, j1);
            let p2 = scatter_pair(dof_map, ke, i2, j2);
            assert(ts[pair_position(n, i1, j1)] == p1);
            assert(ts[pair_position(n, i2, j2)] == p2);
            if ups[a].0 == ups[b].0 {
                before.lemma_slot_injective(p1.0 as int, p1.1 as int, p2.0 as int, p2.1 as int);
                assert(dof_map[i1] == dof_map[i2] || dof_map[i1] == dof_map[j2]);
                if i1 != i2 && i1 != j2 {
                    if i1 < i2 { assert(dof_map[i1] != dof_map[i2]); } else if i1 > i2 { assert(dof_map[i2] != dof_map[i1]); }
                    if i1 < j2 { assert(dof_map[i1] != dof_map[j2]); } else if i1 > j2 { assert(dof_map[j2] != dof_map[i1]); }
                }
                if j1 != i2 && j1 != j2 {
                    if j1 < i2 { assert(dof_map[j1] != dof_map[i2]); } else if j1 > i2 { assert(dof_map[i2] != dof_map[j1]); }
                    if j1 < j2 { assert(dof_map[j1] != dof_map[j2]); } else if j1 > j2 { assert(dof_map[j2] != dof_map[j1]); }
                }
                lemma_pair_position_injective(n, i1, j1, i2, j2);
            }
        }
        crate::scalar::lemma_added_distinct(before.values@, after.values@, ups);
        assert forall|i: int, j: int| 0 <= i < n && 0 <= j < n && dof_map[i] <= dof_map[j] implies call_ensures(
            T::plus,
            (before.value_at(dof_map[i] as int, dof_map[j] as int), ke[i * n + j]),
            #[trigger] after.value_at(dof_map[i] as int, dof_map[j] as int),
        ) by {
            let (lo, hi) = if i <= j { (i, j) } else { (j, i) };
            let t = pair_position(n, lo, hi);
            lemma_row_start_monotone(n, lo + 1, n);
            lemma_row_start_monotone(n, 0, lo);
            assert(row_start(n, lo + 1) == row_start(n, lo) + (n - lo));
            assert(0 <= t < ts.len());
            assert(ts[t] == scatter_pair(dof_map, ke, lo, hi));
            if i > j {
                assert(dof_map[j] != dof_map[i]);
            }
            assert(ts[t] == (dof_map[i], dof_map[j], ke[i * n + j]));
            assert(ups[t].0 == before.slot(dof_map[i] as int, dof_map[j] as int));
        }
        assert forall|r: int, c: int| #[trigger] before.stored(r, c) && (!dof_map.contains(r as usize) || !dof_map.contains(c as usize))
            implies after.value_at(r, c) == before.value_at(r, c) by {
            let k = before.slot(r, c);
            assert forall|t: int| 0 <= t < ups.len() implies #[trigger] ups[t].0 != k by {
                assert(holds_pair(n, n, t));
                let (i, j) = choose|i: int, j: int| 0 <= i < n && i <= j < n && t == #[trigger] pair_position(n, i, j);
                let p = scatter_pair(dof_map, ke, i, j);
                assert(ts[pair_position(n, i, j)] == p);
                if ups[t].0 == k {
                    before.lemma_slot_injective(p.0 as int, p.1 as int, r, c);
                    assert(dof_map[i] == dof_map[i] && dof_map[j] == dof_map[j]);
                    assert(dof_map.contains(r as usize) && dof_map.contains(c as usize));
                }
            }
        }
    }
}
} // verus!

verus! {

// -----------------------------------------------------------------
// Validation
// -----------------------------------------------------------------

/// Storage index `k` of row `r` holds a column outside `[r, n)`.
pub open spec fn row_bad_entry(rp: Seq<usize>, ci: Seq<usize>, n: int, r: int, k: int) -> bool {
    &&& rp[r] <= k < rp[r + 1]
    &&& (ci[k] >= n || ci[k] < r)
}

/// Columns at storage indices `k` and `k + 1` of row `r` are out of order.
pub open spec fn row_unsorted_at(rp: Seq<usize>, ci: Seq<usize>, r: int, k: int) -> bool {
    &&& rp[r] <= k
    &&& k + 1 < rp[r + 1]
    &&& ci[k] >= ci[k + 1]
}

/// Row `r` passes the checks of `validate`.
pub open spec fn row_valid(rp: Seq<usize>, ci: Seq<usize>, n: int, r: int) -> bool {
    &&& row_has(rp, ci, r, r)
    &&& forall|k: int| !#[trigger] row_bad_entry(rp, ci, n, r, k)
    &&& forall|k: int| !#[trigger] row_unsorted_at(rp, ci, r, k)
}

/// The error `validate` reports for an invalid row `r`: a missing
/// diagonal, else the first column outside `[r, n)`, else the first column
/// that is not below its successor.
pub open spec fn row_error(rp: Seq<usize>, ci: Seq<usize>, n: int, r: int) -> SparseError {
    if !row_has(rp, ci, r, r) {
        SparseError::IndexOutOfBounds { row: r as usize, col: r as usize }
    } else if exists|k: int| #[trigger] row_bad_entry(rp, ci, n, r, k) {
        let k = choose|k: int| #[trigger] row_bad_entry(rp, ci, n, r, k)
            && forall|k2: int| k2 < k ==> !row_bad_entry(rp, ci, n, r, k2);
        if ci[k] >= n {
            SparseError::ColOutOfRange { col: ci[k], ncols: n as usize }
        } else {
            SparseError::LowerTriangleEntry { row: r as usize, col: ci[k] }
        }
    } else {
        let k = choose|k: int| #[trigger] row_unsorted_at(rp, ci, r, k)
            && forall|k2: int| k2 < k ==> !row_unsorted_at(rp, ci, r, k2);
        SparseError::IndexOutOfBounds { row: r as usize, col: ci[k] }
    }
}

impl<T> SymCsrMatrix<T> {
    /// The row pointers can be used to slice every row: the condition under
    /// which the row checks of `validate` can run.
    pub open spec fn rows_sliceable(&self) -> bool {
        self.row_ptr@.len() == self.n + 1 ==> forall|r: int|
            0 <= r < self.n ==> self.row_ptr@[r] <= #[trigger] self.row_ptr@[r + 1] <= self.col_idx@.len()
    }

    /// All checks of `validate` pass.
    pub open spec fn valid(&self) -> bool {
        &&& self.row_ptr@.len() == self.n + 1
        &&& self.values@.len() == self.col_idx@.len()
        &&& forall|r: int| 0 <= r < self.n ==> #[trigger] row_valid(self.row_ptr@, self.col_idx@, self.n as int, r)
    }

    /// `true` exactly when the storage meets every invariant of the type
    /// (`wf`), the precondition of the other methods: besides the checks of
    /// `validate`, the row pointers start at zero, do not decrease and end at
    /// the number of stored entries.
    pub fn is_well_formed(&self) -> (r: bool)
        ensures
            r == self.wf(),
    {
        let n = self.n;
        let len = self.row_ptr.len();
        if len == 0 || len - 1 != n {
            return false;
        }
        if self.row_ptr[0] != 0 || self.row_ptr[n] != self.col_idx.len() || self.values.len() != self.col_idx.len() {
            return false;
        }
        let mut i: usize = 0;
        while i < n
            invariant
                n == self.n,
                self.row_ptr@.len() == n + 1,
                0 <= i <= n,
                forall|j: int| 0 <= j < i ==> #[trigger] self.row_ptr@[j] <= self.row_ptr@[j + 1],
            decreases n - i,
        {
            if self.row_ptr[i] > self.row_ptr[i + 1] {
                proof {
                    if self.wf() {
                        assert(self.row_ptr@[i as int] <= self.row_ptr@[i + 1]);
                    }
                }
                return false;
            }
            i = i + 1;
        }
        proof {
            crate::line_ops::lemma_ptr_monotone(self.row_ptr@, n as int);
            assert forall|j: int| 0 <= j < n implies self.row_ptr@[j] <= #[trigger] self.row_ptr@[j + 1] <= self.col_idx@.len() by {
                assert(self.row_ptr@[j + 1] <= self.row_ptr@[n as int]);
            }
        }
        let ok = self.validate().is_ok();
        proof {
            if ok {
                self.lemma_valid_wf();
            }
        }
        ok
    }

    /// Storage that passes the checks of `validate`, with row pointers that
    /// start at zero, do not decrease and end at the number of stored
    /// entries, is well formed.
    proof fn lemma_valid_wf(&self)
        requires
            self.valid(),
            self.row_ptr@[0] == 0,
            self.row_ptr@[self.n as int] == self.col_idx@.len(),
            forall|a: int, b: int| 0 <= a <= b <= self.n ==> #[trigger] self.row_ptr@[a] <= #[trigger] self.row_ptr@[b],
        ensures
            self.wf(),
    {
        let rp = self.row_ptr@;
        let ci = self.col_idx@;
        let n = self.n as int;
        assert forall|r: int| 0 <= r < n implies #[trigger] upper_row_ok(rp, ci, n, r) by {
            assert(row_valid(rp, ci, n, r));
            assert(rp[r] <= rp[r + 1] <= rp[n]);
            let kd = choose|k: int| rp[r] <= k < rp[r + 1] && #[trigger] ci[k] == r;
            assert forall|k: int| rp[r] <= k < rp[r + 1] implies r <= #[trigger] ci[k] < n by {
                assert(!row_bad_entry(rp, ci, n, r, k));
            }
            assert forall|k: int| rp[r] <= k && k + 1 < rp[r + 1] implies #[trigger] ci[k] < ci[k + 1] by {
                assert(!row_unsorted_at(rp, ci, r, k));
            }
            crate::line_ops::lemma_adjacent_sorted(ci, rp[r] as int, rp[r + 1] as int);
            if kd > rp[r] {
                assert(ci[rp[r] as int] < ci[kd]);
                assert(r <= ci[rp[r] as int]);
            }
        }
    }

    /// Every well-formed matrix passes the checks of `validate`.  The
    /// constructors build well-formed matrices and every mutation keeps them
    /// so (their contracts ensure `wf`; writes through `values_mut` cannot
    /// touch the pattern), so a matrix that only went through them always
    /// validates.
    pub proof fn lemma_wf_validates(&self)
        requires
            self.wf(),
        ensures
            self.rows_sliceable(),
            self.valid(),
    {
        let rp = self.row_ptr@;
        let ci = self.col_idx@;
        let n = self.n as int;
        assert forall|r: int| 0 <= r < n implies #[trigger] row_valid(rp, ci, n, r) by {
            assert(upper_row_ok(rp, ci, n, r));
            assert(ci[rp[r] as int] == r);
            assert(row_has(rp, ci, r, r));
            assert forall|k: int| !#[trigger] row_bad_entry(rp, ci, n, r, k) by {
                if rp[r] <= k < rp[r + 1] {
                    assert(r <= ci[k] < n);
                }
            }
            assert forall|k: int| !#[trigger] row_unsorted_at(rp, ci, r, k) by {
                if rp[r] <= k && k + 1 < rp[r + 1] {
                    assert(ci[k] < ci[k + 1]);
                }
            }
        }
        assert forall|r: int| 0 <= r < n implies rp[r] <= #[trigger] rp[r + 1] <= ci.len() by {
            assert(upper_row_ok(rp, ci, n, r));
        }
    }

    /// Verify the internal invariants of the storage.
    ///
    /// Errors: `PatternLengthMismatch` if the row pointer array does not
    /// have `n + 1` entries; `DimensionMismatch` if values and column
    /// indices differ in length; otherwise the error of the first invalid
    /// row (see `row_error`).
    pub fn validate(&self) -> (r: Result<(), SparseError>)
        requires
            self.n < usize::MAX,
            self.rows_sliceable(),
        ensures
            r is Ok <==> self.valid(),
            self.wf() ==> r is Ok,
            self.row_ptr@.len() != self.n + 1 ==> r == Err::<(), SparseError>(
                SparseError::PatternLengthMismatch {
                    pattern_len: if self.row_ptr@.len() == 0 { 0 } else { (self.row_ptr@.len() - 1) as usize },
                    nrows: self.n,
                },
            ),
            self.row_ptr@.len() == self.n + 1 && self.values@.len() != self.col_idx@.len()
                ==> r == Err::<(), SparseError>(
                SparseError::DimensionMismatch { expected: self.col_idx@.len() as usize, got: self.values@.len() as usize },
            ),
            self.row_ptr@.len() == self.n + 1 && self.values@.len() == self.col_idx@.len() && r is Err
                ==> exists|q: int| {
                &&& 0 <= q < self.n
                &&& !#[trigger] row_valid(self.row_ptr@, self.col_idx@, self.n as int, q)
                &&& forall|q2: int| 0 <= q2 < q ==> row_valid(self.row_ptr@, self.col_idx@, self.n as int, q2)
                &&& r == Err::<(), SparseError>(row_error(self.row_ptr@, self.col_idx@, self.n as int, q))
            },
    {
        let n = self.n;
        if self.row_ptr.len() != n + 1 {
            let len = self.row_ptr.len();
            let pl = if len == 0 { 0 } else { len - 1 };
            return Err(SparseError::PatternLengthMismatch { pattern_len: pl, nrows: n });
        }
        if self.values.len() != self.col_idx.len() {
            return Err(SparseError::DimensionMismatch { expected: self.col_idx.len(), got: self.values.len() });
        }
        let ghost rp = self.row_ptr@;
        let ghost ci = self.col_idx@;
        proof {
            if self.wf() {
                assert forall|r: int| 0 <= r < n implies #[trigger] row_valid(rp, ci, n as int, r) by {
                    assert(upper_row_ok(rp, ci, n as int, r));
                    assert(ci[rp[r] as int] == r);
                    assert(row_has(rp, ci, r, r));
                    assert forall|k: int| !#[trigger] row_bad_entry(rp, ci, n as int, r, k) by {
                        if rp[r] <= k < rp[r + 1] {
                            assert(r <= ci[k] < n);
                        }
                    }
                    assert forall|k: int| !#[trigger] row_unsorted_at(rp, ci, r, k) by {
                        if rp[r] <= k && k + 1 < rp[r + 1] {
                            assert(ci[k] < ci[k + 1]);
                        }
                    }
                }
            }
        }
        let mut row: usize = 0;
        while row < n
            invariant
                n == self.n,
                rp == self.row_ptr@,
                ci == self.col_idx@,
                rp.len() == n + 1,
                self.rows_sliceable(),
                0 <= row <= n,
                forall|q: int| 0 <= q < row ==> #[trigger] row_valid(rp, ci, n as int, q),
                self.values@.len() == self.col_idx@.len(),
                self.wf() ==> forall|q: int| 0 <= q < n ==> #[trigger] row_valid(rp, ci, n as int, q),
            decreases n - row,
        {
            assert(rp[row as int] <= rp[row as int + 1] <= ci.len());
            let start = self.row_ptr[row];
            let end = self.row_ptr[row + 1];
            // diagonal present
            let mut k = start;
            let mut found = false;
            while k < end
                invariant
                    rp == self.row_ptr@,
                    ci == self.col_idx@,
                    start == rp[row as int],
                    end == rp[row as int + 1],
                    end <= ci.len(),
                    start <= k <= end,
                    found <==> exists|j: int| start <= j < k && #[trigger] ci[j] == row,
                    row < n,
                    self.values@.len() == self.col_idx@.len(),
                    rp.len() == n + 1,
                    n == self.n,
                    forall|q: int| 0 <= q < row ==> #[trigger] row_valid(rp, ci, n as int, q),
                    self.wf() ==> forall|q: int| 0 <= q < n ==> #[trigger] row_valid(rp, ci, n as int, q),
                decreases end - k,
            {
                if self.col_idx[k] == row {
                    found = true;
                }
                k = k + 1;
            }
            proof {
                if found {
                    let j = choose|j: int| start <= j < k && #[trigger] ci[j] == row;
                    assert(row_has(rp, ci, row as int, row as int));
                }
            }
            if !found {
                proof {
                    assert(!row_has(rp, ci, row as int, row as int));
                    assert(!row_valid(rp, ci, n as int, row as int));
                }
                return Err(SparseError::IndexOutOfBounds { row, col: row });
            }
            // every column in range and in the upper triangle
            let mut k = start;
            while k < end
                invariant
                    n == self.n,
                    rp == self.row_ptr@,
                    ci == self.col_idx@,
                    row < n,
                    start == rp[row as int],
                    end == rp[row as int + 1],
                    end <= ci.len(),
                    start <= k <= end,
                    forall|j: int| j < k ==> !#[trigger] row_bad_entry(rp, ci, n as int, row as int, j),
                    row_has(rp, ci, row as int, row as int),
                    self.values@.len() == self.col_idx@.len(),
                    rp.len() == n + 1,
                    n == self.n,
                    forall|q: int| 0 <= q < row ==> #[trigger] row_valid(rp, ci, n as int, q),
                    self.wf() ==> forall|q: int| 0 <= q < n ==> #[trigger] row_valid(rp, ci, n as int, q),
                decreases end - k,
            {
                let c = self.col_idx[k];
                if c >= n || c < row {
                    proof {
                        assert(row_bad_entry(rp, ci, n as int, row as int, k as int));
                        let kk = choose|kk: int| #[trigger] row_bad_entry(rp, ci, n as int, row as int, kk)
                            && forall|k2: int| k2 < kk ==> !row_bad_entry(rp, ci, n as int, row as int, k2);
                        assert(kk == k) by {
                            if kk < k {
                                assert(!row_bad_entry(rp, ci, n as int, row as int, kk));
                            } else if kk > k {
                                assert(!row_bad_entry(rp, ci, n as int, row as int, k as int));
                            }
                        }
                        assert(!row_valid(rp, ci, n as int, row as int));
                    }
                    if c >= n {
                        return Err(SparseError::ColOutOfRange { col: c, ncols: n });
                    }
                    return Err(SparseError::LowerTriangleEntry { row, col: c });
                }
                k = k + 1;
            }
            proof {
                assert forall|j: int| !#[trigger] row_bad_entry(rp, ci, n as int, row as int, j) by {
                    if j >= k {
                        assert(!(rp[row as int] <= j < rp[row as int + 1]));
                    }
                }
            }
            // strictly increasing
            if end > start {
                let mut k = start;
                while k + 1 < end
                    invariant
                        n == self.n,
                        rp == self.row_ptr@,
                        ci == self.col_idx@,
                        row < n,
                        start == rp[row as int],
                        end == rp[row as int + 1],
                        end <= ci.len(),
                        start <= k < end,
                        forall|j: int| j < k ==> !#[trigger] row_unsorted_at(rp, ci, row as int, j),
                        forall|j: int| !#[trigger] row_bad_entry(rp, ci, n as int, row as int, j),
                        row_has(rp, ci, row as int, row as int),
                        self.values@.len() == self.col_idx@.len(),
                        rp.len() == n + 1,
                        n == self.n,
                        forall|q: int| 0 <= q < row ==> #[trigger] row_valid(rp, ci, n as int, q),
                        self.wf() ==> forall|q: int| 0 <= q < n ==> #[trigger] row_valid(rp, ci, n as int, q),
                    decreases end - k,
                {
                    if self.col_idx[k] >= self.col_idx[k + 1] {
                        proof {
                            assert(row_unsorted_at(rp, ci, row as int, k as int));
                            let kk = choose|kk: int| #[trigger] row_unsorted_at(rp, ci, row as int, kk)
                                && forall|k2: int| k2 < kk ==> !row_unsorted_at(rp, ci, row as int, k2);
                            assert(kk == k) by {
                                if kk < k {
                                    assert(!row_unsorted_at(rp, ci, row as int, kk));
                                } else if kk > k {
                                    assert(!row_unsorted_at(rp, ci, row as int, k as int));
                                }
                            }
                            assert(!row_valid(rp, ci, n as int, row as int));
                        }
                        return Err(SparseError::IndexOutOfBounds { row, col: self.col_idx[k] });
                    }
                    k = k + 1;
                }
                proof {
                    assert forall|j: int| !#[trigger] row_unsorted_at(rp, ci, row as int, j) by {
                        if j >= k {
                            assert(!(j + 1 < rp[row as int + 1]));
                        }
                    }
                }
            }
            proof {
                assert(row_valid(rp, ci, n as int, row as int));
            }
            row = row + 1;
        }
        Ok(())
    }
}

} // verus!

verus! {

// -----------------------------------------------------------------
// Pattern from element connectivity
// -----------------------------------------------------------------

/// Position `a` of element `e` names a DOF outside `0..n`.
pub open spec fn dof_bad(elems: Seq<Vec<usize>>, n: usize, e: int, a: int) -> bool {
    &&& 0 <= e < elems.len()
    &&& 0 <= a < elems[e]@.len()
    &&& elems[e]@[a] >= n
}

/// `(e, a)` is the first out-of-range DOF, elements in order and positions
/// in order within an element.
pub open spec fn first_dof_bad(elems: Seq<Vec<usize>>, n: usize, e: int, a: int) -> bool {
    &&& dof_bad(elems, n, e, a)
    &&& forall|e2: int, a2: int| (e2 < e || (e2 == e && a2 < a)) ==> !#[trigger] dof_bad(elems, n, e2, a2)
}

/// DOFs `i` and `j` appear together in some element.
pub open spec fn dofs_coupled(elems: Seq<Vec<usize>>, i: usize, j: usize) -> bool {
    exists|e: int| 0 <= e < elems.len() && #[trigger] elems[e]@.contains(i) && elems[e]@.contains(j)
}

impl<T: SparseScalar> SymCsrMatrix<T> {
    /// Build the zero-valued upper-triangle pattern of a matrix assembled
    /// from elements: entry `(i, j)`, `i <= j`, is stored when `i == j` or
    /// DOFs `i` and `j` share an element.
    ///
    /// Errors: `ColOutOfRange` for the first DOF `>= n_dof`, scanning the
    /// elements in order.
    pub fn from_dof_connectivity(n_dof: usize, element_dofs: &[Vec<usize>]) -> (r: Result<Self, SparseError>)
        ensures
            (exists|e: int, a: int| #[trigger] dof_bad(element_dofs@, n_dof, e, a)) <==> r is Err,
            r matches Err(err) ==> exists|e: int, a: int| {
                &&& #[trigger] first_dof_bad(element_dofs@, n_dof, e, a)
                &&& err == SparseError::ColOutOfRange { col: element_dofs@[e]@[a], ncols: n_dof }
            },
            r matches Ok(m) ==> {
                &&& m.wf()
                &&& m.n == n_dof
                &&& m.all_zero()
                &&& forall|i: int, c: usize| 0 <= i < n_dof ==> (m.stored(i, c as int) <==> (c == i || (
                    i <= c && dofs_coupled(element_dofs@, i as usize, c))))
            },
    {
        let ghost elems = element_dofs@;
        let mut pattern: Vec<Vec<usize>> = Vec::new();
        let mut t: usize = 0;
        while t < n_dof
            invariant
                0 <= t <= n_dof,
                pattern@.len() == t,
                forall|q: int| 0 <= q < t ==> #[trigger] pattern@[q]@.len() == 0,
            decreases n_dof - t,
        {
            pattern.push(Vec::new());
            t = t + 1;
        }
        let mut e: usize = 0;
        while e < element_dofs.len()
            invariant
                elems == element_dofs@,
                0 <= e <= elems.len(),
                pattern@.len() == n_dof,
                forall|e2: int, a2: int| e2 < e ==> !#[trigger] dof_bad(elems, n_dof, e2, a2),
                // every recorded column is coupled and in the upper triangle
                forall|i: int, c: usize| 0 <= i < n_dof && #[trigger] pattern@[i]@.contains(c) ==> (c == i || (
                    i <= c && dofs_coupled(elems, i as usize, c))) && c < n_dof,
                // every coupling of the processed elements is recorded
                forall|e2: int, i: usize, c: usize|
                    #![trigger elems[e2]@.contains(i), elems[e2]@.contains(c)]
                    0 <= e2 < e && elems[e2]@.contains(i) && elems[e2]@.contains(c) && i <= c && i < n_dof
                        ==> pattern@[i as int]@.contains(c),
            decreases elems.len() - e,
        {
            let dofs = &element_dofs[e];
            let mut a: usize = 0;
            while a < dofs.len()
                invariant
                    elems == element_dofs@,
                    0 <= e < elems.len(),
                    dofs == elems[e as int],
                    0 <= a <= dofs@.len(),
                    pattern@.len() == n_dof,
                    forall|e2: int, a2: int| e2 < e ==> !#[trigger] dof_bad(elems, n_dof, e2, a2),
                    forall|a2: int| 0 <= a2 < dofs@.len() && a > 0 ==> !#[trigger] dof_bad(elems, n_dof, e as int, a2),
                    forall|i: int, c: usize| 0 <= i < n_dof && #[trigger] pattern@[i]@.contains(c) ==> (c == i || (
                        i <= c && dofs_coupled(elems, i as usize, c))) && c < n_dof,
                    forall|e2: int, i: usize, c: usize|
                        #![trigger elems[e2]@.contains(i), elems[e2]@.contains(c)]
                        0 <= e2 < e && elems[e2]@.contains(i) && elems[e2]@.contains(c) && i <= c && i < n_dof
                            ==> pattern@[i as int]@.contains(c),
                    forall|a2: int| 0 <= a2 < a ==> #[trigger] dofs@[a2] < n_dof,
                    forall|a2: int, c: usize|
                        #![trigger dofs@[a2], dofs@.contains(c)]
                        0 <= a2 < a && dofs@.contains(c) && dofs@[a2] <= c
                            ==> pattern@[dofs@[a2] as int]@.contains(c),
                decreases dofs@.len() - a,
            {
                let i = dofs[a];
                if i >= n_dof {
                    proof {
                        assert(dof_bad(elems, n_dof, e as int, a as int));
                        assert(a == 0);
                        assert(first_dof_bad(elems, n_dof, e as int, a as int));
                    }
                    return Err(SparseError::ColOutOfRange { col: i, ncols: n_dof });
                }
                let ghost before = pattern@;
                pattern[i].push(i);
                proof {
                    assert(elems[e as int]@.contains(i));
                    lemma_pattern_push(before, pattern@, i as int, i);
                }
                let mut b: usize = 0;
                while b < dofs.len()
                    invariant
                        elems == element_dofs@,
                        0 <= e < elems.len(),
                        dofs == elems[e as int],
                        0 <= a < dofs@.len(),
                        i == dofs@[a as int],
                        i < n_dof,
                        0 <= b <= dofs@.len(),
                        pattern@.len() == n_dof,
                        forall|e2: int, a2: int| e2 < e ==> !#[trigger] dof_bad(elems, n_dof, e2, a2),
                        forall|a2: int| 0 <= a2 < dofs@.len() && a > 0 ==> !#[trigger] dof_bad(elems, n_dof, e as int, a2),
                        forall|b2: int| 0 <= b2 < b ==> !#[trigger] dof_bad(elems, n_dof, e as int, b2),
                        forall|i2: int, c: usize| 0 <= i2 < n_dof && #[trigger] pattern@[i2]@.contains(c) ==> (c == i2 || (
                            i2 <= c && dofs_coupled(elems, i2 as usize, c))) && c < n_dof,
                        forall|e2: int, i2: usize, c: usize|
                            #![trigger elems[e2]@.contains(i2), elems[e2]@.contains(c)]
                            0 <= e2 < e && elems[e2]@.contains(i2) && elems[e2]@.contains(c) && i2 <= c && i2 < n_dof
                                ==> pattern@[i2 as int]@.contains(c),
                        forall|a2: int| 0 <= a2 < a ==> #[trigger] dofs@[a2] < n_dof,
                        forall|a2: int, c: usize|
                            #![trigger dofs@[a2], dofs@.contains(c)]
                            0 <= a2 < a && dofs@.contains(c) && dofs@[a2] <= c
                                ==> pattern@[dofs@[a2] as int]@.contains(c),
                        forall|b2: int| 0 <= b2 < b && i <= dofs@[b2] ==> #[trigger] pattern@[i as int]@.contains(dofs@[b2]),
                    decreases dofs@.len() - b,
                {
                    let j = dofs[b];
                    if j >= n_dof {
                        proof {
                            assert(dof_bad(elems, n_dof, e as int, b as int));
                            assert(a == 0);
                            assert(first_dof_bad(elems, n_dof, e as int, b as int));
                        }
                        return Err(SparseError::ColOutOfRange { col: j, ncols: n_dof });
                    }
                    if j >= i {
                        let ghost before = pattern@;
                        pattern[i].push(j);
                        proof {
                            assert(elems[e as int]@.contains(j));
                            assert(elems[e as int]@.contains(i));
                            assert(dofs_coupled(elems, i, j));
                            lemma_pattern_push(before, pattern@, i as int, j);
                        }
                    }
                    b = b + 1;
                }
                proof {
                    assert forall|c: usize| #[trigger] dofs@.contains(c) && i <= c implies pattern@[i as int]@.contains(c) by {
                        let b2 = choose|b2: int| 0 <= b2 < dofs@.len() && dofs@[b2] == c;
                        assert(pattern@[i as int]@.contains(dofs@[b2]));
                    }
                }
                a = a + 1;
            }
            proof {
                assert forall|e2: int, i2: usize, c: usize|
                    #![trigger elems[e2]@.contains(i2), elems[e2]@.contains(c)]
                    0 <= e2 < e + 1 && elems[e2]@.contains(i2) && elems[e2]@.contains(c) && i2 <= c && i2 < n_dof
                        implies pattern@[i2 as int]@.contains(c) by {
                    if e2 == e {
                        let a2 = choose|a2: int| 0 <= a2 < dofs@.len() && dofs@[a2] == i2;
                        assert(pattern@[dofs@[a2] as int]@.contains(c));
                    }
                }
                assert forall|e2: int, a2: int| e2 < e + 1 implies !#[trigger] dof_bad(elems, n_dof, e2, a2) by {
                    if e2 == e && dofs@.len() > 0 {
                        assert(!dof_bad(elems, n_dof, e as int, a2));
                    }
                }
            }
            e = e + 1;
        }
        proof {
            assert(!exists|e: int, a: int| #[trigger] dof_bad(elems, n_dof, e, a));
            assert forall|r: int, k: int| !#[trigger] upper_entry_bad(n_dof, pattern@, r, k) by {
                if 0 <= r < pattern@.len() && 0 <= k < pattern@[r]@.len() {
                    assert(pattern@[r]@.contains(pattern@[r]@[k]));
                }
            }
        }
        let res = Self::from_pattern(n_dof, &pattern);
        match res {
            Ok(m) => {
                proof {
                    assert forall|i: int, c: usize| 0 <= i < n_dof implies (m.stored(i, c as int) <==> (c == i || (
                        i <= c && dofs_coupled(elems, i as usize, c)))) by {
                        if i <= c && dofs_coupled(elems, i as usize, c) {
                            let e2 = choose|e2: int| 0 <= e2 < elems.len() && #[trigger] elems[e2]@.contains(i as usize)
                                && elems[e2]@.contains(c);
                            assert(pattern@[i]@.contains(c));
                        }
                    }
                }
                Ok(m)
            },
            Err(err) => {
                proof {
                    assert(false);
                }
                Err(err)
            },
        }
    }
}

/// Pushing `c` onto row `i` of a pattern adds exactly `c` to that row.
pub(crate) proof fn lemma_pattern_push(before: Seq<Vec<usize>>, after: Seq<Vec<usize>>, i: int, c: usize)
    requires
        0 <= i < before.len(),
        after.len() == before.len(),
        after[i]@ == before[i]@.push(c),
        forall|q: int| 0 <= q < before.len() && q != i ==> after[q] == before[q],
    ensures
        forall|q: int, x: usize| 0 <= q < before.len() ==> (#[trigger] after[q]@.contains(x) <==> (
            before[q]@.contains(x) || (q == i && x == c))),
{
    assert forall|q: int, x: usize| 0 <= q < before.len() implies (#[trigger] after[q]@.contains(x) <==> (
        before[q]@.contains(x) || (q == i && x == c))) by {
        if q == i {
            if after[q]@.contains(x) {
                let k = choose|k: int| 0 <= k < after[q]@.len() && after[q]@[k] == x;
                if k < before[q]@.len() {
                    assert(before[q]@[k] == x);
                }
            }
            if before[q]@.contains(x) {
                let k = choose|k: int| 0 <= k < before[q]@.len() && before[q]@[k] == x;
                assert(after[q]@[k] == x);
            }
            if x == c {
                assert(after[q]@[before[q]@.len() as int] == c);
            }
        }
    }
}

impl<T: SparseScalar> SymCsrMatrix<T> {
    /// The assembly pattern covers its elements: a matrix built by
    /// `from_dof_connectivity(n_dof, element_dofs)` stores the upper entry
    /// `(dofs[a], dofs[b])`, `dofs[a] <= dofs[b]`, of every pair of every
    /// element `dofs`, so that scattering an element matrix of any of the
    /// elements succeeds.
    pub proof fn law_connectivity_covers_elements(m: Self, n_dof: usize, element_dofs: Seq<Vec<usize>>, e: int, ke: Seq<T>)
        requires
            m.wf(),
            m.n == n_dof,
            forall|i: int, c: usize| 0 <= i < n_dof ==> (#[trigger] m.stored(i, c as int) <==> (c == i || (
                i <= c && dofs_coupled(element_dofs, i as usize, c)))),
            !exists|e2: int, a: int| #[trigger] dof_bad(element_dofs, n_dof, e2, a),
            0 <= e < element_dofs.len(),
        ensures
            forall|a: int, b: int| 0 <= a < element_dofs[e]@.len() && 0 <= b < element_dofs[e]@.len()
                && element_dofs[e]@[a] <= element_dofs[e]@[b]
                ==> #[trigger] m.stored(element_dofs[e]@[a] as int, element_dofs[e]@[b] as int),
            m.targets_ok(scatter_targets(element_dofs[e]@, ke, element_dofs[e]@.len() as int)),
    {
        let dofs = element_dofs[e]@;
        assert forall|a: int, b: int| 0 <= a < dofs.len() && 0 <= b < dofs.len() && dofs[a] <= dofs[b]
            implies #[trigger] m.stored(dofs[a] as int, dofs[b] as int) by {
            assert(!dof_bad(element_dofs, n_dof, e, a));
            assert(dofs.contains(dofs[a]) && dofs.contains(dofs[b]));
            assert(dofs_coupled(element_dofs, dofs[a], dofs[b]));
        }
        Self::law_scatter_add_succeeds(m, ke, dofs);
    }
}

// -----------------------------------------------------------------
// Dense view and printout
// -----------------------------------------------------------------

impl<T: SparseScalar> SymCsrMatrix<T> {
    /// `v` is entry `(r, c)` of the full matrix: the stored value of the
    /// upper-triangle entry `(min, max)`, or a zero if it is not stored.
    pub open spec fn full_entry_is(&self, r: int, c: int, v: T) -> bool {
        let (a, b) = if c >= r { (r, c) } else { (c, r) };
        if self.stored(a, b) {
            v == self.value_at(a, b)
        } else {
            is_zero_value(v)
        }
    }

    /// `d` is the dense full matrix.
    pub open spec fn dense_view(&self, d: Seq<Vec<T>>) -> bool {
        &&& d.len() == self.n
        &&& forall|r: int| 0 <= r < self.n ==> #[trigger] d[r]@.len() == self.n
        &&& forall|r: int, c: int| 0 <= r < self.n && 0 <= c < self.n ==> self.full_entry_is(r, c, #[trigger] d[r]@[c])
    }

    /// The dense full matrix, entry by entry with `get`.
    fn dense_rows(&self) -> (d: Vec<Vec<T>>)
        requires
            self.wf(),
        ensures
            self.dense_view(d@),
    {
        let mut d: Vec<Vec<T>> = Vec::new();
        let mut r: usize = 0;
        while r < self.n
            invariant
                self.wf(),
                0 <= r <= self.n,
                d@.len() == r,
                forall|q: int| 0 <= q < r ==> #[trigger] d@[q]@.len() == self.n,
                forall|q: int, c: int| 0 <= q < r && 0 <= c < self.n ==> self.full_entry_is(q, c, #[trigger] d@[q]@[c]),
            decreases self.n - r,
        {
            let mut line: Vec<T> = Vec::new();
            let mut c: usize = 0;
            while c < self.n
                invariant
                    self.wf(),
                    0 <= r < self.n,
                    0 <= c <= self.n,
                    line@.len() == c,
                    forall|q: int| 0 <= q < c ==> self.full_entry_is(r as int, q, #[trigger] line@[q]),
                decreases self.n - c,
            {
                let v = match self.get(r, c) {
                    Ok(v) => v,
                    Err(_) => {
                        proof {
                            assert(false);
                        }
                        T::zero()
                    },
                };
                line.push(v);
                c = c + 1;
            }
            d.push(line);
            r = r + 1;
        }
        d
    }

    /// The full matrix as text: one line per row, every entry (zeros and
    /// mirrored entries included) rendered by the scalar type, between
    /// brackets and separated by `", "`.
    pub fn display_text(&self) -> (s: String)
        requires
            self.wf(),
        ensures
            exists|d: Seq<Vec<T>>| self.dense_view(d) && #[trigger] printout(d, s@),
    {
        let d = self.dense_rows();
        render_rows(&d)
    }
}

// -----------------------------------------------------------------
// Laws
// -----------------------------------------------------------------

impl<T: SparseScalar> SymCsrMatrix<T> {
    /// The full matrix is symmetric: entry `(r, c)` and entry `(c, r)` are
    /// the same stored value (or both structural zeros), so `get(r, c)` and
    /// `get(c, r)` read the same thing.
    pub proof fn lemma_full_entry_symmetric(&self, r: int, c: int, v: T)
        ensures
            self.full_entry_is(r, c, v) <==> self.full_entry_is(c, r, v),
    {
    }

    /// `get(row, col)` may return `r`: `RowOutOfRange` if `row >= n`, else
    /// `ColOutOfRange` if `col >= n`, else the value of entry `(row, col)` of
    /// the full matrix.
    pub open spec fn get_reads(&self, row: usize, col: usize, r: Result<T, SparseError>) -> bool {
        &&& row >= self.n ==> r == Err::<T, SparseError>(SparseError::RowOutOfRange { row, nrows: self.n })
        &&& row < self.n && col >= self.n ==> r == Err::<T, SparseError>(
            SparseError::ColOutOfRange { col, ncols: self.n },
        )
        &&& row < self.n && col < self.n ==> (r matches Ok(v) && self.full_entry_is(row as int, col as int, v))
    }

    /// `get(r, c)` and `get(c, r)` give the same result for indices inside
    /// the matrix: the stored value of the entry, or, for an absent entry, a
    /// zero of the scalar, the same zero when the scalar type has only one.
    pub proof fn lemma_get_symmetric(&self, r: usize, c: usize, x: Result<T, SparseError>, y: Result<T, SparseError>)
        requires
            r < self.n,
            c < self.n,
            self.get_reads(r, c, x),
            self.get_reads(c, r, y),
            zero_is_unique::<T>(),
        ensures
            x == y,
    {
    }

    /// Dirichlet condition on the stored entries: after `zero_row_col(dof)`
    /// on a `dof` inside the matrix, the diagonal entry `(dof, dof)` is one,
    /// every other stored entry of row `dof` or of column `dof` is zero, and
    /// every entry outside them keeps its value.
    pub proof fn law_zero_row_col_entries(before: Self, after: Self, dof: int)
        requires
            before.wf(),
            after.same_pattern(&before),
            0 <= dof < before.n,
            forall|k: int| 0 <= k < before.values@.len() ==> {
                let v = #[trigger] after.values@[k];
                if k == before.start(dof) {
                    is_one_value(v)
                } else if before.start(dof) < k < before.end(dof) || before.in_column_above(dof, k) {
                    is_zero_value(v)
                } else {
                    v == before.values@[k]
                }
            },
        ensures
            forall|r: int, c: int| #[trigger] before.stored(r, c) ==> {
                let v = after.value_at(r, c);
                &&& r == dof && c == dof ==> is_one_value(v)
                &&& (r == dof) != (c == dof) ==> is_zero_value(v)
                &&& r != dof && c != dof ==> v == before.value_at(r, c)
            },
    {
        before.lemma_same_pattern_slot_all(after);
        assert forall|r: int, c: int| #[trigger] before.stored(r, c) implies {
            let v = after.value_at(r, c);
            &&& r == dof && c == dof ==> is_one_value(v)
            &&& (r == dof) != (c == dof) ==> is_zero_value(v)
            &&& r != dof && c != dof ==> v == before.value_at(r, c)
        } by {
            let k = before.slot(r, c);
            assert(before.is_slot(r, c, k));
            before.lemma_row_bounds(r);
            before.lemma_row_bounds(dof);
            assert(upper_row_ok(before.row_ptr@, before.col_idx@, before.n as int, r));
            assert(upper_row_ok(before.row_ptr@, before.col_idx@, before.n as int, dof));
            assert(after.slot(r, c) == k);
            assert(after.values@[k] == after.values@[k]);
            if r == dof {
                if c == dof {
                    before.lemma_slot_unique(dof, dof, k, before.start(dof));
                } else {
                    assert(before.col_idx@[before.start(dof)] == dof);
                }
            } else {
                if r < dof {
                    before.lemma_rows_disjoint(r, dof);
                } else {
                    before.lemma_rows_disjoint(dof, r);
                }
                if c == dof {
                    assert(r <= c);
                    assert(before.in_column_above(dof, k));
                } else if before.in_column_above(dof, k) {
                    let r2 = choose|r2: int| 0 <= r2 < dof && #[trigger] before.is_slot(r2, dof, k);
                    assert(before.col_idx@[k] == dof);
                }
            }
        }
    }

    /// Read after write: once `set_value(r, c, v)` has succeeded, entry
    /// `(r, c)` holds `v` and every other stored entry is unchanged.
    pub proof fn lemma_set_then_get(before: Self, after: Self, r: int, c: int, v: T)
        requires
            before.wf(),
            before.stored(r, c),
            after.same_pattern(&before),
            after.values@ == before.values@.update(before.slot(r, c), v),
        ensures
            after.stored(r, c),
            after.value_at(r, c) == v,
            forall|a: int, b: int| #[trigger] before.stored(a, b) && (a, b) != (r, c) ==>
                after.stored(a, b) && after.value_at(a, b) == before.value_at(a, b),
    {
        before.lemma_row_bounds(r);
        before.lemma_same_pattern_slot_all(after);
        before.lemma_slot_is(r, c, before.slot(r, c));
        assert forall|a: int, b: int| #[trigger] before.stored(a, b) && (a, b) != (r, c) implies
            after.stored(a, b) && after.value_at(a, b) == before.value_at(a, b) by {
            before.lemma_row_bounds(a);
            before.lemma_slot_is(a, b, before.slot(a, b));
            if before.slot(a, b) == before.slot(r, c) {
                before.lemma_slot_injective(a, b, r, c);
            }
        }
    }
}

} // verus!
