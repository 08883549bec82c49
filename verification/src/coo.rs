//! Coordinate (triplet) builder for sparse matrices.
use vstd::prelude::*;
use crate::error::SparseError;
use crate::ordering::permutation::zero_plus;
use crate::scalar::{SparseScalar, is_zero_value, added_in_order, lemma_added_none, lemma_added_step};
use crate::sym::{SymCsrMatrix, upper_entry_bad, lemma_pattern_push};
use crate::csr::CsrMatrix;
use crate::compressed::{pattern_entry_bad, is_line_slot, lemma_line_bounds, lemma_line_slot_injective};

verus! {

/// Accumulates `(row, col, value)` triplets; repeated coordinates are
/// summed when the matrix is built.
#[derive(Debug, Clone)]
pub struct CooBuilder<T> {
    nrows: usize,
    ncols: usize,
    triplets: Vec<(usize, usize, T)>,
}

/// The upper-triangle coordinate a triplet contributes to.
pub open spec fn upper_key<T>(t: (usize, usize, T)) -> (usize, usize) {
    if t.1 >= t.0 {
        (t.0, t.1)
    } else {
        (t.1, t.0)
    }
}

/// The values of the triplets of `es` that land on `(i, c)`, in order.
pub open spec fn key_values<T>(es: Seq<(usize, usize, T)>, i: usize, c: usize) -> Seq<T>
    decreases es.len(),
{
    if es.len() == 0 {
        Seq::empty()
    } else {
        let prev = key_values(es.drop_last(), i, c);
        if upper_key(es.last()) == (i, c) {
            prev.push(es.last().2)
        } else {
            prev
        }
    }
}

/// The accumulation steps that add each of `vals` into a single slot.
pub open spec fn into_slot_zero<T>(vals: Seq<T>) -> Seq<(int, T)> {
    vals.map_values(|v: T| (0int, v))
}

/// `acc` is the sum, from a zero value and in order, of `vals`.
pub open spec fn summed<T: SparseScalar>(vals: Seq<T>, acc: T) -> bool {
    exists|z: T| is_zero_value(z) && #[trigger] added_in_order(seq![z], seq![acc], into_slot_zero(vals))
}

/// Triplet `k` has a coordinate outside an `n x n` matrix.
pub open spec fn triplet_bad<T>(es: Seq<(usize, usize, T)>, n: usize, k: int) -> bool {
    &&& 0 <= k < es.len()
    &&& (es[k].0 >= n || es[k].1 >= n)
}

/// The error reported for a triplet outside an `n x n` matrix.
pub open spec fn triplet_error<T>(t: (usize, usize, T), n: usize) -> SparseError {
    if t.0 >= n {
        SparseError::RowOutOfRange { row: t.0, nrows: n }
    } else {
        SparseError::ColOutOfRange { col: t.1, ncols: n }
    }
}

/// The values of the triplets of `es` at coordinate `(i, c)` exactly, in
/// order.
pub open spec fn cell_values<T>(es: Seq<(usize, usize, T)>, i: usize, c: usize) -> Seq<T>
    decreases es.len(),
{
    if es.len() == 0 {
        Seq::empty()
    } else {
        let prev = cell_values(es.drop_last(), i, c);
        if (es.last().0, es.last().1) == (i, c) {
            prev.push(es.last().2)
        } else {
            prev
        }
    }
}

/// Triplet `k` has a coordinate outside an `nrows x ncols` matrix.
pub open spec fn triplet_outside<T>(es: Seq<(usize, usize, T)>, nrows: usize, ncols: usize, k: int) -> bool {
    &&& 0 <= k < es.len()
    &&& (es[k].0 >= nrows || es[k].1 >= ncols)
}

/// The error reported for a triplet outside an `nrows x ncols` matrix.
pub open spec fn triplet_outside_error<T>(t: (usize, usize, T), nrows: usize, ncols: usize) -> SparseError {
    if t.0 >= nrows {
        SparseError::RowOutOfRange { row: t.0, nrows }
    } else {
        SparseError::ColOutOfRange { col: t.1, ncols }
    }
}

/// The triplet a Matrix Market entry contributes: a symmetric listing's
/// entries are moved to the upper triangle.
pub open spec fn mtx_triplet<T>(e: (usize, usize, T), symmetric: bool) -> (usize, usize, T) {
    if symmetric && e.0 > e.1 {
        (e.1, e.0, e.2)
    } else {
        e
    }
}

impl<T: SparseScalar> CooBuilder<T> {
    /// The declared number of rows.
    pub closed spec fn rows(&self) -> usize {
        self.nrows
    }

    /// The declared number of columns.
    pub closed spec fn cols(&self) -> usize {
        self.ncols
    }

    /// The triplets added so far, in order.
    pub closed spec fn entries(&self) -> Seq<(usize, usize, T)> {
        self.triplets@
    }

    /// A builder for an `nrows x ncols` matrix.
    pub fn new(nrows: usize, ncols: usize) -> (r: Self)
        ensures
            r.rows() == nrows,
            r.cols() == ncols,
            r.entries() == Seq::<(usize, usize, T)>::empty(),
    {
        CooBuilder { nrows, ncols, triplets: Vec::new() }
    }

    /// A builder with room reserved for `cap` triplets.
    pub fn with_capacity(nrows: usize, ncols: usize, cap: usize) -> (r: Self)
        ensures
            r.rows() == nrows,
            r.cols() == ncols,
            r.entries() == Seq::<(usize, usize, T)>::empty(),
    {
        CooBuilder { nrows, ncols, triplets: Vec::with_capacity(cap) }
    }

    /// Add a triplet; coordinates are checked only when building.
    pub fn add(&mut self, row: usize, col: usize, val: T)
        ensures
            final(self).rows() == old(self).rows(),
            final(self).cols() == old(self).cols(),
            final(self).entries() == old(self).entries().push((row, col, val)),
    {
        self.triplets.push((row, col, val));
    }

    /// The builder of a Matrix Market coordinate listing of an
    /// `nrows x ncols` matrix (0-based coordinates): one triplet per listed
    /// entry, in order.  A symmetric listing may give either triangle; each
    /// of its entries is added with row and column swapped when the row is
    /// the larger, so that every triplet lies on or above the diagonal.
    pub fn from_mtx_entries(nrows: usize, ncols: usize, entries: &[(usize, usize, T)], symmetric: bool) -> (r: Self)
        ensures
            r.rows() == nrows,
            r.cols() == ncols,
            r.entries().len() == entries@.len(),
            forall|k: int| 0 <= k < entries@.len() ==> #[trigger] r.entries()[k] == mtx_triplet(entries@[k], symmetric),
    {
        let mut b = CooBuilder::with_capacity(nrows, ncols, entries.len());
        let mut k: usize = 0;
        while k < entries.len()
            invariant
                0 <= k <= entries@.len(),
                b.rows() == nrows,
                b.cols() == ncols,
                b.entries().len() == k,
                forall|q: int| 0 <= q < k ==> #[trigger] b.entries()[q] == mtx_triplet(entries@[q], symmetric),
            decreases entries@.len() - k,
        {
            let (row, col, val) = entries[k];
            if symmetric && row > col {
                b.add(col, row, val);
            } else {
                b.add(row, col, val);
            }
            k = k + 1;
        }
        b
    }

    /// Number of triplets added (repeats counted).
    pub fn len(&self) -> (r: usize)
        ensures
            r == self.entries().len(),
    {
        self.triplets.len()
    }

    /// `true` if no triplet has been added.
    pub fn is_empty(&self) -> (r: bool)
        ensures
            r <==> self.entries().len() == 0,
    {
        self.triplets.len() == 0
    }

    /// Build a general CSR matrix: the stored entries are the coordinates
    /// of the triplets; the values of the triplets at one coordinate are
    /// summed in order from zero and the sum added to the zero-valued
    /// entry.
    ///
    /// Errors: for the first triplet out of range, `RowOutOfRange` (checked
    /// first) or `ColOutOfRange`.
    pub fn build_csr(self) -> (r: Result<CsrMatrix<T>, SparseError>)
        ensures
            r is Err <==> exists|k: int| #[trigger] triplet_outside(self.entries(), self.rows(), self.cols(), k),
            r is Err ==> exists|k: int| {
                &&& #[trigger] triplet_outside(self.entries(), self.rows(), self.cols(), k)
                &&& forall|k2: int| 0 <= k2 < k ==> !triplet_outside(self.entries(), self.rows(), self.cols(), k2)
                &&& r == Err::<CsrMatrix<T>, SparseError>(triplet_outside_error(self.entries()[k], self.rows(), self.cols()))
            },
            r matches Ok(m) ==> {
                &&& m.wf()
                &&& m.nrows == self.rows()
                &&& m.ncols == self.cols()
                &&& forall|i: int, c: usize| 0 <= i < m.nrows ==> (#[trigger] m.stored(i, c as int) <==>
                    cell_values(self.entries(), i as usize, c).len() > 0)
                &&& forall|i: int, c: usize| 0 <= i < m.nrows && #[trigger] m.stored(i, c as int) ==>
                    exists|acc: T| #[trigger] summed(cell_values(self.entries(), i as usize, c), acc)
                        && zero_plus(acc, m.value_at(i, c as int))
            },
    {
        let nrows = self.nrows;
        let ncols = self.ncols;
        let ghost es = self.triplets@;
        let len = self.triplets.len();
        let mut k: usize = 0;
        while k < len
            invariant
                len == es.len(),
                es == self.triplets@,
                nrows == self.nrows,
                ncols == self.ncols,
                0 <= k <= len,
                forall|k2: int| 0 <= k2 < k ==> !#[trigger] triplet_outside(es, nrows, ncols, k2),
            decreases len - k,
        {
            let (row, col, _) = self.triplets[k];
            if row >= nrows {
                proof {
                    assert(triplet_outside(es, nrows, ncols, k as int));
                    assert(triplet_outside(self.entries(), self.rows(), self.cols(), k as int));
                }
                return Err(SparseError::RowOutOfRange { row, nrows });
            }
            if col >= ncols {
                proof {
                    assert(triplet_outside(es, nrows, ncols, k as int));
                    assert(triplet_outside(self.entries(), self.rows(), self.cols(), k as int));
                }
                return Err(SparseError::ColOutOfRange { col, ncols });
            }
            k = k + 1;
        }
        proof {
            assert forall|k2: int| !#[trigger] triplet_outside(es, nrows, ncols, k2) by {}
        }
        // pattern of the coordinates
        let mut pattern: Vec<Vec<usize>> = Vec::new();
        let mut t: usize = 0;
        while t < nrows
            invariant
                0 <= t <= nrows,
                pattern@.len() == t,
                forall|q: int| 0 <= q < t ==> #[trigger] pattern@[q]@.len() == 0,
            decreases nrows - t,
        {
            pattern.push(Vec::new());
            t = t + 1;
        }
        let mut k: usize = 0;
        while k < len
            invariant
                len == es.len(),
                es == self.triplets@,
                nrows == self.nrows,
                0 <= k <= len,
                pattern@.len() == nrows,
                forall|k2: int| !#[trigger] triplet_outside(es, nrows, ncols, k2),
                forall|i: int, c: usize| 0 <= i < nrows && #[trigger] pattern@[i]@.contains(c) ==> c < ncols,
                forall|i: int, c: usize| 0 <= i < nrows ==> (#[trigger] pattern@[i]@.contains(c) <==> cell_values(es.take(k as int), i as usize, c).len() > 0),
            decreases len - k,
        {
            let (row, col, _) = self.triplets[k];
            proof {
                assert(!triplet_outside(es, nrows, ncols, k as int));
            }
            let ghost before = pattern@;
            pattern[row].push(col);
            proof {
                lemma_pattern_push(before, pattern@, row as int, col);
                assert(es.take(k + 1).drop_last() =~= es.take(k as int));
                assert(es.take(k + 1).last() == es[k as int]);
                assert forall|i: int, cc: usize| 0 <= i < nrows implies (#[trigger] pattern@[i]@.contains(cc) <==> cell_values(es.take(k + 1), i as usize, cc).len() > 0) by {
                    assert(before[i]@.contains(cc) <==> cell_values(es.take(k as int), i as usize, cc).len() > 0);
                }
            }
            k = k + 1;
        }
        proof {
            assert(es.take(len as int) =~= es);
            assert forall|r2: int, q: int| !#[trigger] pattern_entry_bad(ncols, pattern@, r2, q) by {
                if 0 <= r2 < pattern@.len() && 0 <= q < pattern@[r2]@.len() {
                    assert(pattern@[r2]@.contains(pattern@[r2]@[q]));
                }
            }
        }
        let mut csr = match CsrMatrix::from_pattern(nrows, ncols, &pattern) {
            Ok(m) => m,
            Err(e) => {
                proof {
                    assert(false);
                }
                return Err(e);
            },
        };
        let ghost csr0 = csr;
        // sum the values of each coordinate, in order, from zero
        let nnz = csr.values.len();
        let mut acc: Vec<T> = Vec::new();
        let mut hit: Vec<bool> = Vec::new();
        let mut t: usize = 0;
        while t < nnz
            invariant
                0 <= t <= nnz,
                acc@.len() == t,
                hit@.len() == t,
                forall|q: int| 0 <= q < t ==> is_zero_value(#[trigger] acc@[q]),
                forall|q: int| 0 <= q < t ==> !#[trigger] hit@[q],
            decreases nnz - t,
        {
            acc.push(T::zero());
            hit.push(false);
            t = t + 1;
        }
        proof {
            assert forall|i: int, c: usize| 0 <= i < nrows && #[trigger] csr0.stored(i, c as int) implies {
                let s = csr0.slot(i, c as int);
                &&& summed(cell_values(es.take(0), i as usize, c), acc@[s])
                &&& !hit@[s]
            } by {
                let s = csr0.slot(i, c as int);
                csr0.lemma_slot(i, c as int);
                let z = acc@[s];
                lemma_added_none(seq![z]);
                assert(into_slot_zero(cell_values(es.take(0), i as usize, c)) =~= Seq::<(int, T)>::empty());
            }
        }
        let mut k: usize = 0;
        while k < len
            invariant
                len == es.len(),
                es == self.triplets@,
                nrows == self.nrows,
                ncols == self.ncols,
                csr == csr0,
                csr0.wf(),
                csr0.nrows == nrows,
                csr0.ncols == ncols,
                nnz == csr0.values@.len(),
                0 <= k <= len,
                acc@.len() == nnz,
                hit@.len() == nnz,
                forall|k2: int| !#[trigger] triplet_outside(es, nrows, ncols, k2),
                forall|i: int, c: usize| 0 <= i < nrows ==> (#[trigger] csr0.stored(i, c as int) <==>
                    cell_values(es, i as usize, c).len() > 0),
                forall|i: int, c: usize| 0 <= i < nrows && #[trigger] csr0.stored(i, c as int) ==> {
                    let s = csr0.slot(i, c as int);
                    &&& summed(cell_values(es.take(k as int), i as usize, c), acc@[s])
                    &&& (hit@[s] <==> cell_values(es.take(k as int), i as usize, c).len() > 0)
                },
            decreases len - k,
        {
            let (row, col, val) = self.triplets[k];
            proof {
                assert(!triplet_outside(es, nrows, ncols, k as int));
                assert(es.take(k + 1).drop_last() =~= es.take(k as int));
                assert(es.take(k + 1).last() == es[k as int]);
                assert(cell_values(es.take(k + 1), row, col).len() > 0);
                lemma_cell_values_prefix(es, k + 1, row, col);
                assert(csr0.stored(row as int, col as int));
            }
            let s = match csr.find_idx(row, col) {
                Some(s) => s,
                None => {
                    proof {
                        assert(false);
                    }
                    0
                },
            };
            proof {
                csr0.lemma_slot(row as int, col as int);
            }
            let ghost acc0 = acc@;
            let nv = acc[s].plus(val);
            acc.set(s, nv);
            hit.set(s, true);
            proof {
                assert forall|i: int, cc: usize| 0 <= i < nrows && #[trigger] csr0.stored(i, cc as int) implies {
                    let s2 = csr0.slot(i, cc as int);
                    &&& summed(cell_values(es.take(k + 1), i as usize, cc), acc@[s2])
                    &&& (hit@[s2] <==> cell_values(es.take(k + 1), i as usize, cc).len() > 0)
                } by {
                    let s2 = csr0.slot(i, cc as int);
                    csr0.lemma_slot(i, cc as int);
                    if (i as usize, cc) == (row, col) {
                        assert(s2 == s);
                        lemma_summed_step(cell_values(es.take(k as int), row, col), acc0[s as int], val, nv);
                        assert(cell_values(es.take(k + 1), row, col) == cell_values(es.take(k as int), row, col).push(val));
                    } else {
                        if s2 == s {
                            lemma_line_slot_injective(csr0.row_ptr@, csr0.col_idx@, nrows as int, ncols as int, i, cc as int, row as int, col as int);
                        }
                        assert(cell_values(es.take(k + 1), i as usize, cc) == cell_values(es.take(k as int), i as usize, cc));
                    }
                }
            }
            k = k + 1;
        }
        proof {
            assert(es.take(len as int) =~= es);
        }
        // add each sum to its zero-valued entry, in storage order
        let mut i: usize = 0;
        while i < nrows
            invariant
                nrows == self.nrows,
                ncols == self.ncols,
                csr0.wf(),
                csr0.nrows == nrows,
                csr0.ncols == ncols,
                csr0.all_zero(),
                csr.wf(),
                csr.same_pattern(&csr0),
                nnz == csr0.values@.len(),
                acc@.len() == nnz,
                hit@.len() == nnz,
                forall|ii: int, c: usize| 0 <= ii < nrows ==> (#[trigger] csr0.stored(ii, c as int) <==>
                    cell_values(es, ii as usize, c).len() > 0),
                forall|ii: int, c: usize| 0 <= ii < nrows && #[trigger] csr0.stored(ii, c as int) ==> {
                    let s0 = csr0.slot(ii, c as int);
                    &&& summed(cell_values(es, ii as usize, c), acc@[s0])
                    &&& (hit@[s0] <==> cell_values(es, ii as usize, c).len() > 0)
                },
                0 <= i <= nrows,
                forall|q: int| 0 <= q < nnz && !(q < csr0.row_ptr@[i as int] && hit@[q]) ==> #[trigger] csr.values@[q] == csr0.values@[q],
                forall|q: int| 0 <= q < csr0.row_ptr@[i as int] && hit@[q] ==> zero_plus(acc@[q], #[trigger] csr.values@[q]),
            decreases nrows - i,
        {
            proof {
                lemma_line_bounds(csr0.row_ptr@, csr0.col_idx@, nrows as int, ncols as int, i as int);
            }
            let start = csr.row_ptr[i];
            let end = csr.row_ptr[i + 1];
            let mut s = start;
            while s < end
                invariant
                    nrows == self.nrows,
                    ncols == self.ncols,
                    csr0.wf(),
                    csr0.nrows == nrows,
                    csr0.ncols == ncols,
                    csr0.all_zero(),
                    csr.wf(),
                    csr.same_pattern(&csr0),
                    nnz == csr0.values@.len(),
                    acc@.len() == nnz,
                    hit@.len() == nnz,
                    0 <= i < nrows,
                    start == csr0.row_ptr@[i as int],
                    end == csr0.row_ptr@[i + 1],
                    end <= nnz,
                    start <= s <= end,
                    forall|q: int| 0 <= q < nnz && !(q < s && hit@[q]) ==> #[trigger] csr.values@[q] == csr0.values@[q],
                    forall|q: int| 0 <= q < s && hit@[q] ==> zero_plus(acc@[q], #[trigger] csr.values@[q]),
                decreases end - s,
            {
                if hit[s] {
                    let c = csr.col_idx[s];
                    let ghost pre = csr;
                    proof {
                        assert(is_line_slot(csr0.row_ptr@, csr0.col_idx@, i as int, c as int, s as int));
                        csr0.lemma_slot_is(i as int, c as int, s as int);
                        assert(pre.slot(i as int, c as int) == csr0.slot(i as int, c as int));
                        csr0.lemma_slot(i as int, c as int);
                    }
                    let res = csr.add_value(i, c, acc[s]);
                    proof {
                        assert(res is Ok);
                        assert(is_zero_value(csr0.values@[s as int]));
                        assert(pre.values@[s as int] == csr0.values@[s as int]);
                        assert(call_ensures(T::plus, (pre.values@[s as int], acc@[s as int]), csr.values@[s as int]));
                        assert(zero_plus(acc@[s as int], csr.values@[s as int]));
                        assert forall|q: int| 0 <= q < nnz && !(q < s + 1 && hit@[q]) implies #[trigger] csr.values@[q] == csr0.values@[q] by {
                            assert(csr.values@[q] == pre.values@[q]);
                        }
                        assert forall|q: int| 0 <= q < s + 1 && hit@[q] implies zero_plus(acc@[q], #[trigger] csr.values@[q]) by {
                            if q < s {
                                assert(csr.values@[q] == pre.values@[q]);
                            }
                        }
                    }
                }
                s = s + 1;
            }
            i = i + 1;
        }
        proof {
            assert(csr0.row_ptr@[nrows as int] == nnz);
            assert(es == self.entries());
            assert forall|ii: int, c: usize| 0 <= ii < nrows implies (#[trigger] csr.stored(ii, c as int) <==>
                cell_values(self.entries(), ii as usize, c).len() > 0) by {
                assert(csr0.stored(ii, c as int) <==> cell_values(es, ii as usize, c).len() > 0);
            }
            assert forall|ii: int, c: usize| 0 <= ii < nrows && #[trigger] csr.stored(ii, c as int) implies
                exists|a: T| #[trigger] summed(cell_values(es, ii as usize, c), a) && zero_plus(a, csr.value_at(ii, c as int)) by {
                assert(csr0.stored(ii, c as int));
                let s = csr0.slot(ii, c as int);
                csr0.lemma_slot(ii, c as int);
                assert(hit@[s]);
                assert(summed(cell_values(es, ii as usize, c), acc@[s]));
            }
        }
        Ok(csr)
    }

    /// Build a symmetric upper-triangle matrix.  Each triplet lands on the
    /// upper-triangle coordinate of its (row, col) pair; the values landing
    /// on one coordinate are summed in order from zero and the sum added to
    /// the zero-valued entry.  Diagonal entries are always stored.
    ///
    /// Errors: `NotSquare` if `nrows != ncols`; otherwise, for the first
    /// triplet out of range, `RowOutOfRange` (checked first) or
    /// `ColOutOfRange`.
    pub fn build_sym(self) -> (r: Result<SymCsrMatrix<T>, SparseError>)
        ensures
            self.rows() != self.cols() ==> r == Err::<SymCsrMatrix<T>, SparseError>(
                SparseError::NotSquare { nrows: self.rows(), ncols: self.cols() },
            ),
            self.rows() == self.cols() ==> (r is Err <==> exists|k: int| #[trigger] triplet_bad(self.entries(), self.rows(), k)),
            self.rows() == self.cols() && r is Err ==> exists|k: int| {
                &&& #[trigger] triplet_bad(self.entries(), self.rows(), k)
                &&& forall|k2: int| 0 <= k2 < k ==> !triplet_bad(self.entries(), self.rows(), k2)
                &&& r == Err::<SymCsrMatrix<T>, SparseError>(triplet_error(self.entries()[k], self.rows()))
            },
            r matches Ok(m) ==> {
                &&& m.wf()
                &&& m.n == self.rows()
                &&& forall|i: int, c: usize| 0 <= i < m.n ==> (#[trigger] m.stored(i, c as int) <==> (c == i
                    || key_values(self.entries(), i as usize, c).len() > 0))
                &&& forall|i: int, c: usize| 0 <= i < m.n && #[trigger] m.stored(i, c as int) ==> {
                    let vals = key_values(self.entries(), i as usize, c);
                    if vals.len() == 0 {
                        is_zero_value(m.value_at(i, c as int))
                    } else {
                        exists|acc: T| #[trigger] summed(vals, acc) && zero_plus(acc, m.value_at(i, c as int))
                    }
                }
            },
    {
        if self.nrows != self.ncols {
            return Err(SparseError::NotSquare { nrows: self.nrows, ncols: self.ncols });
        }
        let n = self.nrows;
        let ghost es = self.triplets@;
        let len = self.triplets.len();
        let mut k: usize = 0;
        while k < len
            invariant
                len == es.len(),
                es == self.triplets@,
                n == self.nrows,
                self.nrows == self.ncols,
                0 <= k <= len,
                forall|k2: int| 0 <= k2 < k ==> !#[trigger] triplet_bad(es, n, k2),
            decreases len - k,
        {
            let (row, col, _) = self.triplets[k];
            if row >= n {
                proof {
                    assert(triplet_bad(es, n, k as int));
                    assert(triplet_bad(self.entries(), self.rows(), k as int));
                }
                return Err(SparseError::RowOutOfRange { row, nrows: n });
            }
            if col >= n {
                proof {
                    assert(triplet_bad(es, n, k as int));
                    assert(triplet_bad(self.entries(), self.rows(), k as int));
                }
                return Err(SparseError::ColOutOfRange { col, ncols: n });
            }
            k = k + 1;
        }
        proof {
            assert forall|k2: int| !#[trigger] triplet_bad(es, n, k2) by {}
        }
        // pattern of the upper-triangle coordinates
        let mut pattern: Vec<Vec<usize>> = Vec::new();
        let mut t: usize = 0;
        while t < n
            invariant
                0 <= t <= n,
                pattern@.len() == t,
                forall|q: int| 0 <= q < t ==> #[trigger] pattern@[q]@.len() == 0,
            decreases n - t,
        {
            pattern.push(Vec::new());
            t = t + 1;
        }
        let mut k: usize = 0;
        while k < len
            invariant
                len == es.len(),
                es == self.triplets@,
                n == self.nrows,
                0 <= k <= len,
                pattern@.len() == n,
                forall|k2: int| !#[trigger] triplet_bad(es, n, k2),
                forall|i: int, c: usize| 0 <= i < n && #[trigger] pattern@[i]@.contains(c) ==> i <= c < n,
                forall|i: int, c: usize| 0 <= i < n ==> (#[trigger] pattern@[i]@.contains(c) <==> key_values(es.take(k as int), i as usize, c).len() > 0),
            decreases len - k,
        {
            let (row, col, _) = self.triplets[k];
            proof {
                assert(!triplet_bad(es, n, k as int));
            }
            let (r, c) = if col >= row { (row, col) } else { (col, row) };
            let ghost before = pattern@;
            pattern[r].push(c);
            proof {
                lemma_pattern_push(before, pattern@, r as int, c);
                assert(es.take(k + 1).drop_last() =~= es.take(k as int));
                assert(es.take(k + 1).last() == es[k as int]);
                assert forall|i: int, cc: usize| 0 <= i < n implies (#[trigger] pattern@[i]@.contains(cc) <==> key_values(es.take(k + 1), i as usize, cc).len() > 0) by {
                    assert(before[i]@.contains(cc) <==> key_values(es.take(k as int), i as usize, cc).len() > 0);
                }
            }
            k = k + 1;
        }
        proof {
            assert(es.take(len as int) =~= es);
            assert forall|r2: int, q: int| !#[trigger] upper_entry_bad(n, pattern@, r2, q) by {
                if 0 <= r2 < pattern@.len() && 0 <= q < pattern@[r2]@.len() {
                    assert(pattern@[r2]@.contains(pattern@[r2]@[q]));
                }
            }
        }
        let mut sym = match SymCsrMatrix::from_pattern(n, &pattern) {
            Ok(m) => m,
            Err(e) => {
                proof {
                    assert(false);
                }
                return Err(e);
            },
        };
        let ghost sym0 = sym;
        // sum the values of each coordinate, in order, from zero
        let nnz = sym.values.len();
        let mut acc: Vec<T> = Vec::new();
        let mut hit: Vec<bool> = Vec::new();
        let mut t: usize = 0;
        while t < nnz
            invariant
                0 <= t <= nnz,
                acc@.len() == t,
                hit@.len() == t,
                forall|q: int| 0 <= q < t ==> is_zero_value(#[trigger] acc@[q]),
                forall|q: int| 0 <= q < t ==> !#[trigger] hit@[q],
            decreases nnz - t,
        {
            acc.push(T::zero());
            hit.push(false);
            t = t + 1;
        }
        proof {
            assert forall|i: int, c: usize| 0 <= i < n && #[trigger] sym0.stored(i, c as int) implies {
                let s = sym0.slot(i, c as int);
                &&& summed(key_values(es.take(0), i as usize, c), acc@[s])
                &&& !hit@[s]
            } by {
                let s = sym0.slot(i, c as int);
                assert(sym0.is_slot(i, c as int, s));
                sym0.lemma_row_bounds(i);
                let z = acc@[s];
                lemma_added_none(seq![z]);
                assert(into_slot_zero(key_values(es.take(0), i as usize, c)) =~= Seq::<(int, T)>::empty());
            }
        }
        let mut k: usize = 0;
        while k < len
            invariant
                len == es.len(),
                es == self.triplets@,
                n == self.nrows,
                sym == sym0,
                sym0.wf(),
                sym0.n == n,
                nnz == sym0.values@.len(),
                0 <= k <= len,
                acc@.len() == nnz,
                hit@.len() == nnz,
                forall|k2: int| !#[trigger] triplet_bad(es, n, k2),
                forall|i: int, c: usize| 0 <= i < n ==> (#[trigger] sym0.stored(i, c as int) <==> (c == i
                    || key_values(es, i as usize, c).len() > 0)),
                forall|i: int, c: usize| 0 <= i < n && #[trigger] sym0.stored(i, c as int) ==> {
                    let s = sym0.slot(i, c as int);
                    &&& summed(key_values(es.take(k as int), i as usize, c), acc@[s])
                    &&& (hit@[s] <==> key_values(es.take(k as int), i as usize, c).len() > 0)
                },
            decreases len - k,
        {
            let (row, col, val) = self.triplets[k];
            proof {
                assert(!triplet_bad(es, n, k as int));
            }
            let (r, c) = if col >= row { (row, col) } else { (col, row) };
            proof {
                assert(es.take(k + 1).drop_last() =~= es.take(k as int));
                assert(es.take(k + 1).last() == es[k as int]);
                assert(key_values(es.take(k + 1), r, c).len() > 0);
                lemma_key_values_prefix(es, k + 1, r, c);
                assert(sym0.stored(r as int, c as int));
            }
            let s = match sym.find_idx(r, c) {
                Some(s) => s,
                None => {
                    proof {
                        assert(false);
                    }
                    0
                },
            };
            proof {
                sym0.lemma_slot_is(r as int, c as int, s as int);
                sym0.lemma_row_bounds(r as int);
            }
            let ghost acc0 = acc@;
            let ghost hit0 = hit@;
            let nv = acc[s].plus(val);
            acc.set(s, nv);
            hit.set(s, true);
            proof {
                assert forall|i: int, cc: usize| 0 <= i < n && #[trigger] sym0.stored(i, cc as int) implies {
                    let s2 = sym0.slot(i, cc as int);
                    &&& summed(key_values(es.take(k + 1), i as usize, cc), acc@[s2])
                    &&& (hit@[s2] <==> key_values(es.take(k + 1), i as usize, cc).len() > 0)
                } by {
                    let s2 = sym0.slot(i, cc as int);
                    assert(sym0.is_slot(i, cc as int, s2));
                    if (i as usize, cc) == (r, c) {
                        assert(s2 == s);
                        lemma_summed_step(key_values(es.take(k as int), r, c), acc0[s as int], val, nv);
                        assert(key_values(es.take(k + 1), r, c) == key_values(es.take(k as int), r, c).push(val));
                    } else {
                        if s2 == s {
                            sym0.lemma_slot_injective(i, cc as int, r as int, c as int);
                        }
                        assert(key_values(es.take(k + 1), i as usize, cc) == key_values(es.take(k as int), i as usize, cc));
                    }
                }
            }
            k = k + 1;
        }
        proof {
            assert(es.take(len as int) =~= es);
        }
        // add each sum to its zero-valued entry, in storage order
        let mut i: usize = 0;
        while i < n
            invariant
                n == self.nrows,
                sym0.wf(),
                sym0.n == n,
                sym0.all_zero(),
                sym.wf(),
                sym.same_pattern(&sym0),
                nnz == sym0.values@.len(),
                acc@.len() == nnz,
                hit@.len() == nnz,
                forall|ii: int, c: usize| 0 <= ii < n ==> (#[trigger] sym0.stored(ii, c as int) <==> (c == ii
                    || key_values(es, ii as usize, c).len() > 0)),
                forall|ii: int, c: usize| 0 <= ii < n && #[trigger] sym0.stored(ii, c as int) ==> {
                    let s0 = sym0.slot(ii, c as int);
                    &&& summed(key_values(es, ii as usize, c), acc@[s0])
                    &&& (hit@[s0] <==> key_values(es, ii as usize, c).len() > 0)
                },
                0 <= i <= n,
                forall|q: int| 0 <= q < nnz ==> #[trigger] sym.values@[q] == if q < sym0.start(i as int) && hit@[q] {
                    sym.values@[q]
                } else {
                    sym0.values@[q]
                },
                forall|q: int| 0 <= q < sym0.start(i as int) && hit@[q] ==> zero_plus(acc@[q], #[trigger] sym.values@[q]),
            decreases n - i,
        {
            proof {
                sym0.lemma_row_bounds(i as int);
                assert(crate::sym::upper_row_ok(sym0.row_ptr@, sym0.col_idx@, n as int, i as int));
            }
            let start = sym.row_ptr[i];
            let end = sym.row_ptr[i + 1];
            let mut s = start;
            while s < end
                invariant
                    n == self.nrows,
                    sym0.wf(),
                    sym0.n == n,
                    sym0.all_zero(),
                    sym.wf(),
                    sym.same_pattern(&sym0),
                    nnz == sym0.values@.len(),
                    acc@.len() == nnz,
                    hit@.len() == nnz,
                    forall|ii: int, c: usize| 0 <= ii < n ==> (#[trigger] sym0.stored(ii, c as int) <==> (c == ii
                        || key_values(es, ii as usize, c).len() > 0)),
                    forall|ii: int, c: usize| 0 <= ii < n && #[trigger] sym0.stored(ii, c as int) ==> {
                        let s0 = sym0.slot(ii, c as int);
                        &&& summed(key_values(es, ii as usize, c), acc@[s0])
                        &&& (hit@[s0] <==> key_values(es, ii as usize, c).len() > 0)
                    },
                    0 <= i < n,
                    start == sym0.start(i as int),
                    end == sym0.end(i as int),
                    end <= nnz,
                    start <= s <= end,
                    crate::sym::upper_row_ok(sym0.row_ptr@, sym0.col_idx@, n as int, i as int),
                    forall|q: int| 0 <= q < nnz && !(q < s && hit@[q]) ==> #[trigger] sym.values@[q] == sym0.values@[q],
                    forall|q: int| 0 <= q < s && hit@[q] ==> zero_plus(acc@[q], #[trigger] sym.values@[q]),
                decreases end - s,
            {
                if hit[s] {
                    let c = sym.col_idx[s];
                    let ghost pre = sym;
                    proof {
                        assert(sym0.is_slot(i as int, c as int, s as int));
                        sym0.lemma_slot_is(i as int, c as int, s as int);
                        sym0.lemma_same_pattern_slot(pre, i as int, c as int);
                    }
                    let res = sym.add_value(i, c, acc[s]);
                    proof {
                        assert(res is Ok);
                        assert(is_zero_value(sym0.values@[s as int]));
                        assert(pre.values@[s as int] == sym0.values@[s as int]);
                        assert(call_ensures(T::plus, (pre.values@[s as int], acc@[s as int]), sym.values@[s as int]));
                        assert(zero_plus(acc@[s as int], sym.values@[s as int]));
                        assert forall|q: int| 0 <= q < nnz && !(q < s + 1 && hit@[q]) implies #[trigger] sym.values@[q] == sym0.values@[q] by {
                            assert(sym.values@[q] == pre.values@[q]);
                        }
                        assert forall|q: int| 0 <= q < s + 1 && hit@[q] implies zero_plus(acc@[q], #[trigger] sym.values@[q]) by {
                            if q < s {
                                assert(sym.values@[q] == pre.values@[q]);
                            }
                        }
                    }
                }
                s = s + 1;
            }
            proof {
                assert(sym0.start(i + 1) == end);
                assert forall|q: int| 0 <= q < nnz implies #[trigger] sym.values@[q] == if q < sym0.start(i + 1) && hit@[q] {
                    sym.values@[q]
                } else {
                    sym0.values@[q]
                } by {}
            }
            i = i + 1;
        }
        proof {
            assert(sym0.start(n as int) == nnz);
            sym0.lemma_same_pattern_slot_all(sym);
            assert(es == self.entries());
            assert forall|ii: int, c: usize| 0 <= ii < n implies (#[trigger] sym.stored(ii, c as int) <==> (c == ii
                || key_values(self.entries(), ii as usize, c).len() > 0)) by {
                assert(sym0.stored(ii, c as int) <==> (c == ii || key_values(es, ii as usize, c).len() > 0));
            }
            assert forall|ii: int, c: usize| 0 <= ii < n && #[trigger] sym.stored(ii, c as int) implies {
                let vals = key_values(es, ii as usize, c);
                if vals.len() == 0 {
                    is_zero_value(sym.value_at(ii, c as int))
                } else {
                    exists|a: T| #[trigger] summed(vals, a) && zero_plus(a, sym.value_at(ii, c as int))
                }
            } by {
                assert(sym0.stored(ii, c as int));
                let s = sym0.slot(ii, c as int);
                assert(sym0.is_slot(ii, c as int, s));
                sym0.lemma_row_bounds(ii);
                assert(sym.slot(ii, c as int) == s);
                if key_values(es, ii as usize, c).len() > 0 {
                    assert(hit@[s]);
                    assert(summed(key_values(es, ii as usize, c), acc@[s]));
                } else {
                    assert(!hit@[s]);
                    assert(sym.values@[s] == sym0.values@[s]);
                }
            }
        }
        Ok(sym)
    }
}

/// A value summed into a coordinate appears in the full triplet list.
proof fn lemma_key_values_prefix<T>(es: Seq<(usize, usize, T)>, k: int, i: usize, c: usize)
    requires
        0 <= k <= es.len(),
        key_values(es.take(k), i, c).len() > 0,
    ensures
        key_values(es, i, c).len() > 0,
    decreases es.len() - k,
{
    if k < es.len() {
        let es2 = es.take(k + 1);
        assert(es2.drop_last() =~= es.take(k));
        lemma_key_values_prefix(es, k + 1, i, c);
    } else {
        assert(es.take(k) =~= es);
    }
}

/// A value at a coordinate appears in the full triplet list.
proof fn lemma_cell_values_prefix<T>(es: Seq<(usize, usize, T)>, k: int, i: usize, c: usize)
    requires
        0 <= k <= es.len(),
        cell_values(es.take(k), i, c).len() > 0,
    ensures
        cell_values(es, i, c).len() > 0,
    decreases es.len() - k,
{
    if k < es.len() {
        let es2 = es.take(k + 1);
        assert(es2.drop_last() =~= es.take(k));
        lemma_cell_values_prefix(es, k + 1, i, c);
    } else {
        assert(es.take(k) =~= es);
    }
}

/// One more value extends an in-order sum.
proof fn lemma_summed_step<T: SparseScalar>(vals: Seq<T>, acc: T, v: T, nv: T)
    requires
        summed(vals, acc),
        call_ensures(T::plus, (acc, v), nv),
    ensures
        summed(vals.push(v), nv),
{
    let z = choose|z: T| is_zero_value(z) && #[trigger] added_in_order(seq![z], seq![acc], into_slot_zero(vals));
    lemma_added_step(seq![z], seq![acc], into_slot_zero(vals), 0, v, nv);
    assert(seq![acc].update(0, nv) =~= seq![nv]);
    assert(into_slot_zero(vals).push((0int, v)) =~= into_slot_zero(vals.push(v)));
}

} // verus!
