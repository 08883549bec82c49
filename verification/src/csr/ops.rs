//! Arithmetic on CSR matrices: products with a vector, scaling, the
//! Frobenius norm and the symmetry test.
use vstd::prelude::*;
use crate::compressed::{lemma_line_bounds, lemma_line_of_is};
use crate::csr::CsrMatrix;
use crate::error::SparseError;
use crate::line_ops::{line_product, line_product_into, scale_values, frobenius_of, frobenius_values};
use crate::matvec::MatvecWorkspace;
use crate::scalar::{SparseScalar, is_zero_value};

verus! {

impl<T: SparseScalar> CsrMatrix<T> {
    /// `y` is `A x`: row by row, the stored values times the entries of `x`
    /// in their columns, added in storage order to zeros.
    pub open spec fn product(&self, x: Seq<T>, y: Seq<T>) -> bool {
        line_product(self.row_ptr@, self.col_idx@, self.values@, self.nrows as int, x, y, false)
    }

    /// `y` is `Aᵀ x`: each stored value times the entry of `x` in its row,
    /// added into the entry of `y` of its column, in storage order, to
    /// zeros.
    pub open spec fn transpose_product(&self, x: Seq<T>, y: Seq<T>) -> bool {
        line_product(self.row_ptr@, self.col_idx@, self.values@, self.nrows as int, x, y, true)
    }

    /// Compute `y = A x` into the workspace.
    ///
    /// Errors: `DimensionMismatch` if `x` (checked first) does not have
    /// `ncols` entries or the buffer does not have `nrows`; the buffer is
    /// then unchanged.
    pub fn matvec_into(&self, x: &[T], ws: &mut MatvecWorkspace<T>) -> (r: Result<(), SparseError>)
        requires
            self.wf(),
        ensures
            x@.len() != self.ncols ==> r == Err::<(), SparseError>(
                SparseError::DimensionMismatch { expected: self.ncols, got: x@.len() as usize },
            ) && final(ws).buffer@ == old(ws).buffer@,
            x@.len() == self.ncols && old(ws).buffer@.len() != self.nrows ==> r == Err::<(), SparseError>(
                SparseError::DimensionMismatch { expected: self.nrows, got: old(ws).buffer@.len() as usize },
            ) && final(ws).buffer@ == old(ws).buffer@,
            x@.len() == self.ncols && old(ws).buffer@.len() == self.nrows ==> r is Ok
                && final(ws).buffer@.len() == self.nrows && self.product(x@, final(ws).buffer@),
    {
        if x.len() != self.ncols {
            return Err(SparseError::DimensionMismatch { expected: self.ncols, got: x.len() });
        }
        if ws.buffer.len() != self.nrows {
            return Err(SparseError::DimensionMismatch { expected: self.nrows, got: ws.buffer.len() });
        }
        line_product_into(&self.row_ptr, &self.col_idx, &self.values, self.nrows, self.ncols, x, false, &mut ws.buffer);
        Ok(())
    }

    /// Compute `y = A x` into a new vector.
    ///
    /// Error: `DimensionMismatch` if `x` does not have `ncols` entries.
    pub fn matvec(&self, x: &[T]) -> (r: Result<Vec<T>, SparseError>)
        requires
            self.wf(),
        ensures
            x@.len() != self.ncols ==> r == Err::<Vec<T>, SparseError>(
                SparseError::DimensionMismatch { expected: self.ncols, got: x@.len() as usize },
            ),
            x@.len() == self.ncols ==> (r matches Ok(y) && y@.len() == self.nrows && self.product(x@, y@)),
    {
        let mut ws = MatvecWorkspace::new(self.nrows);
        match self.matvec_into(x, &mut ws) {
            Ok(()) => Ok(ws.buffer),
            Err(e) => Err(e),
        }
    }

    /// Compute `y = Aᵀ x` into the workspace.
    ///
    /// Errors: `DimensionMismatch` if `x` (checked first) does not have
    /// `nrows` entries or the buffer does not have `ncols`; the buffer is
    /// then unchanged.
    pub fn matvec_transpose_into(&self, x: &[T], ws: &mut MatvecWorkspace<T>) -> (r: Result<(), SparseError>)
        requires
            self.wf(),
        ensures
            x@.len() != self.nrows ==> r == Err::<(), SparseError>(
                SparseError::DimensionMismatch { expected: self.nrows, got: x@.len() as usize },
            ) && final(ws).buffer@ == old(ws).buffer@,
            x@.len() == self.nrows && old(ws).buffer@.len() != self.ncols ==> r == Err::<(), SparseError>(
                SparseError::DimensionMismatch { expected: self.ncols, got: old(ws).buffer@.len() as usize },
            ) && final(ws).buffer@ == old(ws).buffer@,
            x@.len() == self.nrows && old(ws).buffer@.len() == self.ncols ==> r is Ok
                && final(ws).buffer@.len() == self.ncols && self.transpose_product(x@, final(ws).buffer@),
    {
        if x.len() != self.nrows {
            return Err(SparseError::DimensionMismatch { expected: self.nrows, got: x.len() });
        }
        if ws.buffer.len() != self.ncols {
            return Err(SparseError::DimensionMismatch { expected: self.ncols, got: ws.buffer.len() });
        }
        line_product_into(&self.row_ptr, &self.col_idx, &self.values, self.nrows, self.ncols, x, true, &mut ws.buffer);
        Ok(())
    }

    /// Compute `y = Aᵀ x` into a new vector.
    ///
    /// Error: `DimensionMismatch` if `x` does not have `nrows` entries.
    pub fn matvec_transpose(&self, x: &[T]) -> (r: Result<Vec<T>, SparseError>)
        requires
            self.wf(),
        ensures
            x@.len() != self.nrows ==> r == Err::<Vec<T>, SparseError>(
                SparseError::DimensionMismatch { expected: self.nrows, got: x@.len() as usize },
            ),
            x@.len() == self.nrows ==> (r matches Ok(y) && y@.len() == self.ncols && self.transpose_product(x@, y@)),
    {
        let mut ws = MatvecWorkspace::new(self.ncols);
        match self.matvec_transpose_into(x, &mut ws) {
            Ok(()) => Ok(ws.buffer),
            Err(e) => Err(e),
        }
    }

    /// Multiply every stored value by `alpha`.
    pub fn scale(&mut self, alpha: T)
        requires
            old(self).wf(),
        ensures
            final(self).wf(),
            final(self).same_pattern(old(self)),
            forall|t: int| 0 <= t < old(self).values@.len() ==>
                #[trigger] call_ensures(T::times, (old(self).values@[t], alpha), final(self).values@[t]),
    {
        scale_values(&mut self.values, alpha);
    }

    /// Frobenius norm: the square root of the sum of the squares of the
    /// stored values, added in storage order.
    pub fn frobenius_norm(&self) -> (r: T)
        ensures
            frobenius_of(self.values@, r),
    {
        frobenius_values(&self.values)
    }

    /// `m` is the value at the mirror of storage position `t`: the stored
    /// value of `(col, row)`, or a zero if that entry is not stored.
    pub open spec fn mirror_value(&self, t: int, m: T) -> bool {
        let r = self.row_of(t);
        let c = self.col_idx@[t] as int;
        if self.stored(c, r) {
            m == self.value_at(c, r)
        } else {
            is_zero_value(m)
        }
    }

    /// The symmetry test of storage position `t` answers `res`:
    /// `|value - mirror| > tol` computed with the scalar operations.
    pub open spec fn asymmetry_check(&self, t: int, tol: T, res: bool) -> bool {
        exists|m: T, d: T, a: T|
            #![trigger call_ensures(T::minus, (self.values@[t], m), d), call_ensures(T::magnitude, (d,), a)]
            self.mirror_value(t, m)
            && call_ensures(T::minus, (self.values@[t], m), d)
            && call_ensures(T::magnitude, (d,), a)
            && call_ensures(T::exceeds, (a, tol), res)
    }

    /// `true` if every stored entry matches its mirror within `tol`, the
    /// entries tested in storage order and the first mismatch deciding.
    ///
    /// Error: `NotSquare` for a rectangular matrix.
    pub fn is_symmetric(&self, tol: T) -> (r: Result<bool, SparseError>)
        requires
            self.wf(),
        ensures
            self.nrows != self.ncols ==> r == Err::<bool, SparseError>(
                SparseError::NotSquare { nrows: self.nrows, ncols: self.ncols },
            ),
            self.nrows == self.ncols ==> r is Ok,
            r == Ok::<bool, SparseError>(true) ==> forall|t: int| 0 <= t < self.values@.len() ==>
                #[trigger] self.asymmetry_check(t, tol, false),
            r == Ok::<bool, SparseError>(false) ==> exists|t: int| {
                &&& 0 <= t < self.values@.len()
                &&& #[trigger] self.asymmetry_check(t, tol, true)
                &&& forall|t2: int| 0 <= t2 < t ==> self.asymmetry_check(t2, tol, false)
            },
    {
        if self.nrows != self.ncols {
            return Err(SparseError::NotSquare { nrows: self.nrows, ncols: self.ncols });
        }
        let mut row: usize = 0;
        while row < self.nrows
            invariant
                self.wf(),
                self.nrows == self.ncols,
                0 <= row <= self.nrows,
                forall|t: int| 0 <= t < self.row_ptr@[row as int] ==> #[trigger] self.asymmetry_check(t, tol, false),
            decreases self.nrows - row,
        {
            proof {
                lemma_line_bounds(self.row_ptr@, self.col_idx@, self.nrows as int, self.ncols as int, row as int);
            }
            let start = self.row_ptr[row];
            let end = self.row_ptr[row + 1];
            let mut idx = start;
            while idx < end
                invariant
                    self.wf(),
                    self.nrows == self.ncols,
                    0 <= row < self.nrows,
                    start == self.row_ptr@[row as int],
                    end == self.row_ptr@[row + 1],
                    end <= self.values@.len(),
                    start <= idx <= end,
                    forall|t: int| 0 <= t < idx ==> #[trigger] self.asymmetry_check(t, tol, false),
                decreases end - idx,
            {
                proof {
                    lemma_line_of_is(self.row_ptr@, self.col_idx@, self.nrows as int, self.ncols as int, idx as int, row as int);
                    assert(self.col_idx@[idx as int] < self.ncols);
                }
                let col = self.col_idx[idx];
                let val = self.values[idx];
                let mirror = match self.find_idx(col, row) {
                    Some(k) => {
                        proof {
                            self.lemma_slot(col as int, row as int);
                        }
                        self.values[k]
                    },
                    None => T::zero(),
                };
                let d = val.minus(mirror);
                let a = d.magnitude();
                let ex = a.exceeds(tol);
                proof {
                    assert(self.mirror_value(idx as int, mirror));
                    assert(self.asymmetry_check(idx as int, tol, ex));
                }
                if ex {
                    return Ok(false);
                }
                idx = idx + 1;
            }
            row = row + 1;
        }
        proof {
            assert(self.row_ptr@[self.nrows as int] == self.values@.len());
        }
        Ok(true)
    }

    /// Symmetry within `tol`: when `is_symmetric(tol)` answers `Ok(true)`,
    /// every stored entry `(r, c)`, below the diagonal as well as above it,
    /// is within `tol` of its mirror `(c, r)`, read as a zero where the
    /// mirror is not stored: `|K[r][c] - K[c][r]|`, computed with the scalar
    /// operations, does not exceed `tol`.
    pub proof fn law_symmetric_within_tolerance(m: Self, tol: T)
        requires
            m.wf(),
            forall|t: int| 0 <= t < m.values@.len() ==> #[trigger] m.asymmetry_check(t, tol, false),
        ensures
            forall|r: int, c: int| #[trigger] m.stored(r, c) ==> exists|mv: T, d: T, a: T|
                #![trigger call_ensures(T::minus, (m.value_at(r, c), mv), d), call_ensures(T::magnitude, (d,), a)]
                (if m.stored(c, r) { mv == m.value_at(c, r) } else { is_zero_value(mv) })
                && call_ensures(T::minus, (m.value_at(r, c), mv), d)
                && call_ensures(T::magnitude, (d,), a)
                && call_ensures(T::exceeds, (a, tol), false),
    {
        assert forall|r: int, c: int| #[trigger] m.stored(r, c) implies exists|mv: T, d: T, a: T|
            #![trigger call_ensures(T::minus, (m.value_at(r, c), mv), d), call_ensures(T::magnitude, (d,), a)]
            (if m.stored(c, r) { mv == m.value_at(c, r) } else { is_zero_value(mv) })
            && call_ensures(T::minus, (m.value_at(r, c), mv), d)
            && call_ensures(T::magnitude, (d,), a)
            && call_ensures(T::exceeds, (a, tol), false) by {
            m.lemma_slot(r, c);
            let t = m.slot(r, c);
            lemma_line_of_is(m.row_ptr@, m.col_idx@, m.nrows as int, m.ncols as int, t, r);
            assert(m.asymmetry_check(t, tol, false));
            let (mv, d, a) = choose|mv: T, d: T, a: T|
                #![trigger call_ensures(T::minus, (m.values@[t], mv), d), call_ensures(T::magnitude, (d,), a)]
                m.mirror_value(t, mv)
                && call_ensures(T::minus, (m.values@[t], mv), d)
                && call_ensures(T::magnitude, (d,), a)
                && call_ensures(T::exceeds, (a, tol), false);
            assert(m.row_of(t) == r);
            assert(call_ensures(T::minus, (m.value_at(r, c), mv), d));
        }
    }

    /// Asymmetry found: when `is_symmetric(tol)` answers `Ok(false)`, some
    /// stored entry `(r, c)` differs from its mirror `(c, r)` (a zero where
    /// the mirror is not stored) by more than `tol`.
    pub proof fn law_asymmetry_witness(m: Self, tol: T)
        requires
            m.wf(),
            exists|t: int| 0 <= t < m.values@.len() && #[trigger] m.asymmetry_check(t, tol, true),
        ensures
            exists|r: int, c: int| #[trigger] m.stored(r, c) && exists|mv: T, d: T, a: T|
                #![trigger call_ensures(T::minus, (m.value_at(r, c), mv), d), call_ensures(T::magnitude, (d,), a)]
                (if m.stored(c, r) { mv == m.value_at(c, r) } else { is_zero_value(mv) })
                && call_ensures(T::minus, (m.value_at(r, c), mv), d)
                && call_ensures(T::magnitude, (d,), a)
                && call_ensures(T::exceeds, (a, tol), true),
    {
        let t = choose|t: int| 0 <= t < m.values@.len() && #[trigger] m.asymmetry_check(t, tol, true);
        crate::compressed::lemma_line_of(m.row_ptr@, m.col_idx@, m.nrows as int, m.ncols as int, t);
        let r = m.row_of(t);
        let c = m.col_idx@[t] as int;
        m.lemma_slot_is(r, c, t);
        let (mv, d, a) = choose|mv: T, d: T, a: T|
            #![trigger call_ensures(T::minus, (m.values@[t], mv), d), call_ensures(T::magnitude, (d,), a)]
            m.mirror_value(t, mv)
            && call_ensures(T::minus, (m.values@[t], mv), d)
            && call_ensures(T::magnitude, (d,), a)
            && call_ensures(T::exceeds, (a, tol), true);
        assert(call_ensures(T::minus, (m.value_at(r, c), mv), d));
        assert(m.stored(r, c));
    }
}

} // verus!
