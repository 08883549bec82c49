//! Arithmetic on symmetric upper-triangle matrices: scaling and the
//! Frobenius norm of the full matrix.
use vstd::prelude::*;
use crate::line_ops::{scale_values, summed_in_order, additions_at_zero};
use crate::scalar::{SparseScalar, is_zero_value, is_one_value, added_in_order, lemma_added_none, lemma_added_step};
use crate::sym::SymCsrMatrix;

verus! {

/// `out` is `(two * v) * v`.
pub open spec fn doubled_square<T: SparseScalar>(two: T, v: T, out: T) -> bool {
    exists|w: T| #[trigger] call_ensures(T::times, (two, v), w) && call_ensures(T::times, (w, v), out)
}

impl<T: SparseScalar> SymCsrMatrix<T> {
    /// Multiply every stored value by `alpha`; each off-diagonal value
    /// stands for two entries of the full matrix, which are both scaled.
    pub fn scale(&mut self, alpha: T)
        requires
            old(self).wf(),
        ensures
            final(self).wf(),
            final(self).same_pattern(old(self)),
            forall|t: int| 0 <= t < old(self).values@.len() ==>
                #[trigger] call_ensures(T::times, (old(self).values@[t], alpha), final(self).values@[t]),
    {
        scale_values(&mut self.values, alpha);
    }

    /// `out` is the contribution of storage index `t` to the squared
    /// Frobenius norm of the full matrix.
    pub open spec fn square_term(&self, two: T, t: int, out: T) -> bool {
        let v = self.values@[t];
        if self.col_idx@[t] == self.row_of(t) {
            call_ensures(T::times, (v, v), out)
        } else {
            doubled_square(two, v, out)
        }
    }

    /// `terms[t]` is the contribution of storage index `t` to the squared
    /// Frobenius norm of the full matrix: `v * v` on the diagonal, and
    /// `(two * v) * v` off it, where the entry stands for two.
    pub open spec fn square_terms(&self, two: T, terms: Seq<T>) -> bool {
        &&& terms.len() == self.values@.len()
        &&& forall|t: int| 0 <= t < terms.len() ==> self.square_term(two, t, #[trigger] terms[t])
    }

    /// `r` is the Frobenius norm of the full symmetric matrix: the square
    /// root of the sum, in storage order from zero, of the square terms,
    /// with `two = one + one`.
    pub open spec fn frobenius_of(&self, r: T) -> bool {
        exists|one: T, two: T, terms: Seq<T>, s: T| {
            &&& is_one_value(one)
            &&& #[trigger] call_ensures(T::plus, (one, one), two)
            &&& #[trigger] self.square_terms(two, terms)
            &&& summed_in_order(terms, s)
            &&& #[trigger] call_ensures(T::scalar_sqrt, (s,), r)
        }
    }

    /// Frobenius norm of the full symmetric matrix: off-diagonal stored
    /// entries count twice.
    pub fn frobenius_norm(&self) -> (r: T)
        requires
            self.wf(),
        ensures
            self.frobenius_of(r),
    {
        let one = T::one();
        let two = one.plus(one);
        let z = T::zero();
        let mut acc = z;
        let ghost mut terms: Seq<T> = Seq::empty();
        proof {
            lemma_added_none(seq![z]);
            assert(additions_at_zero(terms) =~= Seq::<(int, T)>::empty());
        }
        let mut row: usize = 0;
        while row < self.n
            invariant
                self.wf(),
                0 <= row <= self.n,
                is_zero_value(z),
                call_ensures(T::plus, (one, one), two),
                terms.len() == self.row_ptr@[row as int],
                forall|t: int| 0 <= t < terms.len() ==> self.square_term(two, t, #[trigger] terms[t]),
                added_in_order(seq![z], seq![acc], additions_at_zero(terms)),
            decreases self.n - row,
        {
            proof {
                self.lemma_row_bounds(row as int);
            }
            let start = self.row_ptr[row];
            let end = self.row_ptr[row + 1];
            let mut idx = start;
            while idx < end
                invariant
                    self.wf(),
                    0 <= row < self.n,
                    start == self.row_ptr@[row as int],
                    end == self.row_ptr@[row + 1],
                    end <= self.values@.len(),
                    start <= idx <= end,
                    is_zero_value(z),
                    call_ensures(T::plus, (one, one), two),
                    terms.len() == idx,
                    forall|t: int| 0 <= t < terms.len() ==> self.square_term(two, t, #[trigger] terms[t]),
                    added_in_order(seq![z], seq![acc], additions_at_zero(terms)),
                decreases end - idx,
            {
                proof {
                    self.lemma_row_of_is(idx as int, row as int);
                }
                let col = self.col_idx[idx];
                let v = self.values[idx];
                let term = if col == row {
                    v.times(v)
                } else {
                    let w = two.times(v);
                    let p = w.times(v);
                    proof {
                        assert(doubled_square(two, v, p));
                    }
                    p
                };
                let na = acc.plus(term);
                let ghost t0 = terms;
                proof {
                    lemma_added_step(seq![z], seq![acc], additions_at_zero(t0), 0, term, na);
                    terms = t0.push(term);
                    assert(additions_at_zero(terms) =~= additions_at_zero(t0).push((0int, term)));
                    assert(seq![acc].update(0, na) =~= seq![na]);
                }
                acc = na;
                idx = idx + 1;
            }
            row = row + 1;
        }
        let r = acc.scalar_sqrt();
        proof {
            assert(self.square_terms(two, terms));
            assert(summed_in_order(terms, acc));
        }
        r
    }
}

} // verus!
