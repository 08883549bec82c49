//! Matrix-vector products with symmetric upper-triangle storage.
use vstd::prelude::*;
use crate::error::SparseError;
use crate::scalar::{SparseScalar, is_zero_value, added_in_order, lemma_added_none, lemma_added_step, lemma_added_len};
use crate::sym::{SymCsrMatrix, upper_row_ok};

verus! {

/// Output buffer of the matrix-vector products, reusable across calls.
pub struct MatvecWorkspace<T> {
    pub buffer: Vec<T>,
}

impl<T: SparseScalar> MatvecWorkspace<T> {
    /// A zero-filled buffer of length `n`.
    pub fn new(n: usize) -> (r: Self)
        ensures
            r.buffer@.len() == n,
            forall|i: int| 0 <= i < n ==> is_zero_value(#[trigger] r.buffer@[i]),
    {
        let mut buffer: Vec<T> = Vec::new();
        let mut t: usize = 0;
        while t < n
            invariant
                0 <= t <= n,
                buffer@.len() == t,
                forall|i: int| 0 <= i < t ==> is_zero_value(#[trigger] buffer@[i]),
            decreases n - t,
        {
            buffer.push(T::zero());
            t = t + 1;
        }
        MatvecWorkspace { buffer }
    }

    /// Resize to length `n`: truncate, or extend with zeros.
    pub fn resize(&mut self, n: usize)
        ensures
            final(self).buffer@.len() == n,
            forall|i: int| 0 <= i < n && i < old(self).buffer@.len() ==> #[trigger] final(self).buffer@[i] == old(self).buffer@[i],
            forall|i: int| old(self).buffer@.len() <= i < n ==> is_zero_value(#[trigger] final(self).buffer@[i]),
    {
        if n < self.buffer.len() {
            self.buffer.truncate(n);
        } else {
            let ghost b0 = self.buffer@;
            while self.buffer.len() < n
                invariant
                    b0.len() <= self.buffer@.len() <= n,
                    forall|i: int| 0 <= i < b0.len() ==> #[trigger] self.buffer@[i] == b0[i],
                    forall|i: int| b0.len() <= i < self.buffer@.len() ==> is_zero_value(#[trigger] self.buffer@[i]),
                decreases n - self.buffer@.len(),
            {
                self.buffer.push(T::zero());
            }
        }
    }

    /// The result of the last product.
    pub fn as_slice(&self) -> (r: &[T])
        ensures
            r@ == self.buffer@,
    {
        self.buffer.as_slice()
    }
}

/// The additions a symmetric product performs for the stored entries
/// before `k`: the entry at storage index `t`, in row `r` and column `c`,
/// adds `prods[t].0` into `y[r]` and, off the diagonal, `prods[t].1` into
/// `y[c]`.
pub open spec fn contributions<T>(m: &SymCsrMatrix<T>, prods: Seq<(T, T)>, k: int) -> Seq<(int, T)>
    decreases k,
{
    if k <= 0 {
        Seq::empty()
    } else {
        let prev = contributions(m, prods, k - 1);
        let t = k - 1;
        let r = m.row_of(t);
        let c = m.col_idx@[t] as int;
        if c == r {
            prev.push((r, prods[t].0))
        } else {
            prev.push((r, prods[t].0)).push((c, prods[t].1))
        }
    }
}

/// `prods` holds the products of the stored values with the entries of
/// `x` they multiply: `A[r, c] * x[c]`, and `A[r, c] * x[r]` for the
/// mirrored entry.
pub open spec fn products_ok<T: SparseScalar>(m: &SymCsrMatrix<T>, x: Seq<T>, prods: Seq<(T, T)>, k: int) -> bool {
    &&& prods.len() == k
    &&& forall|t: int| 0 <= t < k ==> #[trigger] call_ensures(T::times, (m.values@[t], x[m.col_idx@[t] as int]), prods[t].0)
    &&& forall|t: int| 0 <= t < k && m.col_idx@[t] != m.row_of(t) ==>
        #[trigger] call_ensures(T::times, (m.values@[t], x[m.row_of(t)]), prods[t].1)
}

/// `y` is the product `A x` of the full symmetric matrix of `m`: starting
/// from zeros, the products of the stored entries are added in storage
/// order, each off-diagonal entry into both rows it stands for.
pub open spec fn matvec_result<T: SparseScalar>(m: &SymCsrMatrix<T>, x: Seq<T>, y: Seq<T>) -> bool {
    exists|init: Seq<T>, prods: Seq<(T, T)>| {
        &&& init.len() == m.n
        &&& forall|i: int| 0 <= i < m.n ==> is_zero_value(#[trigger] init[i])
        &&& products_ok(m, x, prods, m.values@.len() as int)
        &&& #[trigger] added_in_order(init, y, contributions(m, prods, m.values@.len() as int))
    }
}

/// Contributions only depend on the products before `k`.
proof fn lemma_contributions_prefix<T>(m: &SymCsrMatrix<T>, p1: Seq<(T, T)>, p2: Seq<(T, T)>, k: int)
    requires
        0 <= k <= p1.len(),
        k <= p2.len(),
        forall|t: int| 0 <= t < k ==> p1[t] == p2[t],
    ensures
        contributions(m, p1, k) == contributions(m, p2, k),
    decreases k,
{
    if k > 0 {
        lemma_contributions_prefix(m, p1, p2, k - 1);
    }
}

impl<T: SparseScalar> SymCsrMatrix<T> {
    /// Compute `y = A x` into the workspace, each off-diagonal stored entry
    /// contributing to both of the rows it stands for.
    ///
    /// Errors: `DimensionMismatch` if `x` (checked first) or the workspace
    /// buffer does not have length `n`; the buffer is then unchanged.
    pub fn matvec_into(&self, x: &[T], ws: &mut MatvecWorkspace<T>) -> (r: Result<(), SparseError>)
        requires
            self.wf(),
        ensures
            x@.len() != self.n ==> r == Err::<(), SparseError>(
                SparseError::DimensionMismatch { expected: self.n, got: x@.len() as usize },
            ) && final(ws).buffer@ == old(ws).buffer@,
            x@.len() == self.n && old(ws).buffer@.len() != self.n ==> r == Err::<(), SparseError>(
                SparseError::DimensionMismatch { expected: self.n, got: old(ws).buffer@.len() as usize },
            ) && final(ws).buffer@ == old(ws).buffer@,
            x@.len() == self.n && old(ws).buffer@.len() == self.n ==> r is Ok,
            r is Ok ==> matvec_result(self, x@, final(ws).buffer@),
    {
        let n = self.n;
        if x.len() != n {
            return Err(SparseError::DimensionMismatch { expected: n, got: x.len() });
        }
        if ws.buffer.len() != n {
            return Err(SparseError::DimensionMismatch { expected: n, got: ws.buffer.len() });
        }
        let mut t: usize = 0;
        while t < n
            invariant
                0 <= t <= n,
                ws.buffer@.len() == n,
                forall|i: int| 0 <= i < t ==> is_zero_value(#[trigger] ws.buffer@[i]),
            decreases n - t,
        {
            ws.buffer.set(t, T::zero());
            t = t + 1;
        }
        let ghost init = ws.buffer@;
        let ghost mut prods: Seq<(T, T)> = Seq::empty();
        proof {
            lemma_added_none(init);
        }
        let mut row: usize = 0;
        while row < n
            invariant
                n == self.n,
                self.wf(),
                x@.len() == n,
                init.len() == n,
                forall|i: int| 0 <= i < n ==> is_zero_value(#[trigger] init[i]),
                0 <= row <= n,
                products_ok(self, x@, prods, self.start(row as int)),
                added_in_order(init, ws.buffer@, contributions(self, prods, self.start(row as int))),
            decreases n - row,
        {
            proof {
                self.lemma_row_bounds(row as int);
                assert(upper_row_ok(self.row_ptr@, self.col_idx@, n as int, row as int));
            }
            let start = self.row_ptr[row];
            let end = self.row_ptr[row + 1];
            let mut idx = start;
            while idx < end
                invariant
                    n == self.n,
                    self.wf(),
                    x@.len() == n,
                    init.len() == n,
                    0 <= row < n,
                    start == self.start(row as int),
                    end == self.end(row as int),
                    end <= self.values@.len(),
                    start <= idx <= end,
                    upper_row_ok(self.row_ptr@, self.col_idx@, n as int, row as int),
                    products_ok(self, x@, prods, idx as int),
                    added_in_order(init, ws.buffer@, contributions(self, prods, idx as int)),
                decreases end - idx,
            {
                let col = self.col_idx[idx];
                let val = self.values[idx];
                proof {
                    lemma_added_len(init, ws.buffer@, contributions(self, prods, idx as int));
                    self.lemma_row_of_is(idx as int, row as int);
                }
                let p = val.times(x[col]);
                let ghost b0 = ws.buffer@;
                let nv = ws.buffer[row].plus(p);
                ws.buffer.set(row, nv);
                proof {
                    lemma_added_step(init, b0, contributions(self, prods, idx as int), row as int, p, nv);
                }
                if col == row {
                    proof {
                        let np = prods.push((p, p));
                        lemma_contributions_prefix(self, prods, np, idx as int);
                        assert(contributions(self, np, idx + 1) == contributions(self, prods, idx as int).push((row as int, p)));
                        prods = np;
                    }
                } else {
                    let q = val.times(x[row]);
                    let ghost b1 = ws.buffer@;
                    let nq = ws.buffer[col].plus(q);
                    ws.buffer.set(col, nq);
                    proof {
                        lemma_added_step(init, b1, contributions(self, prods, idx as int).push((row as int, p)), col as int, q, nq);
                        let np = prods.push((p, q));
                        lemma_contributions_prefix(self, prods, np, idx as int);
                        assert(contributions(self, np, idx + 1) == contributions(self, prods, idx as int).push((row as int, p)).push((col as int, q)));
                        prods = np;
                    }
                }
                idx = idx + 1;
            }
            row = row + 1;
        }
        proof {
            assert(self.start(n as int) == self.values@.len());
        }
        Ok(())
    }

    /// Compute `y = A x` into a new vector.
    ///
    /// Error: `DimensionMismatch` if `x` does not have length `n`.
    pub fn matvec(&self, x: &[T]) -> (r: Result<Vec<T>, SparseError>)
        requires
            self.wf(),
        ensures
            x@.len() != self.n ==> r == Err::<Vec<T>, SparseError>(
                SparseError::DimensionMismatch { expected: self.n, got: x@.len() as usize },
            ),
            x@.len() == self.n ==> r is Ok,
            r matches Ok(y) ==> y@.len() == self.n && matvec_result(self, x@, y@),
    {
        let mut ws = MatvecWorkspace::new(self.n);
        match self.matvec_into(x, &mut ws) {
            Ok(()) => {
                proof {
                    let (init, prods) = choose|init: Seq<T>, prods: Seq<(T, T)>| {
                        &&& init.len() == self.n
                        &&& forall|i: int| 0 <= i < self.n ==> is_zero_value(#[trigger] init[i])
                        &&& products_ok(self, x@, prods, self.values@.len() as int)
                        &&& #[trigger] added_in_order(init, ws.buffer@, contributions(self, prods, self.values@.len() as int))
                    };
                    lemma_added_len(init, ws.buffer@, contributions(self, prods, self.values@.len() as int));
                }
                Ok(ws.buffer)
            },
            Err(e) => Err(e),
        }
    }
}

} // verus!
