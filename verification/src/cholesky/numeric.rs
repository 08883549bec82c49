//! Numeric Cholesky factorization (left-looking, column by column).
use vstd::prelude::*;
use crate::cholesky::symbolic::SymbolicCholesky;
use crate::csc::CscMatrix;
use crate::error::SolverError;
use crate::cholesky::factor_spec::{
    updates_column, update_block, update_positions, subtractions, scattered_column, update_order, pending_ok,
    lemma_update_positions_bounds, lemma_block_bounds, lemma_update_positions_push, lemma_subtractions_push,
    lemma_pending_done,
};
use crate::compressed::{lines_ok, line_slot, is_line_slot, lemma_line_bounds, lemma_line_slot_is};
use crate::rows::{search_run, lemma_distinct_bound};
use crate::scalar::{SparseScalar, is_zero_value, subtracted_in_order};

verus! {

/// Values of the Cholesky factor `L`, indexed like the row indices of the
/// paired symbolic factor.
#[derive(Debug, Clone)]
pub struct NumericCholesky<T> {
    /// Non-zero values of `L`; `values[col_ptr[j]]` is `L[j, j]`.
    pub values: Vec<T>,
    /// Dimension of the factored system.
    pub n: usize,
}

impl<T: SparseScalar> NumericCholesky<T> {
    /// A zero-valued factor of dimension `n` with `nnz` stored entries.
    pub fn new(n: usize, nnz: usize) -> (r: Self)
        ensures
            r.n == n,
            r.values@.len() == nnz,
            forall|k: int| 0 <= k < nnz ==> crate::scalar::is_zero_value(#[trigger] r.values@[k]),
    {
        let mut values: Vec<T> = Vec::new();
        let mut t: usize = 0;
        while t < nnz
            invariant
                0 <= t <= nnz,
                values@.len() == t,
                forall|k: int| 0 <= k < t ==> crate::scalar::is_zero_value(#[trigger] values@[k]),
            decreases nnz - t,
        {
            values.push(T::zero());
            t = t + 1;
        }
        NumericCholesky { values, n }
    }
}

/// The left-looking traversal of the descendants of column `j`: the
/// stack holds nodes below `j` that are not done, and each node on the
/// stack or done hangs from `j` or from a done node.
pub open spec fn dfs_ok(sym: &SymbolicCholesky, j: int, stack: Seq<usize>, done: Seq<usize>) -> bool {
    &&& stack.no_duplicates()
    &&& done.no_duplicates()
    &&& forall|x: int| 0 <= x < stack.len() ==> #[trigger] stack[x] < j && !done.contains(stack[x])
    &&& forall|x: int| 0 <= x < done.len() ==> #[trigger] done[x] < j
    &&& forall|x: int| 0 <= x < stack.len() ==> sym.parent@[#[trigger] stack[x] as int] == j
        || done.contains(sym.parent@[stack[x] as int])
    &&& forall|x: int| 0 <= x < done.len() ==> sym.parent@[#[trigger] done[x] as int] == j
        || done.contains(sym.parent@[done[x] as int])
}

/// Taking the top node off the stack: it becomes done, and the rest of
/// the stack hangs from `j` or from nodes done before it.
pub(crate) proof fn lemma_dfs_pop(sym: &SymbolicCholesky, j: int, stack: Seq<usize>, done: Seq<usize>)
    requires
        dfs_ok(sym, j, stack, done),
        stack.len() > 0,
    ensures
        dfs_ok(sym, j, stack.drop_last(), done.push(stack.last())),
        !done.contains(stack.last()),
        stack.last() < j,
        forall|x: int| 0 <= x < stack.drop_last().len() ==> sym.parent@[#[trigger] stack.drop_last()[x] as int] == j
            || done.contains(sym.parent@[stack.drop_last()[x] as int]),
{
    let c = stack.last();
    let base = stack.drop_last();
    let d2 = done.push(c);
    assert(stack[stack.len() - 1] == c);
    assert forall|x: int| 0 <= x < base.len() implies #[trigger] base[x] < j && !d2.contains(base[x]) by {
        assert(base[x] == stack[x]);
        assert(stack[x] != stack[stack.len() - 1]);
        crate::rows::lemma_push_contains(done, c, base[x]);
    }
    assert forall|x: int| 0 <= x < base.len() implies sym.parent@[#[trigger] base[x] as int] == j
        || d2.contains(sym.parent@[base[x] as int]) by {
        assert(base[x] == stack[x]);
        crate::rows::lemma_push_contains(done, c, sym.parent@[base[x] as int]);
    }
    assert forall|x: int| 0 <= x < d2.len() implies sym.parent@[#[trigger] d2[x] as int] == j
        || d2.contains(sym.parent@[d2[x] as int]) by {
        crate::rows::lemma_push_contains(done, c, sym.parent@[d2[x] as int]);
        if x < done.len() {
            assert(d2[x] == done[x]);
        }
    }
    assert forall|a: int, b: int| 0 <= a < d2.len() && 0 <= b < d2.len() && a != b implies d2[a] != d2[b] by {
        if a == done.len() {
            assert(done.contains(d2[b]));
        } else if b == done.len() {
            assert(done.contains(d2[a]));
        }
    }
    assert forall|x: int| 0 <= x < d2.len() implies #[trigger] d2[x] < j by {}
    assert forall|a: int, b: int| 0 <= a < base.len() && 0 <= b < base.len() && a != b implies base[a] != base[b] by {
        assert(base[a] == stack[a] && base[b] == stack[b]);
    }
    assert forall|x: int| 0 <= x < base.len() implies sym.parent@[#[trigger] base[x] as int] == j
        || done.contains(sym.parent@[base[x] as int]) by {
        assert(base[x] == stack[x]);
    }
}

/// Pushing the next child of the node just taken off the stack keeps the
/// traversal well formed.
pub(crate) proof fn lemma_dfs_push(sym: &SymbolicCholesky, j: int, base: Seq<usize>, done0: Seq<usize>, c: usize, ci: int)
    requires
        sym.wf(),
        0 <= j < sym.n,
        c < j,
        dfs_ok(sym, j, base + sym.children@[c as int]@.take(ci), done0.push(c)),
        !done0.contains(c),
        forall|x: int| 0 <= x < base.len() ==> sym.parent@[#[trigger] base[x] as int] == j
            || done0.contains(sym.parent@[base[x] as int]),
        forall|x: int| 0 <= x < done0.len() ==> sym.parent@[#[trigger] done0[x] as int] == j
            || done0.contains(sym.parent@[done0[x] as int]),
        0 <= ci < sym.children@[c as int]@.len(),
    ensures
        dfs_ok(sym, j, base + sym.children@[c as int]@.take(ci + 1), done0.push(c)),
{
    let kids = sym.children@[c as int]@;
    let d = kids[ci];
    assert(kids.contains(d));
    assert(d < sym.n && sym.parent@[d as int] == c);
    assert(sym.parent@[d as int] == sym.n || (d < sym.parent@[d as int] < sym.n));
    let st = base + kids.take(ci);
    let st2 = base + kids.take(ci + 1);
    let dn = done0.push(c);
    assert(st2 =~= st.push(d));
    assert(!done0.contains(d)) by {
        if done0.contains(d) {
            let x = choose|x: int| 0 <= x < done0.len() && done0[x] == d;
            assert(sym.parent@[done0[x] as int] == j || done0.contains(sym.parent@[done0[x] as int]));
        }
    }
    assert(!st.contains(d)) by {
        if st.contains(d) {
            let x = choose|x: int| 0 <= x < st.len() && st[x] == d;
            if x < base.len() {
                assert(base[x] == d);
                assert(sym.parent@[base[x] as int] == j || done0.contains(sym.parent@[base[x] as int]));
            } else {
                assert(kids[x - base.len()] == d);
                assert(kids[x - base.len()] < kids[ci]);
            }
        }
    }
    crate::rows::lemma_push_contains(done0, c, d);
    assert forall|x: int| 0 <= x < st2.len() implies #[trigger] st2[x] < j && !dn.contains(st2[x]) by {
        if x < st.len() {
            assert(st2[x] == st[x]);
        }
    }
    assert forall|a: int, b: int| 0 <= a < st2.len() && 0 <= b < st2.len() && a != b implies st2[a] != st2[b] by {
        if a == st.len() {
            assert(st.contains(st2[b]));
        } else if b == st.len() {
            assert(st.contains(st2[a]));
        } else {
            assert(st2[a] == st[a] && st2[b] == st[b]);
        }
    }
    assert forall|x: int| 0 <= x < st2.len() implies sym.parent@[#[trigger] st2[x] as int] == j
        || dn.contains(sym.parent@[st2[x] as int]) by {
        if x < st.len() {
            assert(st2[x] == st[x]);
        } else {
            crate::rows::lemma_push_contains(done0, c, c);
        }
    }
}

} // verus!

verus! {

// -----------------------------------------------------------------
// What the factorization computes
// -----------------------------------------------------------------

/// `prods[t]` is the product `L[pos[t].0] * L[pos[t].1]` of two stored
/// entries of the factor.
pub open spec fn chol_products<T: SparseScalar>(lv: Seq<T>, pos: Seq<(int, int, int)>, prods: Seq<T>) -> bool {
    &&& prods.len() == pos.len()
    &&& forall|t: int| 0 <= t < pos.len() ==> #[trigger] call_ensures(T::times, (lv[pos[t].0], lv[pos[t].1]), prods[t])
}

/// `w` is the work column of column `j` after the left-looking update: the
/// scattered column `j` of `K`, less `L[i, c] * L[j, c]` in every row `i`
/// of every column `c` that updates `j`, the columns taken once each in
/// some order.
pub open spec fn chol_updated_column<T: SparseScalar>(
    sym: &SymbolicCholesky,
    k: &CscMatrix<T>,
    lv: Seq<T>,
    j: int,
    w: Seq<T>,
) -> bool {
    exists|order: Seq<usize>, w0: Seq<T>, prods: Seq<T>| {
        &&& update_order(sym, j, order)
        &&& scattered_column(k, j, w0)
        &&& chol_products(lv, update_positions(sym, j, order), prods)
        &&& #[trigger] subtracted_in_order(w0, w, subtractions(sym, update_positions(sym, j, order), prods))
    }
}

/// From the work column `w`, column `j` is finished: the pivot `w[j]`
/// passes the test, `L[j, j] = sqrt(w[j])` and `L[i, j] = w[i] / L[j, j]`
/// for the rows `i` below the diagonal.
pub open spec fn chol_finish<T: SparseScalar>(sym: &SymbolicCholesky, lv: Seq<T>, j: int, w: Seq<T>) -> bool {
    let d = lv[sym.col_ptr@[j] as int];
    &&& call_ensures(T::is_positive_pivot, (w[j],), true)
    &&& call_ensures(T::scalar_sqrt, (w[j],), d)
    &&& forall|p: int| sym.col_ptr@[j] < p < sym.col_ptr@[j + 1] ==>
        #[trigger] call_ensures(T::divided_by, (w[sym.row_idx@[p] as int], d), lv[p])
}

/// Column `j` of `lv` is the factor column computed from `K` and the
/// columns before it.
pub open spec fn chol_column<T: SparseScalar>(sym: &SymbolicCholesky, k: &CscMatrix<T>, lv: Seq<T>, j: int) -> bool {
    exists|w: Seq<T>| #[trigger] chol_updated_column(sym, k, lv, j, w) && chol_finish(sym, lv, j, w)
}

/// `lv` is the Cholesky factor of `K` on the pattern of `sym`.
pub open spec fn chol_factor<T: SparseScalar>(sym: &SymbolicCholesky, k: &CscMatrix<T>, lv: Seq<T>) -> bool {
    &&& lv.len() == sym.row_idx@.len()
    &&& forall|j: int| 0 <= j < sym.n ==> #[trigger] chol_column(sym, k, lv, j)
}

/// The pivot of column `j`, computed from `K` and the columns of `lv`
/// before it, is `value` and fails the pivot test.
pub open spec fn chol_pivot_fails<T: SparseScalar>(
    sym: &SymbolicCholesky,
    k: &CscMatrix<T>,
    lv: Seq<T>,
    j: int,
    value: T,
) -> bool {
    exists|w: Seq<T>| #[trigger] chol_updated_column(sym, k, lv, j, w) && w[j] == value
        && call_ensures(T::is_positive_pivot, (value,), false)
}

/// The factorization stops at column `j` with pivot `value`: the columns
/// before `j` are factor columns of `K`, and the pivot of column `j`
/// computed from them fails the test.
pub open spec fn chol_fails_at<T: SparseScalar>(sym: &SymbolicCholesky, k: &CscMatrix<T>, j: int, value: T) -> bool {
    exists|lv: Seq<T>| {
        &&& lv.len() == sym.row_idx@.len()
        &&& forall|q: int| 0 <= q < j ==> #[trigger] chol_column(sym, k, lv, q)
        &&& #[trigger] chol_pivot_fails(sym, k, lv, j, value)
    }
}

/// The update of column `j` only reads the columns before it.
pub proof fn lemma_chol_updated_frame<T: SparseScalar>(
    sym: &SymbolicCholesky,
    k: &CscMatrix<T>,
    lv: Seq<T>,
    lv2: Seq<T>,
    j: int,
    w: Seq<T>,
)
    requires
        sym.wf(),
        0 <= j < sym.n,
        chol_updated_column(sym, k, lv, j, w),
        forall|p: int| 0 <= p < sym.col_ptr@[j] ==> lv2[p] == lv[p],
    ensures
        chol_updated_column(sym, k, lv2, j, w),
{
    let (order, w0, prods) = choose|order: Seq<usize>, w0: Seq<T>, prods: Seq<T>| {
        &&& update_order(sym, j, order)
        &&& scattered_column(k, j, w0)
        &&& chol_products(lv, update_positions(sym, j, order), prods)
        &&& #[trigger] subtracted_in_order(w0, w, subtractions(sym, update_positions(sym, j, order), prods))
    };
    assert forall|x: int| 0 <= x < order.len() implies #[trigger] updates_column(sym, j, order[x] as int) by {
        assert(order.contains(order[x]));
    }
    lemma_update_positions_bounds(sym, j, order);
    let pos = update_positions(sym, j, order);
    assert forall|t: int| 0 <= t < pos.len() implies #[trigger] call_ensures(T::times, (lv2[pos[t].0], lv2[pos[t].1]), prods[t]) by {
        let p = pos[t];
        assert(0 <= p.1 <= p.0 < sym.col_ptr@[j]);
        assert(call_ensures(T::times, (lv[pos[t].0], lv[pos[t].1]), prods[t]));
    }
    assert(subtracted_in_order(w0, w, subtractions(sym, update_positions(sym, j, order), prods)));
}

/// A finished column stays finished when later columns change.
pub proof fn lemma_chol_column_frame<T: SparseScalar>(
    sym: &SymbolicCholesky,
    k: &CscMatrix<T>,
    lv: Seq<T>,
    lv2: Seq<T>,
    j: int,
)
    requires
        sym.wf(),
        0 <= j < sym.n,
        chol_column(sym, k, lv, j),
        forall|p: int| 0 <= p < sym.col_ptr@[j + 1] ==> lv2[p] == lv[p],
    ensures
        chol_column(sym, k, lv2, j),
{
    let w = choose|w: Seq<T>| #[trigger] chol_updated_column(sym, k, lv, j, w) && chol_finish(sym, lv, j, w);
    assert(sym.col_ptr@[j] <= sym.col_ptr@[j + 1]);
    assert(sym.col(j).len() >= 1);
    lemma_chol_updated_frame(sym, k, lv, lv2, j, w);
    assert(chol_finish(sym, lv2, j, w));
}

// -----------------------------------------------------------------
// The traversal steps
// -----------------------------------------------------------------

/// A column taken off the stack whose pattern holds row `j` updates `j`.
pub(crate) proof fn lemma_pop_updates(sym: &SymbolicCholesky, j: int, order: Seq<usize>, c: usize)
    requires
        sym.wf(),
        0 <= j < sym.n,
        c < j,
        sym.col(c as int).contains(j as usize),
        sym.parent@[c as int] == j || order.contains(sym.parent@[c as int]),
        forall|x: int| 0 <= x < order.len() ==> #[trigger] updates_column(sym, j, order[x] as int),
    ensures
        updates_column(sym, j, c as int),
{
    let p = sym.parent@[c as int];
    if p != j {
        let x = choose|x: int| 0 <= x < order.len() && order[x] == p;
        assert(updates_column(sym, j, order[x] as int));
    }
    assert(p == sym.n || (c < p < sym.n));
}

/// Skipping a column that does not update `j` keeps every pending column
/// accounted for.
pub(crate) proof fn lemma_pending_skip(sym: &SymbolicCholesky, j: int, base: Seq<usize>, order: Seq<usize>, c: usize)
    requires
        pending_ok(sym, j, base.push(c), order),
        !updates_column(sym, j, c as int),
    ensures
        pending_ok(sym, j, base, order),
{
    assert forall|d: usize| #[trigger] updates_column(sym, j, d as int) && !order.contains(d) implies (base.contains(d) || (
        sym.parent@[d as int] != j && updates_column(sym, j, sym.parent@[d as int] as int) && !order.contains(
            sym.parent@[d as int],
        ))) by {
        crate::rows::lemma_push_contains(base, c, d);
    }
}

/// Processing an updating column and pushing its children keeps every
/// pending column accounted for.
pub(crate) proof fn lemma_pending_found(sym: &SymbolicCholesky, j: int, base: Seq<usize>, order: Seq<usize>, c: usize)
    requires
        sym.wf(),
        pending_ok(sym, j, base.push(c), order),
        c < sym.n,
    ensures
        pending_ok(sym, j, base + sym.children@[c as int]@, order.push(c)),
{
    let kids = sym.children@[c as int]@;
    let o2 = order.push(c);
    assert forall|d: usize| #[trigger] updates_column(sym, j, d as int) && !o2.contains(d) implies ((base + kids).contains(d) || (
        sym.parent@[d as int] != j && updates_column(sym, j, sym.parent@[d as int] as int) && !o2.contains(
            sym.parent@[d as int],
        ))) by {
        crate::rows::lemma_push_contains(order, c, d);
        crate::rows::lemma_push_contains(base, c, d);
        let p = sym.parent@[d as int];
        crate::rows::lemma_push_contains(order, c, p);
        if base.contains(d) {
            let x = choose|x: int| 0 <= x < base.len() && base[x] == d;
            assert((base + kids)[x] == d);
        } else if p == c {
            assert(d < sym.n) by {
                assert(0 <= d < j);
            }
            assert(kids.contains(d));
            let x = choose|x: int| 0 <= x < kids.len() && kids[x] == d;
            assert((base + kids)[base.len() + x] == d);
        }
    }
}

/// Compute the numeric Cholesky factor `K = L Lᵀ` of the full matrix
/// `k_csc` on the pattern of `sym`.
///
/// For each column `j`: scatter the rows `>= j` of column `j` of `K`,
/// subtract `L[:, c] * L[j, c]` for every descendant `c` of `j` in the
/// elimination forest whose column holds row `j` (depth first, children in
/// ascending order pushed on a stack), test the pivot, then
/// `L[j, j] = sqrt(w[j])` and `L[i, j] = w[i] / L[j, j]`.
///
/// Error: `NotPositiveDefinite` with the first column whose pivot fails
/// the pivot test of the scalar type, and that pivot.
pub fn factorize<T: SparseScalar>(k_csc: &CscMatrix<T>, sym: &SymbolicCholesky) -> (r: Result<NumericCholesky<T>, SolverError<T>>)
    requires
        k_csc.wf(),
        sym.wf(),
        k_csc.nrows == sym.n,
        k_csc.ncols == sym.n,
    ensures
        r matches Ok(num) ==> num.n == sym.n && chol_factor(sym, k_csc, num.values@),
        r matches Err(e) ==> (e matches SolverError::NotPositiveDefinite { index, value } && index < sym.n
            && chol_fails_at(sym, k_csc, index as int, value)),
{
    let mut num = NumericCholesky::new(sym.n, sym.row_idx.len());
    match factorize_into(k_csc, sym, &mut num.values) {
        Ok(()) => Ok(num),
        Err(e) => {
            proof {
                let lv = num.values@;
                if let SolverError::NotPositiveDefinite { index, value } = e {
                    assert(forall|q: int| 0 <= q < index ==> #[trigger] chol_column(sym, k_csc, lv, q));
                    assert(chol_pivot_fails(sym, k_csc, lv, index as int, value));
                    assert(chol_fails_at(sym, k_csc, index as int, value));
                }
            }
            Err(e)
        },
    }
}

/// The left-looking factorization of `factorize`, computed in place over
/// the factor values `lv`: column `j` overwrites only its own storage
/// range.  On a failing pivot the columns before it hold their new values
/// and the storage from that column on is left as it was.
#[verifier::spinoff_prover]
pub fn factorize_into<T: SparseScalar>(k_csc: &CscMatrix<T>, sym: &SymbolicCholesky, lv: &mut Vec<T>) -> (r: Result<(), SolverError<T>>)
    requires
        k_csc.wf(),
        sym.wf(),
        k_csc.nrows == sym.n,
        k_csc.ncols == sym.n,
        old(lv)@.len() == sym.row_idx@.len(),
    ensures
        final(lv)@.len() == old(lv)@.len(),
        r is Ok ==> chol_factor(sym, k_csc, final(lv)@),
        r matches Err(e) ==> (e matches SolverError::NotPositiveDefinite { index, value } && index < sym.n
            && (forall|q: int| 0 <= q < index ==> #[trigger] chol_column(sym, k_csc, final(lv)@, q))
            && chol_pivot_fails(sym, k_csc, final(lv)@, index as int, value)
            && (forall|p: int| sym.col_ptr@[index as int] <= p < final(lv)@.len() ==> #[trigger] final(lv)@[p] == old(lv)@[p])),
{
    let n = sym.n;
    let nnz = sym.row_idx.len();
    proof {
        sym.lemma_lines();
        k_csc.lemma_lines();
    }
    let ghost cp = sym.col_ptr@;
    let ghost ri = sym.row_idx@;
    let ghost kcp = k_csc.col_ptr@;
    let ghost kri = k_csc.row_idx@;
    let ghost lv_init = lv@;
    let mut w: Vec<T> = Vec::new();
    let mut active: Vec<bool> = Vec::new();
    let mut t: usize = 0;
    while t < n
        invariant
            0 <= t <= n,
            w@.len() == t,
            active@.len() == t,
            forall|i: int| 0 <= i < t ==> is_zero_value(#[trigger] w@[i]) && !active@[i],
        decreases n - t,
    {
        w.push(T::zero());
        active.push(false);
        t = t + 1;
    }
    let mut touched: Vec<usize> = Vec::new();
    let mut j: usize = 0;
    while j < n
        invariant
            n == sym.n,
            sym.wf(),
            k_csc.wf(),
            k_csc.nrows == n,
            k_csc.ncols == n,
            cp == sym.col_ptr@,
            ri == sym.row_idx@,
            kcp == k_csc.col_ptr@,
            kri == k_csc.row_idx@,
            lines_ok(cp, ri, n as int, n as int),
            lines_ok(kcp, kri, n as int, n as int),
            nnz == ri.len(),
            lv@.len() == nnz,
            w@.len() == n,
            active@.len() == n,
            0 <= j <= n,
            forall|i: int| 0 <= i < n ==> is_zero_value(#[trigger] w@[i]) && !active@[i],
            forall|q: int| 0 <= q < j ==> #[trigger] chol_column(sym, k_csc, lv@, q),
            lv_init.len() == nnz,
            lv_init == old(lv)@,
            j < n ==> forall|p: int| cp[j as int] <= p < nnz ==> #[trigger] lv@[p] == lv_init[p],
        decreases n - j,
    {
        proof {
            assert forall|i: int| 0 <= i < n implies !#[trigger] active@[i] by {
                assert(is_zero_value(w@[i]) && !active@[i]);
            }
        }
        touched.clear();
        // scatter the rows >= j of column j of K
        proof {
            lemma_line_bounds(kcp, kri, n as int, n as int, j as int);
            assert forall|i: int| 0 <= i < n implies (#[trigger] active@[i] <==> touched@.contains(i as usize)) by {
                assert(!active@[i]);
            }
        }
        let k_start = k_csc.col_ptr[j];
        let k_end = k_csc.col_ptr[j + 1];
        let mut idx = k_start;
        while idx < k_end
            invariant
                n == sym.n,
                k_csc.wf(),
                k_csc.nrows == n,
                k_csc.ncols == n,
                kcp == k_csc.col_ptr@,
                kri == k_csc.row_idx@,
                lines_ok(kcp, kri, n as int, n as int),
                0 <= j < n,
                k_start == kcp[j as int],
                k_end == kcp[j + 1],
                k_end <= kri.len(),
                k_start <= idx <= k_end,
                w@.len() == n,
                active@.len() == n,
                forall|i: int| 0 <= i < n ==> (#[trigger] active@[i] <==> touched@.contains(i as usize)),
                forall|x: int| 0 <= x < touched@.len() ==> #[trigger] touched@[x] < n,
                forall|i: int| 0 <= i < n && !active@[i] ==> is_zero_value(#[trigger] w@[i]),
                forall|i: int| 0 <= i < n && j <= i && k_csc.stored(i, j as int) && line_slot(kcp, kri, j as int, i) < idx
                    ==> #[trigger] w@[i] == k_csc.value_at(i, j as int),
                forall|i: int| 0 <= i < n && !(j <= i && k_csc.stored(i, j as int) && line_slot(kcp, kri, j as int, i) < idx)
                    ==> is_zero_value(#[trigger] w@[i]),
            decreases k_end - idx,
        {
            let row = k_csc.row_idx[idx];
            proof {
                assert(is_line_slot(kcp, kri, j as int, row as int, idx as int));
                lemma_line_slot_is(kcp, kri, n as int, n as int, j as int, row as int, idx as int);
                assert(row < n);
                assert forall|i: int| 0 <= i < n && i != row && k_csc.stored(i, j as int) implies
                    line_slot(kcp, kri, j as int, i) != idx by {
                    if line_slot(kcp, kri, j as int, i) == idx {
                        assert(is_line_slot(kcp, kri, j as int, i, line_slot(kcp, kri, j as int, i)));
                    }
                }
            }
            let ghost tb = touched@;
            if row >= j {
                w.set(row, k_csc.values[idx]);
                if !active[row] {
                    active.set(row, true);
                    touched.push(row);
                }
            }
            proof {
                assert forall|i: int| 0 <= i < n implies (#[trigger] active@[i] <==> touched@.contains(i as usize)) by {
                    if touched@ != tb {
                        crate::rows::lemma_push_contains(tb, row, i as usize);
                    }
                }
            }
            idx = idx + 1;
        }
        let ghost w0 = w@;
        proof {
            assert(scattered_column(k_csc, j as int, w0)) by {
                assert forall|i: int| 0 <= i < n && j <= i && k_csc.stored(i, j as int) implies
                    line_slot(kcp, kri, j as int, i) < k_end by {
                    let s = line_slot(kcp, kri, j as int, i);
                    assert(is_line_slot(kcp, kri, j as int, i, s));
                }
            }
        }
        // left-looking update over the descendants of j
        let mut stack: Vec<usize> = Vec::new();
        let ghost mut done: Seq<usize> = Seq::empty();
        let ghost mut order: Seq<usize> = Seq::empty();
        let ghost mut prods: Seq<T> = Seq::empty();
        let nch = sym.children[j].len();
        let mut ci: usize = 0;
        while ci < nch
            invariant
                n == sym.n,
                sym.wf(),
                0 <= j < n,
                nch == sym.children@[j as int]@.len(),
                0 <= ci <= nch,
                stack@ == sym.children@[j as int]@.take(ci as int),
                done == Seq::<usize>::empty(),
                dfs_ok(sym, j as int, stack@, done),
            decreases nch - ci,
        {
            let c = sym.children[j][ci];
            proof {
                let kids = sym.children@[j as int]@;
                assert(kids.contains(c));
                assert(sym.parent@[c as int] == j);
                assert(sym.parent@[c as int] == n || (c < sym.parent@[c as int] < n));
                assert(!stack@.contains(c)) by {
                    if stack@.contains(c) {
                        let x = choose|x: int| 0 <= x < stack@.len() && stack@[x] == c;
                        assert(kids[x] < kids[ci as int]);
                    }
                }
            }
            let ghost s0 = stack@;
            stack.push(c);
            proof {
                assert(stack@ =~= sym.children@[j as int]@.take(ci + 1));
                assert forall|a: int, b: int| 0 <= a < stack@.len() && 0 <= b < stack@.len() && a != b implies stack@[a] != stack@[b] by {
                    if a == s0.len() {
                        assert(s0.contains(stack@[b]));
                    } else if b == s0.len() {
                        assert(s0.contains(stack@[a]));
                    } else {
                        assert(stack@[a] == s0[a] && stack@[b] == s0[b]);
                    }
                }
                assert forall|x: int| 0 <= x < stack@.len() implies #[trigger] stack@[x] < j && !done.contains(stack@[x]) by {
                    if x < s0.len() {
                        assert(stack@[x] == s0[x]);
                    }
                }
                assert forall|x: int| 0 <= x < stack@.len() implies sym.parent@[#[trigger] stack@[x] as int] == j
                    || done.contains(sym.parent@[stack@[x] as int]) by {
                    if x < s0.len() {
                        assert(stack@[x] == s0[x]);
                    }
                }
            }
            ci = ci + 1;
        }
        proof {
            let kids = sym.children@[j as int]@;
            assert(stack@ =~= kids);
            assert forall|c: usize| #[trigger] updates_column(sym, j as int, c as int) && !order.contains(c) implies (stack@.contains(c) || (
                sym.parent@[c as int] != j && updates_column(sym, j as int, sym.parent@[c as int] as int) && !order.contains(
                    sym.parent@[c as int],
                ))) by {
                if sym.parent@[c as int] == j {
                    assert(c < n);
                    assert(kids.contains(c));
                }
            }
            assert forall|x: int| 0 <= x < stack@.len() implies sym.parent@[#[trigger] stack@[x] as int] == j
                || order.contains(sym.parent@[stack@[x] as int]) by {
                assert(kids.contains(stack@[x]));
            }
            crate::scalar::lemma_subtracted_none(w0);
            assert(update_positions(sym, j as int, order) =~= Seq::<(int, int, int)>::empty());
            assert(subtractions(sym, update_positions(sym, j as int, order), prods) =~= Seq::<(int, T)>::empty());
        }
        while stack.len() > 0
            invariant
                n == sym.n,
                sym.wf(),
                k_csc.wf(),
                k_csc.nrows == n,
                k_csc.ncols == n,
                cp == sym.col_ptr@,
                ri == sym.row_idx@,
                lines_ok(cp, ri, n as int, n as int),
                nnz == ri.len(),
                lv@.len() == nnz,
                w@.len() == n,
                active@.len() == n,
                0 <= j < n,
                dfs_ok(sym, j as int, stack@, done),
                forall|c: usize| #[trigger] order.contains(c) ==> done.contains(c),
                order.no_duplicates(),
                forall|x: int| 0 <= x < order.len() ==> #[trigger] updates_column(sym, j as int, order[x] as int),
                forall|x: int| 0 <= x < stack@.len() ==> sym.parent@[#[trigger] stack@[x] as int] == j
                    || order.contains(sym.parent@[stack@[x] as int]),
                pending_ok(sym, j as int, stack@, order),
                scattered_column(k_csc, j as int, w0),
                chol_products(lv@, update_positions(sym, j as int, order), prods),
                subtracted_in_order(w0, w@, subtractions(sym, update_positions(sym, j as int, order), prods)),
                forall|i: int| 0 <= i < n ==> (#[trigger] active@[i] <==> touched@.contains(i as usize)),
                forall|x: int| 0 <= x < touched@.len() ==> #[trigger] touched@[x] < n,
                forall|i: int| 0 <= i < n && !active@[i] ==> is_zero_value(#[trigger] w@[i]),
            decreases j - done.len(),
        {
            let ghost s0 = stack@;
            let ghost done0 = done;
            let c = match stack.pop() {
                Some(c) => c,
                None => {
                    proof {
                        assert(false);
                    }
                    0
                },
            };
            proof {
                assert(s0.last() == c);
                assert(stack@ == s0.drop_last());
                assert(s0 =~= stack@.push(c));
                lemma_dfs_pop(sym, j as int, s0, done0);
                done = done0.push(c);
                lemma_distinct_bound(done, j as int);
                assert(sym.parent@[s0[s0.len() - 1] as int] == j || order.contains(sym.parent@[s0[s0.len() - 1] as int]));
                assert forall|x: int| 0 <= x < stack@.len() implies sym.parent@[#[trigger] stack@[x] as int] == j
                    || order.contains(sym.parent@[stack@[x] as int]) by {
                    assert(stack@[x] == s0[x]);
                }
                assert(!order.contains(c)) by {
                    if order.contains(c) {
                        assert(done0.contains(c));
                    }
                }
            }
            assert(c < n);
            proof {
                lemma_line_bounds(cp, ri, n as int, n as int, c as int);
                assert(crate::compressed::line_sorted(cp, ri, c as int));
            }
            let col_start = sym.col_ptr[c];
            let col_end = sym.col_ptr[c + 1];
            match search_run(&sym.row_idx, col_start, col_end, j) {
                Ok(pos_j) => {
                    proof {
                        let col = sym.col(c as int);
                        assert(col[pos_j - col_start] == j);
                        assert(col.contains(j as usize));
                        lemma_pop_updates(sym, j as int, order, c);
                        assert(is_line_slot(cp, ri, c as int, j as int, pos_j as int));
                        lemma_line_slot_is(cp, ri, n as int, n as int, c as int, j as int, pos_j as int);
                        lemma_update_positions_push(sym, j as int, order, c);
                        lemma_block_bounds(sym, c as int, j as int);
                    }
                    let ghost pos_old = update_positions(sym, j as int, order);
                    let ghost block = update_block(sym, c as int, j as int);
                    let ljc = lv[pos_j];
                    let mut pos = pos_j;
                    while pos < col_end
                        invariant
                            n == sym.n,
                            sym.wf(),
                            cp == sym.col_ptr@,
                            ri == sym.row_idx@,
                            lines_ok(cp, ri, n as int, n as int),
                            c < n,
                            col_start == cp[c as int],
                            col_end == cp[c + 1],
                            col_end <= ri.len(),
                            pos_j == line_slot(cp, ri, c as int, j as int),
                            col_start <= pos_j <= pos <= col_end,
                            ljc == lv@[pos_j as int],
                            block == update_block(sym, c as int, j as int),
                            block.len() == col_end - pos_j,
                            lv@.len() == ri.len(),
                            w@.len() == n,
                            active@.len() == n,
                            chol_products(lv@, pos_old + block.take(pos - pos_j), prods),
                            subtracted_in_order(w0, w@, subtractions(sym, pos_old + block.take(pos - pos_j), prods)),
                            forall|i: int| 0 <= i < n ==> (#[trigger] active@[i] <==> touched@.contains(i as usize)),
                            forall|x: int| 0 <= x < touched@.len() ==> #[trigger] touched@[x] < n,
                            forall|i: int| 0 <= i < n && !active@[i] ==> is_zero_value(#[trigger] w@[i]),
                        decreases col_end - pos,
                    {
                        let row = sym.row_idx[pos];
                        proof {
                            assert(row < n);
                        }
                        let prod = lv[pos].times(ljc);
                        let ghost wb = w@;
                        let ghost pb = pos_old + block.take(pos - pos_j);
                        let nv = w[row].minus(prod);
                        let ghost tb = touched@;
                        w.set(row, nv);
                        if !active[row] {
                            active.set(row, true);
                            touched.push(row);
                        }
                        proof {
                            let m = (pos - pos_j) as int;
                            assert(block[m] == (pos as int, pos_j as int, c as int));
                            assert(pos_old + block.take(m + 1) =~= pb.push(block[m]));
                            crate::scalar::lemma_subtracted_len(w0, wb, subtractions(sym, pb, prods));
                            crate::scalar::lemma_subtracted_step(w0, wb, subtractions(sym, pb, prods), row as int, prod, nv);
                            lemma_subtractions_push(sym, pb, prods, block[m], prod);
                            prods = prods.push(prod);
                            let pn = pb.push(block[m]);
                            assert forall|t: int| 0 <= t < pn.len() implies #[trigger] call_ensures(T::times, (lv@[pn[t].0], lv@[pn[t].1]), prods[t]) by {
                                if t < pb.len() {
                                    assert(pn[t] == pb[t]);
                                }
                            }
                            assert forall|i: int| 0 <= i < n implies (#[trigger] active@[i] <==> touched@.contains(i as usize)) by {
                                if touched@ != tb {
                                    crate::rows::lemma_push_contains(tb, row, i as usize);
                                }
                            }
                        }
                        pos = pos + 1;
                    }
                    proof {
                        assert(block.take(col_end - pos_j) =~= block);
                        let o0 = order;
                        order = o0.push(c);
                        assert forall|x: int| 0 <= x < order.len() implies #[trigger] updates_column(sym, j as int, order[x] as int) by {
                            if x < o0.len() {
                                assert(order[x] == o0[x]);
                            }
                        }
                        assert(order.no_duplicates()) by {
                            assert forall|a: int, b: int| 0 <= a < b < order.len() implies order[a] != order[b] by {
                                assert(order[a] == o0[a]);
                                if b == o0.len() {
                                    assert(o0.contains(o0[a]));
                                } else {
                                    assert(order[b] == o0[b]);
                                }
                            }
                        }
                        assert forall|x: usize| #[trigger] order.contains(x) implies done.contains(x) by {
                            crate::rows::lemma_push_contains(o0, c, x);
                            crate::rows::lemma_push_contains(done0, c, x);
                            if o0.contains(x) {
                                assert(done0.contains(x));
                            }
                        }
                        lemma_pending_found(sym, j as int, stack@, o0, c);
                        assert forall|x: int| 0 <= x < stack@.len() implies sym.parent@[#[trigger] stack@[x] as int] == j
                            || order.contains(sym.parent@[stack@[x] as int]) by {
                            crate::rows::lemma_push_contains(o0, c, sym.parent@[stack@[x] as int]);
                        }
                    }
                    let kids_len = sym.children[c].len();
                    let ghost base = stack@;
                    let mut ci: usize = 0;
                    while ci < kids_len
                        invariant
                            n == sym.n,
                            sym.wf(),
                            0 <= j < n,
                            c < j,
                            kids_len == sym.children@[c as int]@.len(),
                            0 <= ci <= kids_len,
                            done == done0.push(c),
                            !done0.contains(c),
                            order.contains(c),
                            stack@ == base + sym.children@[c as int]@.take(ci as int),
                            dfs_ok(sym, j as int, stack@, done),
                            forall|x: int| 0 <= x < base.len() ==> sym.parent@[#[trigger] base[x] as int] == j
                                || done0.contains(sym.parent@[base[x] as int]),
                            forall|x: int| 0 <= x < done0.len() ==> sym.parent@[#[trigger] done0[x] as int] == j
                                || done0.contains(sym.parent@[done0[x] as int]),
                            forall|x: int| 0 <= x < base.len() ==> sym.parent@[#[trigger] base[x] as int] == j
                                || order.contains(sym.parent@[base[x] as int]),
                            forall|x: int| 0 <= x < stack@.len() ==> sym.parent@[#[trigger] stack@[x] as int] == j
                                || order.contains(sym.parent@[stack@[x] as int]),
                        decreases kids_len - ci,
                    {
                        let d = sym.children[c][ci];
                        proof {
                            lemma_dfs_push(sym, j as int, base, done0, c, ci as int);
                        }
                        let ghost s1 = stack@;
                        stack.push(d);
                        proof {
                            assert(stack@ =~= base + sym.children@[c as int]@.take(ci + 1));
                            let kids = sym.children@[c as int]@;
                            assert(kids.contains(d));
                            assert(sym.parent@[d as int] == c);
                            assert forall|x: int| 0 <= x < stack@.len() implies sym.parent@[#[trigger] stack@[x] as int] == j
                                || order.contains(sym.parent@[stack@[x] as int]) by {
                                if x < s1.len() {
                                    assert(stack@[x] == s1[x]);
                                }
                            }
                        }
                        ci = ci + 1;
                    }
                    proof {
                        assert(sym.children@[c as int]@.take(kids_len as int) =~= sym.children@[c as int]@);
                    }
                },
                Err(_) => {
                    proof {
                        assert(!sym.col(c as int).contains(j as usize)) by {
                            let col = sym.col(c as int);
                            if col.contains(j as usize) {
                                let q = choose|q: int| 0 <= q < col.len() && col[q] == j as usize;
                                assert(ri[col_start + q] == j);
                            }
                        }
                        assert(!updates_column(sym, j as int, c as int));
                        lemma_pending_skip(sym, j as int, stack@, order, c);
                        assert forall|x: usize| #[trigger] order.contains(x) implies done.contains(x) by {
                            crate::rows::lemma_push_contains(done0, c, x);
                        }
                    }
                },
            }
        }
        let ghost w1 = w@;
        proof {
            assert(stack@ =~= Seq::<usize>::empty());
            assert forall|c: usize| #[trigger] order.contains(c) <==> updates_column(sym, j as int, c as int) by {
                if updates_column(sym, j as int, c as int) {
                    lemma_pending_done(sym, j as int, order, c);
                }
                if order.contains(c) {
                    let x = choose|x: int| 0 <= x < order.len() && order[x] == c;
                    assert(updates_column(sym, j as int, order[x] as int));
                }
            }
            assert(update_order(sym, j as int, order));
            assert(chol_updated_column(sym, k_csc, lv@, j as int, w1));
        }
        // pivot
        let wj = w[j];
        let ok = wj.is_positive_pivot();
        if !ok {
            proof {
                assert(chol_pivot_fails(sym, k_csc, lv@, j as int, wj));
            }
            return Err(SolverError::NotPositiveDefinite { index: j, value: wj });
        }
        let ljj = wj.scalar_sqrt();
        proof {
            lemma_line_bounds(cp, ri, n as int, n as int, j as int);
            assert(sym.col(j as int).len() >= 1);
        }
        let l_col_start = sym.col_ptr[j];
        let l_col_end = sym.col_ptr[j + 1];
        let ghost lv0 = lv@;
        lv.set(l_col_start, ljj);
        let mut pos = l_col_start + 1;
        while pos < l_col_end
            invariant
                n == sym.n,
                sym.wf(),
                cp == sym.col_ptr@,
                ri == sym.row_idx@,
                0 <= j < n,
                l_col_start == cp[j as int],
                l_col_end == cp[j + 1],
                l_col_end <= ri.len(),
                l_col_start < pos <= l_col_end,
                lv@.len() == ri.len(),
                w@ == w1,
                w@.len() == n,
                lv@[l_col_start as int] == ljj,
                forall|p: int| 0 <= p < lv@.len() && (p < l_col_start || p >= l_col_end) ==> #[trigger] lv@[p] == lv0[p],
                forall|p: int| l_col_start < p < pos ==> #[trigger] call_ensures(T::divided_by, (w1[ri[p] as int], ljj), lv@[p]),
            decreases l_col_end - pos,
        {
            let row = sym.row_idx[pos];
            proof {
                assert(sym.col(j as int)[pos - l_col_start] == row);
            }
            let v = w[row].divided_by(ljj);
            lv.set(pos, v);
            pos = pos + 1;
        }
        proof {
            lemma_chol_updated_frame(sym, k_csc, lv0, lv@, j as int, w1);
            assert(chol_finish(sym, lv@, j as int, w1));
            assert(chol_column(sym, k_csc, lv@, j as int));
            assert forall|q: int| 0 <= q < j + 1 implies #[trigger] chol_column(sym, k_csc, lv@, q) by {
                if q < j {
                    assert(cp[q + 1] <= cp[j as int]);
                    lemma_chol_column_frame(sym, k_csc, lv0, lv@, q);
                }
            }
            if j + 1 < n {
                assert(cp[j as int] <= cp[j + 1]);
                assert forall|p: int| cp[j + 1] <= p < nnz implies #[trigger] lv@[p] == lv_init[p] by {
                    assert(lv@[p] == lv0[p]);
                }
            }
        }
        let tl = touched.len();
        proof {
            assert(touched@.subrange(0, tl as int) =~= touched@);
        }
        let mut t: usize = 0;
        while t < tl
            invariant
                0 <= t <= tl,
                tl == touched@.len(),
                w@.len() == n,
                active@.len() == n,
                forall|x: int| 0 <= x < touched@.len() ==> #[trigger] touched@[x] < n,
                forall|i: int| 0 <= i < n && #[trigger] active@[i] ==> touched@.subrange(t as int, tl as int).contains(i as usize),
                forall|i: int| 0 <= i < n && !active@[i] ==> is_zero_value(#[trigger] w@[i]),
            decreases tl - t,
        {
            let r = touched[t];
            proof {
                assert forall|i: int| 0 <= i < n && i != r && #[trigger] active@[i] implies touched@.subrange(t + 1, tl as int).contains(i as usize) by {
                    let s = touched@.subrange(t as int, tl as int);
                    let x = choose|x: int| 0 <= x < s.len() && s[x] == i as usize;
                    assert(x != 0);
                    assert(touched@.subrange(t + 1, tl as int)[x - 1] == i as usize);
                }
            }
            w.set(r, T::zero());
            active.set(r, false);
            t = t + 1;
        }
        proof {
            assert forall|i: int| 0 <= i < n implies is_zero_value(#[trigger] w@[i]) && !active@[i] by {
                if active@[i] {
                    assert(touched@.subrange(tl as int, tl as int).contains(i as usize));
                }
            }
        }
        j = j + 1;
    }
    Ok(())
}

} // verus!
