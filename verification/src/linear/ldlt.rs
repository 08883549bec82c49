//! Sparse LDLᵀ solver for symmetric, possibly indefinite, systems.  It
//! shares the symbolic phase of the Cholesky solver; the factor has a unit
//! diagonal and the pivots are kept in `D`.
use vstd::prelude::*;
use crate::cholesky::factor_spec::{
    updates_column, update_block, update_positions, subtractions, scattered_column, update_order, pending_ok,
    lemma_update_positions_bounds, lemma_block_bounds, lemma_update_positions_push, lemma_subtractions_push,
    lemma_pending_done,
};
use crate::cholesky::numeric::{dfs_ok, lemma_dfs_pop, lemma_dfs_push, lemma_pop_updates, lemma_pending_skip, lemma_pending_found};
use crate::cholesky::solve::{forward_below, backward_below};
use crate::cholesky::trace::{SolveOp, solve_step, solved_by, lemma_solved_none, lemma_solved_step, step_target, step_source, step_slot};
use crate::compressed::{lines_ok, line_slot, is_line_slot, lemma_line_bounds, lemma_line_slot_is};
use crate::cholesky::symbolic::{self, SymbolicCholesky};
use crate::csc::CscMatrix;
use crate::convert::sym_to_csc;
use crate::error::SolverError;
use crate::linear::{LinearSolver, permuted_pattern, permuted_full_accumulated, lemma_permuted_full};
use crate::cholesky::symbolic::reach_sets;
use crate::cholesky::etree::{is_etree, fill_walk};
use crate::ordering::amd::{min_degree_pick, elimination_state, pattern_adjacency};
use crate::ordering::{Reordering, rcm_permutation};
use crate::ordering::permutation::{Permutation, is_perm};
use crate::rows::{search_run, lemma_distinct_bound};
use crate::scalar::{SparseScalar, is_zero_value, subtracted_in_order};
use crate::sym::SymCsrMatrix;

verus! {

/// Buffers of the numeric and solve phases.
pub struct LdltWorkspace<T> {
    pub w: Vec<T>,
    pub active: Vec<bool>,
    pub touched: Vec<usize>,
    pub stack: Vec<usize>,
    /// Scratch vector of the solve phase.
    pub x_perm: Vec<T>,
    /// The permuted matrix in full column storage.
    pub csc: CscMatrix<T>,
}

impl<T: SparseScalar> LdltWorkspace<T> {
    /// Buffers for a system of dimension `n`.
    pub fn new(n: usize) -> (r: Self)
        ensures
            r.w@.len() == n,
            r.active@.len() == n,
            r.x_perm@.len() == n,
            ws_clean(&r),
            r.csc.wf(),
    {
        let mut w: Vec<T> = Vec::new();
        let mut active: Vec<bool> = Vec::new();
        let mut x_perm: Vec<T> = Vec::new();
        let mut t: usize = 0;
        while t < n
            invariant
                0 <= t <= n,
                w@.len() == t,
                active@.len() == t,
                x_perm@.len() == t,
                forall|i: int| 0 <= i < t ==> is_zero_value(#[trigger] w@[i]) && !active@[i],
            decreases n - t,
        {
            w.push(T::zero());
            active.push(false);
            x_perm.push(T::zero());
            t = t + 1;
        }
        let mut col_ptr: Vec<usize> = Vec::new();
        col_ptr.push(0);
        let csc = CscMatrix { values: Vec::new(), row_idx: Vec::new(), col_ptr, nrows: 0, ncols: 0 };
        let ws = LdltWorkspace { w, active, touched: Vec::new(), stack: Vec::new(), x_perm, csc };
        proof {
            assert forall|i: int| 0 <= i < ws.w@.len() implies is_zero_value(#[trigger] ws.w@[i]) by {
                assert(is_zero_value(w@[i]));
            }
            assert forall|i: int| 0 <= i < ws.w@.len() implies !#[trigger] ws.active@[i] by {
                assert(is_zero_value(w@[i]));
                assert(!active@[i]);
            }
        }
        ws
    }
}

/// Values of the LDLᵀ factor: the entries of `L` below the diagonal
/// (indexed like the symbolic row indices; the diagonal slot is unused)
/// and the pivots `D`.
pub struct NumericLdlt<T> {
    /// Entries of `L`; `l_values[col_ptr[j]]` is an unused slot.
    pub l_values: Vec<T>,
    /// Pivots `D[j, j]`.
    pub d_values: Vec<T>,
    /// Dimension of the factored system.
    pub n: usize,
}

impl<T: SparseScalar> NumericLdlt<T> {
    /// A zero-valued factor of dimension `n` with `nnz` stored entries.
    pub fn new(n: usize, nnz: usize) -> (r: Self)
        ensures
            r.n == n,
            r.l_values@.len() == nnz,
            r.d_values@.len() == n,
    {
        let mut l_values: Vec<T> = Vec::new();
        let mut t: usize = 0;
        while t < nnz
            invariant
                0 <= t <= nnz,
                l_values@.len() == t,
            decreases nnz - t,
        {
            l_values.push(T::zero());
            t = t + 1;
        }
        let mut d_values: Vec<T> = Vec::new();
        let mut t: usize = 0;
        while t < n
            invariant
                0 <= t <= n,
                d_values@.len() == t,
            decreases n - t,
        {
            d_values.push(T::zero());
            t = t + 1;
        }
        NumericLdlt { l_values, d_values, n }
    }
}

// -----------------------------------------------------------------
// What the factorization computes
// -----------------------------------------------------------------

/// `prods[t]` is `(L[j, c] * D[c]) * L[i, c]` for the update position
/// `pos[t]` of column `c`, with `scales[t] = L[j, c] * D[c]`.
pub open spec fn ldlt_products<T: SparseScalar>(
    l: Seq<T>,
    d: Seq<T>,
    pos: Seq<(int, int, int)>,
    scales: Seq<T>,
    prods: Seq<T>,
) -> bool {
    &&& scales.len() == pos.len()
    &&& prods.len() == pos.len()
    &&& forall|t: int| 0 <= t < pos.len() ==> #[trigger] call_ensures(T::times, (l[pos[t].1], d[pos[t].2]), scales[t])
        && call_ensures(T::times, (scales[t], l[pos[t].0]), prods[t])
}

/// `w` is the work column of column `j` after the left-looking update: the
/// scattered column `j` of `K`, less `L[j, c] D[c] L[i, c]` in every row
/// `i` of every column `c` that updates `j`, the columns taken once each in
/// some order.
pub open spec fn ldlt_updated_column<T: SparseScalar>(
    sym: &SymbolicCholesky,
    k: &CscMatrix<T>,
    l: Seq<T>,
    d: Seq<T>,
    j: int,
    w: Seq<T>,
) -> bool {
    exists|order: Seq<usize>, w0: Seq<T>, scales: Seq<T>, prods: Seq<T>| {
        &&& update_order(sym, j, order)
        &&& scattered_column(k, j, w0)
        &&& #[trigger] ldlt_products(l, d, update_positions(sym, j, order), scales, prods)
        &&& #[trigger] subtracted_in_order(w0, w, subtractions(sym, update_positions(sym, j, order), prods))
    }
}

/// From the work column `w`, column `j` is finished: the pivot
/// `D[j] = w[j]` is not negligible, the diagonal slot of `L` holds a zero
/// value, and `L[i, j] = w[i] / D[j]` for the rows `i` below the diagonal.
pub open spec fn ldlt_finish<T: SparseScalar>(sym: &SymbolicCholesky, l: Seq<T>, d: Seq<T>, j: int, w: Seq<T>) -> bool {
    &&& d[j] == w[j]
    &&& call_ensures(T::is_negligible_pivot, (w[j],), false)
    &&& is_zero_value(l[sym.col_ptr@[j] as int])
    &&& forall|p: int| sym.col_ptr@[j] < p < sym.col_ptr@[j + 1] ==>
        #[trigger] call_ensures(T::divided_by, (w[sym.row_idx@[p] as int], d[j]), l[p])
}

/// Column `j` of `(l, d)` is the LDLᵀ factor column computed from `K` and
/// the columns before it.
pub open spec fn ldlt_column<T: SparseScalar>(sym: &SymbolicCholesky, k: &CscMatrix<T>, l: Seq<T>, d: Seq<T>, j: int) -> bool {
    exists|w: Seq<T>| #[trigger] ldlt_updated_column(sym, k, l, d, j, w) && ldlt_finish(sym, l, d, j, w)
}

/// `(l, d)` is the LDLᵀ factor of `K` on the pattern of `sym`.
pub open spec fn ldlt_factor<T: SparseScalar>(sym: &SymbolicCholesky, k: &CscMatrix<T>, l: Seq<T>, d: Seq<T>) -> bool {
    &&& l.len() == sym.row_idx@.len()
    &&& d.len() == sym.n
    &&& forall|j: int| 0 <= j < sym.n ==> #[trigger] ldlt_column(sym, k, l, d, j)
}

/// The pivot of column `j`, computed from `K` and the columns before it,
/// is `value` and is negligible.
pub open spec fn ldlt_pivot_fails<T: SparseScalar>(
    sym: &SymbolicCholesky,
    k: &CscMatrix<T>,
    l: Seq<T>,
    d: Seq<T>,
    j: int,
    value: T,
) -> bool {
    exists|w: Seq<T>| #[trigger] ldlt_updated_column(sym, k, l, d, j, w) && w[j] == value
        && call_ensures(T::is_negligible_pivot, (value,), true)
}

/// The factorization stops at column `j` with pivot `value`: the columns
/// before `j` are factor columns of `K`, and the pivot of column `j`
/// computed from them is negligible.
pub open spec fn ldlt_fails_at<T: SparseScalar>(sym: &SymbolicCholesky, k: &CscMatrix<T>, j: int, value: T) -> bool {
    exists|l: Seq<T>, d: Seq<T>| {
        &&& l.len() == sym.row_idx@.len()
        &&& d.len() == sym.n
        &&& forall|q: int| 0 <= q < j ==> #[trigger] ldlt_column(sym, k, l, d, q)
        &&& #[trigger] ldlt_pivot_fails(sym, k, l, d, j, value)
    }
}

/// The update of column `j` only reads the columns before it.
pub proof fn lemma_ldlt_updated_frame<T: SparseScalar>(
    sym: &SymbolicCholesky,
    k: &CscMatrix<T>,
    l: Seq<T>,
    d: Seq<T>,
    l2: Seq<T>,
    d2: Seq<T>,
    j: int,
    w: Seq<T>,
)
    requires
        sym.wf(),
        0 <= j < sym.n,
        ldlt_updated_column(sym, k, l, d, j, w),
        forall|p: int| 0 <= p < sym.col_ptr@[j] ==> l2[p] == l[p],
        forall|q: int| 0 <= q < j ==> d2[q] == d[q],
    ensures
        ldlt_updated_column(sym, k, l2, d2, j, w),
{
    let (order, w0, scales, prods) = choose|order: Seq<usize>, w0: Seq<T>, scales: Seq<T>, prods: Seq<T>| {
        &&& update_order(sym, j, order)
        &&& scattered_column(k, j, w0)
        &&& #[trigger] ldlt_products(l, d, update_positions(sym, j, order), scales, prods)
        &&& #[trigger] subtracted_in_order(w0, w, subtractions(sym, update_positions(sym, j, order), prods))
    };
    assert forall|x: int| 0 <= x < order.len() implies #[trigger] updates_column(sym, j, order[x] as int) by {
        assert(order.contains(order[x]));
    }
    lemma_update_positions_bounds(sym, j, order);
    let pos = update_positions(sym, j, order);
    assert forall|t: int| 0 <= t < pos.len() implies #[trigger] call_ensures(T::times, (l2[pos[t].1], d2[pos[t].2]), scales[t])
        && call_ensures(T::times, (scales[t], l2[pos[t].0]), prods[t]) by {
        let p = pos[t];
        assert(0 <= p.1 <= p.0 < sym.col_ptr@[j]);
        assert(0 <= p.2 < j);
        assert(call_ensures(T::times, (l[pos[t].1], d[pos[t].2]), scales[t]));
    }
    assert(ldlt_products(l2, d2, update_positions(sym, j, order), scales, prods));
    assert(subtracted_in_order(w0, w, subtractions(sym, update_positions(sym, j, order), prods)));
}

/// A finished column stays finished when later columns change.
pub proof fn lemma_ldlt_column_frame<T: SparseScalar>(
    sym: &SymbolicCholesky,
    k: &CscMatrix<T>,
    l: Seq<T>,
    d: Seq<T>,
    l2: Seq<T>,
    d2: Seq<T>,
    j: int,
)
    requires
        sym.wf(),
        0 <= j < sym.n,
        ldlt_column(sym, k, l, d, j),
        forall|p: int| 0 <= p < sym.col_ptr@[j + 1] ==> l2[p] == l[p],
        forall|q: int| 0 <= q <= j ==> d2[q] == d[q],
    ensures
        ldlt_column(sym, k, l2, d2, j),
{
    let w = choose|w: Seq<T>| #[trigger] ldlt_updated_column(sym, k, l, d, j, w) && ldlt_finish(sym, l, d, j, w);
    assert(sym.col_ptr@[j] <= sym.col_ptr@[j + 1]);
    assert(sym.col(j).len() >= 1);
    lemma_ldlt_updated_frame(sym, k, l, d, l2, d2, j, w);
    assert(ldlt_finish(sym, l2, d2, j, w));
}

/// The work buffers hold zero values and no row is marked.
pub open spec fn ws_clean<T: SparseScalar>(ws: &LdltWorkspace<T>) -> bool {
    &&& ws.active@.len() == ws.w@.len()
    &&& forall|i: int| 0 <= i < ws.w@.len() ==> is_zero_value(#[trigger] ws.w@[i])
    &&& forall|i: int| 0 <= i < ws.w@.len() ==> !#[trigger] ws.active@[i]
}

/// Compute the LDLᵀ factor of the full matrix held in the workspace, on
/// the pattern of `sym`: left-looking like the Cholesky factorization,
/// with `w[i] -= L[j, c] * D[c] * L[i, c]`, the pivot `D[j] = w[j]` (any
/// sign) and `L[i, j] = w[i] / D[j]`.
///
/// Error: `NotPositiveDefinite` for the first pivot that the scalar type
/// finds negligible (a singular matrix), and that pivot.
#[verifier::spinoff_prover]
pub fn ldlt_factorize<T: SparseScalar>(sym: &SymbolicCholesky, num: &mut NumericLdlt<T>, ws: &mut LdltWorkspace<T>) -> (r: Result<(), SolverError<T>>)
    requires
        sym.wf(),
        old(num).n == sym.n,
        old(num).l_values@.len() == sym.row_idx@.len(),
        old(num).d_values@.len() == sym.n,
        old(ws).w@.len() == sym.n,
        ws_clean(old(ws)),
        old(ws).csc.wf(),
        old(ws).csc.nrows == sym.n,
        old(ws).csc.ncols == sym.n,
    ensures
        final(num).n == old(num).n,
        final(num).l_values@.len() == old(num).l_values@.len(),
        final(num).d_values@.len() == old(num).d_values@.len(),
        final(ws).w@.len() == old(ws).w@.len(),
        ws_clean(final(ws)),
        final(ws).x_perm@ == old(ws).x_perm@,
        final(ws).csc == old(ws).csc,
        r is Ok ==> ldlt_factor(sym, &old(ws).csc, final(num).l_values@, final(num).d_values@),
        r matches Err(e) ==> (e matches SolverError::NotPositiveDefinite { index, value }
            && index < sym.n && ldlt_fails_at(sym, &old(ws).csc, index as int, value)),
{
    let n = sym.n;
    let nnz = sym.row_idx.len();
    proof {
        sym.lemma_lines();
        ws.csc.lemma_lines();
    }
    let ghost cp = sym.col_ptr@;
    let ghost ri = sym.row_idx@;
    let ghost k = ws.csc;
    let ghost kcp = ws.csc.col_ptr@;
    let ghost kri = ws.csc.row_idx@;
    // start from a zero factor
    let mut t: usize = 0;
    while t < nnz
        invariant
            0 <= t <= nnz,
            num.l_values@.len() == nnz,
            num.n == n,
            n == sym.n,
            num.d_values@.len() == n,
            forall|p: int| 0 <= p < t ==> is_zero_value(#[trigger] num.l_values@[p]),
        decreases nnz - t,
    {
        num.l_values.set(t, T::zero());
        t = t + 1;
    }
    let mut j: usize = 0;
    while j < n
        invariant
            n == sym.n,
            sym.wf(),
            cp == sym.col_ptr@,
            ri == sym.row_idx@,
            k == old(ws).csc,
            ws.csc == k,
            k.wf(),
            k.nrows == n,
            k.ncols == n,
            kcp == k.col_ptr@,
            kri == k.row_idx@,
            lines_ok(cp, ri, n as int, n as int),
            lines_ok(kcp, kri, n as int, n as int),
            nnz == ri.len(),
            old(num).n == n,
            old(num).l_values@.len() == nnz,
            old(num).d_values@.len() == n,
            old(ws).w@.len() == n,
            num.n == n,
            num.l_values@.len() == nnz,
            num.d_values@.len() == n,
            ws.w@.len() == n,
            ws.active@.len() == n,
            ws.x_perm@ == old(ws).x_perm@,
            0 <= j <= n,
            ws_clean(ws),
            forall|q: int| 0 <= q < j ==> #[trigger] ldlt_column(sym, &k, num.l_values@, num.d_values@, q),
            forall|p: int| 0 <= p < nnz && p >= cp[j as int] ==> is_zero_value(#[trigger] num.l_values@[p]),
        decreases n - j,
    {
        proof {
            let wc = ws.w@;
            let ac = ws.active@;
            assert(ws_clean(ws));
        }
        ws.touched.clear();
        proof {
            lemma_line_bounds(kcp, kri, n as int, n as int, j as int);
            assert forall|i: int| 0 <= i < n implies (#[trigger] ws.active@[i] <==> ws.touched@.contains(i as usize)) by {
                assert(!ws.active@[i]);
            }
        }
        let k_start = ws.csc.col_ptr[j];
        let k_end = ws.csc.col_ptr[j + 1];
        let mut idx = k_start;
        while idx < k_end
            invariant
                n == sym.n,
                k == old(ws).csc,
                ws.csc == k,
                k.wf(),
                k.nrows == n,
                k.ncols == n,
                kcp == k.col_ptr@,
                kri == k.row_idx@,
                lines_ok(kcp, kri, n as int, n as int),
                ws.x_perm@ == old(ws).x_perm@,
                0 <= j < n,
                k_start == kcp[j as int],
                k_end == kcp[j + 1],
                k_end <= kri.len(),
                k_start <= idx <= k_end,
                ws.w@.len() == n,
                ws.active@.len() == n,
                forall|i: int| 0 <= i < n ==> (#[trigger] ws.active@[i] <==> ws.touched@.contains(i as usize)),
                forall|x: int| 0 <= x < ws.touched@.len() ==> #[trigger] ws.touched@[x] < n,
                forall|i: int| 0 <= i < n && !ws.active@[i] ==> is_zero_value(#[trigger] ws.w@[i]),
                forall|i: int| 0 <= i < n && j <= i && k.stored(i, j as int) && line_slot(kcp, kri, j as int, i) < idx
                    ==> #[trigger] ws.w@[i] == k.value_at(i, j as int),
                forall|i: int| 0 <= i < n && !(j <= i && k.stored(i, j as int) && line_slot(kcp, kri, j as int, i) < idx)
                    ==> is_zero_value(#[trigger] ws.w@[i]),
            decreases k_end - idx,
        {
            let row = ws.csc.row_idx[idx];
            proof {
                assert(is_line_slot(kcp, kri, j as int, row as int, idx as int));
                lemma_line_slot_is(kcp, kri, n as int, n as int, j as int, row as int, idx as int);
                assert(row < n);
                assert forall|i: int| 0 <= i < n && i != row && k.stored(i, j as int) implies
                    line_slot(kcp, kri, j as int, i) != idx by {
                    if line_slot(kcp, kri, j as int, i) == idx {
                        assert(is_line_slot(kcp, kri, j as int, i, line_slot(kcp, kri, j as int, i)));
                    }
                }
            }
            let ghost tb = ws.touched@;
            if row >= j {
                let v = ws.csc.values[idx];
                ws.w.set(row, v);
                if !ws.active[row] {
                    ws.active.set(row, true);
                    ws.touched.push(row);
                }
            }
            proof {
                assert forall|i: int| 0 <= i < n implies (#[trigger] ws.active@[i] <==> ws.touched@.contains(i as usize)) by {
                    if ws.touched@ != tb {
                        crate::rows::lemma_push_contains(tb, row, i as usize);
                    }
                }
            }
            idx = idx + 1;
        }
        let ghost w0 = ws.w@;
        proof {
            assert(scattered_column(&k, j as int, w0)) by {
                assert forall|i: int| 0 <= i < n && j <= i && k.stored(i, j as int) implies
                    line_slot(kcp, kri, j as int, i) < k_end by {
                    let s = line_slot(kcp, kri, j as int, i);
                    assert(is_line_slot(kcp, kri, j as int, i, s));
                }
            }
        }
        // left-looking update over the descendants of j
        let ghost a0 = ws.active@;
        let ghost t0 = ws.touched@;
        ws.stack.clear();
        let ghost mut done: Seq<usize> = Seq::empty();
        let ghost mut order: Seq<usize> = Seq::empty();
        let ghost mut scales: Seq<T> = Seq::empty();
        let ghost mut prods: Seq<T> = Seq::empty();
        let nch = sym.children[j].len();
        let mut ci: usize = 0;
        while ci < nch
            invariant
                n == sym.n,
                sym.wf(),
                0 <= j < n,
                nch == sym.children@[j as int]@.len(),
                0 <= ci <= nch,
                ws.stack@ == sym.children@[j as int]@.take(ci as int),
                done == Seq::<usize>::empty(),
                dfs_ok(sym, j as int, ws.stack@, done),
                ws.w@ == w0,
                ws.active@ == a0,
                ws.touched@ == t0,
                ws.csc == k,
                ws.x_perm@ == old(ws).x_perm@,
            decreases nch - ci,
        {
            let c = sym.children[j][ci];
            proof {
                let kids = sym.children@[j as int]@;
                assert(kids.contains(c));
                assert(sym.parent@[c as int] == j);
                assert(sym.parent@[c as int] == n || (c < sym.parent@[c as int] < n));
                assert(!ws.stack@.contains(c)) by {
                    if ws.stack@.contains(c) {
                        let x = choose|x: int| 0 <= x < ws.stack@.len() && ws.stack@[x] == c;
                        assert(kids[x] < kids[ci as int]);
                    }
                }
            }
            let ghost s0 = ws.stack@;
            ws.stack.push(c);
            proof {
                assert(ws.stack@ =~= sym.children@[j as int]@.take(ci + 1));
                assert forall|a: int, b: int| 0 <= a < ws.stack@.len() && 0 <= b < ws.stack@.len() && a != b implies ws.stack@[a] != ws.stack@[b] by {
                    if a == s0.len() {
                        assert(s0.contains(ws.stack@[b]));
                    } else if b == s0.len() {
                        assert(s0.contains(ws.stack@[a]));
                    } else {
                        assert(ws.stack@[a] == s0[a] && ws.stack@[b] == s0[b]);
                    }
                }
                assert forall|x: int| 0 <= x < ws.stack@.len() implies #[trigger] ws.stack@[x] < j && !done.contains(ws.stack@[x]) by {
                    if x < s0.len() {
                        assert(ws.stack@[x] == s0[x]);
                    }
                }
                assert forall|x: int| 0 <= x < ws.stack@.len() implies sym.parent@[#[trigger] ws.stack@[x] as int] == j
                    || done.contains(sym.parent@[ws.stack@[x] as int]) by {
                    if x < s0.len() {
                        assert(ws.stack@[x] == s0[x]);
                    }
                }
            }
            ci = ci + 1;
        }
        proof {
            let kids = sym.children@[j as int]@;
            assert(ws.stack@ =~= kids);
            assert forall|c: usize| #[trigger] updates_column(sym, j as int, c as int) && !order.contains(c) implies (ws.stack@.contains(c) || (
                sym.parent@[c as int] != j && updates_column(sym, j as int, sym.parent@[c as int] as int) && !order.contains(
                    sym.parent@[c as int],
                ))) by {
                if sym.parent@[c as int] == j {
                    assert(c < n);
                    assert(kids.contains(c));
                }
            }
            assert forall|x: int| 0 <= x < ws.stack@.len() implies sym.parent@[#[trigger] ws.stack@[x] as int] == j
                || order.contains(sym.parent@[ws.stack@[x] as int]) by {
                assert(kids.contains(ws.stack@[x]));
            }
            crate::scalar::lemma_subtracted_none(w0);
            assert(update_positions(sym, j as int, order) =~= Seq::<(int, int, int)>::empty());
            assert(subtractions(sym, update_positions(sym, j as int, order), prods) =~= Seq::<(int, T)>::empty());
        }
        while ws.stack.len() > 0
            invariant
                n == sym.n,
                sym.wf(),
                k == old(ws).csc,
                ws.csc == k,
                k.wf(),
                k.nrows == n,
                k.ncols == n,
                cp == sym.col_ptr@,
                ri == sym.row_idx@,
                lines_ok(cp, ri, n as int, n as int),
                nnz == ri.len(),
                num.n == n,
                num.l_values@.len() == nnz,
                num.d_values@.len() == n,
                ws.w@.len() == n,
                ws.active@.len() == n,
                ws.x_perm@ == old(ws).x_perm@,
                0 <= j < n,
                dfs_ok(sym, j as int, ws.stack@, done),
                forall|c: usize| #[trigger] order.contains(c) ==> done.contains(c),
                order.no_duplicates(),
                forall|x: int| 0 <= x < order.len() ==> #[trigger] updates_column(sym, j as int, order[x] as int),
                forall|x: int| 0 <= x < ws.stack@.len() ==> sym.parent@[#[trigger] ws.stack@[x] as int] == j
                    || order.contains(sym.parent@[ws.stack@[x] as int]),
                pending_ok(sym, j as int, ws.stack@, order),
                scattered_column(&k, j as int, w0),
                ldlt_products(num.l_values@, num.d_values@, update_positions(sym, j as int, order), scales, prods),
                subtracted_in_order(w0, ws.w@, subtractions(sym, update_positions(sym, j as int, order), prods)),
                forall|i: int| 0 <= i < n ==> (#[trigger] ws.active@[i] <==> ws.touched@.contains(i as usize)),
                forall|x: int| 0 <= x < ws.touched@.len() ==> #[trigger] ws.touched@[x] < n,
                forall|i: int| 0 <= i < n && !ws.active@[i] ==> is_zero_value(#[trigger] ws.w@[i]),
            decreases j - done.len(),
        {
            let ghost s0 = ws.stack@;
            let ghost done0 = done;
            let c = match ws.stack.pop() {
                Some(c) => c,
                None => {
                    proof {
                        assert(false);
                    }
                    0
                },
            };
            proof {
                assert(s0.last() == c);
                assert(ws.stack@ == s0.drop_last());
                assert(s0 =~= ws.stack@.push(c));
                lemma_dfs_pop(sym, j as int, s0, done0);
                done = done0.push(c);
                lemma_distinct_bound(done, j as int);
                assert(sym.parent@[s0[s0.len() - 1] as int] == j || order.contains(sym.parent@[s0[s0.len() - 1] as int]));
                assert forall|x: int| 0 <= x < ws.stack@.len() implies sym.parent@[#[trigger] ws.stack@[x] as int] == j
                    || order.contains(sym.parent@[ws.stack@[x] as int]) by {
                    assert(ws.stack@[x] == s0[x]);
                }
                assert(!order.contains(c)) by {
                    if order.contains(c) {
                        assert(done0.contains(c));
                    }
                }
            }
            assert(c < n);
            proof {
                lemma_line_bounds(cp, ri, n as int, n as int, c as int);
                assert(crate::compressed::line_sorted(cp, ri, c as int));
            }
            let col_start = sym.col_ptr[c];
            let col_end = sym.col_ptr[c + 1];
            match search_run(&sym.row_idx, col_start, col_end, j) {
                Ok(pos_j) => {
                    proof {
                        let col = sym.col(c as int);
                        assert(col[pos_j - col_start] == j);
                        assert(col.contains(j as usize));
                        lemma_pop_updates(sym, j as int, order, c);
                        assert(is_line_slot(cp, ri, c as int, j as int, pos_j as int));
                        lemma_line_slot_is(cp, ri, n as int, n as int, c as int, j as int, pos_j as int);
                        lemma_update_positions_push(sym, j as int, order, c);
                        lemma_block_bounds(sym, c as int, j as int);
                    }
                    let ghost pos_old = update_positions(sym, j as int, order);
                    let ghost block = update_block(sym, c as int, j as int);
                    let ljc = num.l_values[pos_j];
                    let dc = num.d_values[c];
                    let ghost sb = ws.stack@;
                    let mut pos = pos_j;
                    while pos < col_end
                        invariant
                            ws.stack@ == sb,
                            n == sym.n,
                            sym.wf(),
                            cp == sym.col_ptr@,
                            ri == sym.row_idx@,
                            lines_ok(cp, ri, n as int, n as int),
                            c < n,
                            col_start == cp[c as int],
                            col_end == cp[c + 1],
                            col_end <= ri.len(),
                            pos_j == line_slot(cp, ri, c as int, j as int),
                            col_start <= pos_j <= pos <= col_end,
                            ljc == num.l_values@[pos_j as int],
                            dc == num.d_values@[c as int],
                            block == update_block(sym, c as int, j as int),
                            block.len() == col_end - pos_j,
                            num.l_values@.len() == ri.len(),
                            num.d_values@.len() == n,
                            ws.w@.len() == n,
                            ws.active@.len() == n,
                            ws.csc == k,
                            ws.x_perm@ == old(ws).x_perm@,
                            ldlt_products(num.l_values@, num.d_values@, pos_old + block.take(pos - pos_j), scales, prods),
                            subtracted_in_order(w0, ws.w@, subtractions(sym, pos_old + block.take(pos - pos_j), prods)),
                            forall|i: int| 0 <= i < n ==> (#[trigger] ws.active@[i] <==> ws.touched@.contains(i as usize)),
                            forall|x: int| 0 <= x < ws.touched@.len() ==> #[trigger] ws.touched@[x] < n,
                            forall|i: int| 0 <= i < n && !ws.active@[i] ==> is_zero_value(#[trigger] ws.w@[i]),
                        decreases col_end - pos,
                    {
                        let row = sym.row_idx[pos];
                        proof {
                            assert(row < n);
                        }
                        let scale = ljc.times(dc);
                        let prod = scale.times(num.l_values[pos]);
                        let ghost wb = ws.w@;
                        let ghost pb = pos_old + block.take(pos - pos_j);
                        let nv = ws.w[row].minus(prod);
                        let ghost tb = ws.touched@;
                        ws.w.set(row, nv);
                        if !ws.active[row] {
                            ws.active.set(row, true);
                            ws.touched.push(row);
                        }
                        proof {
                            let m = (pos - pos_j) as int;
                            assert(block[m] == (pos as int, pos_j as int, c as int));
                            assert(pos_old + block.take(m + 1) =~= pb.push(block[m]));
                            crate::scalar::lemma_subtracted_len(w0, wb, subtractions(sym, pb, prods));
                            crate::scalar::lemma_subtracted_step(w0, wb, subtractions(sym, pb, prods), row as int, prod, nv);
                            lemma_subtractions_push(sym, pb, prods, block[m], prod);
                            let sc0 = scales;
                            let pr0 = prods;
                            scales = scales.push(scale);
                            prods = prods.push(prod);
                            let pn = pb.push(block[m]);
                            assert forall|t: int| 0 <= t < pn.len() implies #[trigger] call_ensures(T::times, (num.l_values@[pn[t].1], num.d_values@[pn[t].2]), scales[t])
                                && call_ensures(T::times, (scales[t], num.l_values@[pn[t].0]), prods[t]) by {
                                if t < pb.len() {
                                    assert(pn[t] == pb[t]);
                                    assert(scales[t] == sc0[t] && prods[t] == pr0[t]);
                                }
                            }
                            assert forall|i: int| 0 <= i < n implies (#[trigger] ws.active@[i] <==> ws.touched@.contains(i as usize)) by {
                                if ws.touched@ != tb {
                                    crate::rows::lemma_push_contains(tb, row, i as usize);
                                }
                            }
                        }
                        pos = pos + 1;
                    }
                    proof {
                        assert(block.take(col_end - pos_j) =~= block);
                        let o0 = order;
                        order = o0.push(c);
                        assert forall|x: int| 0 <= x < order.len() implies #[trigger] updates_column(sym, j as int, order[x] as int) by {
                            if x < o0.len() {
                                assert(order[x] == o0[x]);
                            }
                        }
                        assert(order.no_duplicates()) by {
                            assert forall|a: int, b: int| 0 <= a < b < order.len() implies order[a] != order[b] by {
                                assert(order[a] == o0[a]);
                                if b == o0.len() {
                                    assert(o0.contains(o0[a]));
                                } else {
                                    assert(order[b] == o0[b]);
                                }
                            }
                        }
                        assert forall|x: usize| #[trigger] order.contains(x) implies done.contains(x) by {
                            crate::rows::lemma_push_contains(o0, c, x);
                            crate::rows::lemma_push_contains(done0, c, x);
                            if o0.contains(x) {
                                assert(done0.contains(x));
                            }
                        }
                        lemma_pending_found(sym, j as int, ws.stack@, o0, c);
                        assert forall|x: int| 0 <= x < ws.stack@.len() implies sym.parent@[#[trigger] ws.stack@[x] as int] == j
                            || order.contains(sym.parent@[ws.stack@[x] as int]) by {
                            crate::rows::lemma_push_contains(o0, c, sym.parent@[ws.stack@[x] as int]);
                        }
                    }
                    let kids_len = sym.children[c].len();
                    let ghost base = ws.stack@;
                    let ghost wk = ws.w@;
                    let ghost ak = ws.active@;
                    let ghost tk = ws.touched@;
                    let mut ci: usize = 0;
                    while ci < kids_len
                        invariant
                            n == sym.n,
                            sym.wf(),
                            0 <= j < n,
                            c < j,
                            kids_len == sym.children@[c as int]@.len(),
                            0 <= ci <= kids_len,
                            done == done0.push(c),
                            !done0.contains(c),
                            order.contains(c),
                            ws.stack@ == base + sym.children@[c as int]@.take(ci as int),
                            dfs_ok(sym, j as int, ws.stack@, done),
                            forall|x: int| 0 <= x < base.len() ==> sym.parent@[#[trigger] base[x] as int] == j
                                || done0.contains(sym.parent@[base[x] as int]),
                            forall|x: int| 0 <= x < done0.len() ==> sym.parent@[#[trigger] done0[x] as int] == j
                                || done0.contains(sym.parent@[done0[x] as int]),
                            forall|x: int| 0 <= x < base.len() ==> sym.parent@[#[trigger] base[x] as int] == j
                                || order.contains(sym.parent@[base[x] as int]),
                            forall|x: int| 0 <= x < ws.stack@.len() ==> sym.parent@[#[trigger] ws.stack@[x] as int] == j
                                || order.contains(sym.parent@[ws.stack@[x] as int]),
                            ws.w@ == wk,
                            ws.active@ == ak,
                            ws.touched@ == tk,
                            ws.csc == k,
                            ws.x_perm@ == old(ws).x_perm@,
                        decreases kids_len - ci,
                    {
                        let d = sym.children[c][ci];
                        proof {
                            lemma_dfs_push(sym, j as int, base, done0, c, ci as int);
                        }
                        let ghost s1 = ws.stack@;
                        ws.stack.push(d);
                        proof {
                            assert(ws.stack@ =~= base + sym.children@[c as int]@.take(ci + 1));
                            let kids = sym.children@[c as int]@;
                            assert(kids.contains(d));
                            assert(sym.parent@[d as int] == c);
                            assert forall|x: int| 0 <= x < ws.stack@.len() implies sym.parent@[#[trigger] ws.stack@[x] as int] == j
                                || order.contains(sym.parent@[ws.stack@[x] as int]) by {
                                if x < s1.len() {
                                    assert(ws.stack@[x] == s1[x]);
                                }
                            }
                        }
                        ci = ci + 1;
                    }
                    proof {
                        assert(sym.children@[c as int]@.take(kids_len as int) =~= sym.children@[c as int]@);
                    }
                },
                Err(_) => {
                    proof {
                        assert(!sym.col(c as int).contains(j as usize)) by {
                            let col = sym.col(c as int);
                            if col.contains(j as usize) {
                                let q = choose|q: int| 0 <= q < col.len() && col[q] == j as usize;
                                assert(ri[col_start + q] == j);
                            }
                        }
                        assert(!updates_column(sym, j as int, c as int));
                        lemma_pending_skip(sym, j as int, ws.stack@, order, c);
                        assert forall|x: usize| #[trigger] order.contains(x) implies done.contains(x) by {
                            crate::rows::lemma_push_contains(done0, c, x);
                        }
                    }
                },
            }
        }
        let ghost w1 = ws.w@;
        proof {
            assert(ws.stack@ =~= Seq::<usize>::empty());
            assert forall|c: usize| #[trigger] order.contains(c) <==> updates_column(sym, j as int, c as int) by {
                if updates_column(sym, j as int, c as int) {
                    lemma_pending_done(sym, j as int, order, c);
                }
                if order.contains(c) {
                    let x = choose|x: int| 0 <= x < order.len() && order[x] == c;
                    assert(updates_column(sym, j as int, order[x] as int));
                }
            }
            assert(update_order(sym, j as int, order));
            assert(ldlt_updated_column(sym, &k, num.l_values@, num.d_values@, j as int, w1));
        }
        // pivot: any sign, but not negligible
        let dj = ws.w[j];
        let singular = dj.is_negligible_pivot();
        let tl = ws.touched.len();
        proof {
            assert(ws.touched@.subrange(0, tl as int) =~= ws.touched@);
        }
        if singular {
            proof {
                let ls = num.l_values@;
                let ds = num.d_values@;
                assert(ldlt_pivot_fails(sym, &k, ls, ds, j as int, dj));
                assert(forall|q: int| 0 <= q < j ==> #[trigger] ldlt_column(sym, &k, ls, ds, q));
                assert(ldlt_fails_at(sym, &k, j as int, dj));
            }
            reset_work(ws, n);
            return Err(SolverError::NotPositiveDefinite { index: j, value: dj });
        }
        let ghost l0 = num.l_values@;
        let ghost d0 = num.d_values@;
        num.d_values.set(j, dj);
        proof {
            lemma_line_bounds(cp, ri, n as int, n as int, j as int);
            assert(sym.col(j as int).len() >= 1);
        }
        let l_col_start = sym.col_ptr[j];
        let l_col_end = sym.col_ptr[j + 1];
        let mut pos = l_col_start + 1;
        while pos < l_col_end
            invariant
                n == sym.n,
                sym.wf(),
                cp == sym.col_ptr@,
                ri == sym.row_idx@,
                0 <= j < n,
                l_col_start == cp[j as int],
                l_col_end == cp[j + 1],
                l_col_end <= ri.len(),
                l_col_start < pos <= l_col_end,
                num.l_values@.len() == ri.len(),
                num.d_values@.len() == n,
                num.n == n,
                num.d_values@ == d0.update(j as int, dj),
                ws.w@ == w1,
                w1.len() == n,
                forall|p: int| 0 <= p < num.l_values@.len() && (p < l_col_start + 1 || p >= l_col_end) ==> #[trigger] num.l_values@[p] == l0[p],
                forall|p: int| l_col_start < p < pos ==> #[trigger] call_ensures(T::divided_by, (w1[ri[p] as int], dj), num.l_values@[p]),
            decreases l_col_end - pos,
        {
            let row = sym.row_idx[pos];
            proof {
                assert(sym.col(j as int)[pos - l_col_start] == row);
            }
            let v = ws.w[row].divided_by(dj);
            num.l_values.set(pos, v);
            pos = pos + 1;
        }
        proof {
            let ls = num.l_values@;
            let ds = num.d_values@;
            assert(is_zero_value(l0[l_col_start as int]));
            lemma_ldlt_updated_frame(sym, &k, l0, d0, ls, ds, j as int, w1);
            assert(ldlt_finish(sym, ls, ds, j as int, w1));
            assert(ldlt_column(sym, &k, ls, ds, j as int));
            assert forall|q: int| 0 <= q < j + 1 implies #[trigger] ldlt_column(sym, &k, ls, ds, q) by {
                if q < j {
                    assert(cp[q + 1] <= cp[j as int]);
                    lemma_ldlt_column_frame(sym, &k, l0, d0, ls, ds, q);
                }
            }
            assert forall|p: int| 0 <= p < nnz && p >= cp[j + 1] implies is_zero_value(#[trigger] num.l_values@[p]) by {
                assert(num.l_values@[p] == l0[p]);
                assert(cp[j as int] <= cp[j + 1]);
            }
        }
        reset_work(ws, n);
        j = j + 1;
    }
    Ok(())
}

/// Clear the rows marked in the work column: every row back to a zero
/// value and unmarked.
fn reset_work<T: SparseScalar>(ws: &mut LdltWorkspace<T>, n: usize)
    requires
        old(ws).w@.len() == n,
        old(ws).active@.len() == n,
        forall|x: int| 0 <= x < old(ws).touched@.len() ==> #[trigger] old(ws).touched@[x] < n,
        forall|i: int| 0 <= i < n && #[trigger] old(ws).active@[i] ==> old(ws).touched@.contains(i as usize),
        forall|i: int| 0 <= i < n && !old(ws).active@[i] ==> is_zero_value(#[trigger] old(ws).w@[i]),
    ensures
        final(ws).w@.len() == n,
        final(ws).active@.len() == n,
        ws_clean(final(ws)),
        final(ws).csc == old(ws).csc,
        final(ws).x_perm@ == old(ws).x_perm@,
        final(ws).touched@ == old(ws).touched@,
{
    let tl = ws.touched.len();
    proof {
        assert(ws.touched@.subrange(0, tl as int) =~= ws.touched@);
    }
    let mut t: usize = 0;
    while t < tl
        invariant
            0 <= t <= tl,
            tl == ws.touched@.len(),
            ws.touched@ == old(ws).touched@,
            ws.w@.len() == n,
            ws.active@.len() == n,
            ws.csc == old(ws).csc,
            ws.x_perm@ == old(ws).x_perm@,
            forall|x: int| 0 <= x < ws.touched@.len() ==> #[trigger] ws.touched@[x] < n,
            forall|i: int| 0 <= i < n && #[trigger] ws.active@[i] ==> ws.touched@.subrange(t as int, tl as int).contains(i as usize),
            forall|i: int| 0 <= i < n && !ws.active@[i] ==> is_zero_value(#[trigger] ws.w@[i]),
        decreases tl - t,
    {
        let r = ws.touched[t];
        proof {
            assert forall|i: int| 0 <= i < n && i != r && #[trigger] ws.active@[i] implies ws.touched@.subrange(t + 1, tl as int).contains(i as usize) by {
                let s = ws.touched@.subrange(t as int, tl as int);
                let x = choose|x: int| 0 <= x < s.len() && s[x] == i as usize;
                assert(x != 0);
                assert(ws.touched@.subrange(t + 1, tl as int)[x - 1] == i as usize);
            }
        }
        ws.w.set(r, T::zero());
        ws.active.set(r, false);
        t = t + 1;
    }
    proof {
        assert forall|i: int| 0 <= i < n implies !#[trigger] ws.active@[i] by {
            if ws.active@[i] {
                assert(ws.touched@.subrange(tl as int, tl as int).contains(i as usize));
            }
        }
        assert forall|i: int| 0 <= i < n implies is_zero_value(#[trigger] ws.w@[i]) by {
            assert(!ws.active@[i]);
        }
    }
}

} // verus!

verus! {

/// Forward substitution with the unit `L` on the columns `0..m`.
pub open spec fn unit_forward_ops(sym: &SymbolicCholesky, m: int) -> Seq<SolveOp>
    decreases m,
{
    if m <= 0 {
        Seq::empty()
    } else {
        unit_forward_ops(sym, m - 1) + forward_below(sym, m - 1, sym.col_ptr@[m] - sym.col_ptr@[m - 1] - 1)
    }
}

/// Division of the entries `0..m` by their pivots.
pub open spec fn pivot_ops(m: int) -> Seq<SolveOp> {
    Seq::new(m as nat, |j: int| SolveOp::Divide { at: j as usize, by: j as usize })
}

/// Backward substitution with the unit `Lᵀ` on the columns `n - 1` down
/// to `m`.
pub open spec fn unit_backward_ops(sym: &SymbolicCholesky, m: int) -> Seq<SolveOp>
    decreases sym.n - m,
{
    if m >= sym.n || m < 0 {
        Seq::empty()
    } else {
        unit_backward_ops(sym, m + 1) + backward_below(sym, m, sym.col_ptr@[m + 1] - sym.col_ptr@[m] - 1)
    }
}

/// All the steps of a solve with `L D Lᵀ`.
pub open spec fn ldlt_solve_ops(sym: &SymbolicCholesky) -> Seq<SolveOp> {
    unit_forward_ops(sym, sym.n as int) + pivot_ops(sym.n as int) + unit_backward_ops(sym, 0)
}

/// Number of entries below the diagonal in the columns `0..j`.
pub open spec fn below_before(sym: &SymbolicCholesky, j: int) -> int {
    sym.col_ptr@[j] - j
}

/// Every column holds its diagonal: `below_before` never decreases.
proof fn lemma_below_before_monotone(sym: &SymbolicCholesky, a: int, b: int)
    requires
        sym.wf(),
        0 <= a <= b <= sym.n,
    ensures
        below_before(sym, a) <= below_before(sym, b),
    decreases b - a,
{
    if a < b {
        lemma_below_before_monotone(sym, a, b - 1);
        assert(sym.col(b - 1).len() >= 1);
        assert(sym.col_ptr@[b - 1] <= sym.col_ptr@[b]);
    }
}

/// A slot below the diagonal of column `j` holds a row below `j`.
proof fn lemma_below_row(sym: &SymbolicCholesky, j: int, k: int)
    requires
        sym.wf(),
        0 <= j < sym.n,
        sym.col_ptr@[j] < k < sym.col_ptr@[j + 1],
    ensures
        j < sym.row_idx@[k] < sym.n,
{
    let c = sym.col(j);
    let s = sym.col_ptr@[j] as int;
    assert(c[0] == j);
    assert(c[k - s] == sym.row_idx@[k]);
    assert(c[0] < c[k - s]);
}

/// The forward steps of the columns `0..m`, by position.
proof fn lemma_unit_forward_at(sym: &SymbolicCholesky, m: int)
    requires
        sym.wf(),
        0 <= m <= sym.n,
    ensures
        unit_forward_ops(sym, m).len() == below_before(sym, m),
        forall|a: int| 0 <= a < below_before(sym, m) ==> {
            let op = #[trigger] unit_forward_ops(sym, m)[a];
            let j = step_source(op);
            &&& op is SubtractProduct
            &&& 0 <= j < m
            &&& below_before(sym, j) <= a < below_before(sym, j + 1)
            &&& step_slot(op) == a + j + 1
            &&& step_target(op) == sym.row_idx@[step_slot(op)]
        },
    decreases m,
{
    if m > 0 {
        let j = m - 1;
        lemma_unit_forward_at(sym, j);
        let prev = unit_forward_ops(sym, j);
        let s = sym.col_ptr@[j] as int;
        let cnt = sym.col_ptr@[m] - sym.col_ptr@[j] - 1;
        let fb = forward_below(sym, j, cnt);
        assert(sym.col(j).len() >= 1);
        assert(sym.col_ptr@[j] <= sym.col_ptr@[m]);
        assert(sym.col_ptr@[m] <= sym.col_ptr@[sym.n as int]);
        let all = unit_forward_ops(sym, m);
        assert(all == prev + fb);
        assert forall|a: int| 0 <= a < below_before(sym, m) implies {
            let op = #[trigger] all[a];
            let jj = step_source(op);
            &&& op is SubtractProduct
            &&& 0 <= jj < m
            &&& below_before(sym, jj) <= a < below_before(sym, jj + 1)
            &&& step_slot(op) == a + jj + 1
            &&& step_target(op) == sym.row_idx@[step_slot(op)]
        } by {
            if a >= below_before(sym, j) {
                let t = a - below_before(sym, j);
                assert(all[a] == fb[t]);
            } else {
                assert(all[a] == prev[a]);
            }
        }
    } else {
        assert(below_before(sym, 0) == 0);
    }
}

/// The backward steps of the columns `n - 1` down to `m`, by position.
proof fn lemma_unit_backward_at(sym: &SymbolicCholesky, m: int)
    requires
        sym.wf(),
        0 <= m <= sym.n,
    ensures
        unit_backward_ops(sym, m).len() == below_before(sym, sym.n as int) - below_before(sym, m),
        forall|a: int| 0 <= a < below_before(sym, sym.n as int) - below_before(sym, m) ==> {
            let op = #[trigger] unit_backward_ops(sym, m)[a];
            let j = step_target(op);
            let first = below_before(sym, sym.n as int) - below_before(sym, j + 1);
            &&& op is SubtractProduct
            &&& m <= j < sym.n
            &&& first <= a < below_before(sym, sym.n as int) - below_before(sym, j)
            &&& step_slot(op) == sym.col_ptr@[j] + 1 + (a - first)
            &&& step_source(op) == sym.row_idx@[step_slot(op)]
        },
    decreases sym.n - m,
{
    let n = sym.n as int;
    if m < n {
        lemma_unit_backward_at(sym, m + 1);
        let prev = unit_backward_ops(sym, m + 1);
        let cnt = sym.col_ptr@[m + 1] - sym.col_ptr@[m] - 1;
        let bb = backward_below(sym, m, cnt);
        assert(sym.col(m).len() >= 1);
        assert(sym.col_ptr@[m] <= sym.col_ptr@[m + 1]);
        assert(sym.col_ptr@[m + 1] <= sym.col_ptr@[n]);
        let all = unit_backward_ops(sym, m);
        assert(all == prev + bb);
        assert forall|a: int| 0 <= a < below_before(sym, n) - below_before(sym, m) implies {
            let op = #[trigger] all[a];
            let j = step_target(op);
            let first = below_before(sym, n) - below_before(sym, j + 1);
            &&& op is SubtractProduct
            &&& m <= j < n
            &&& first <= a < below_before(sym, n) - below_before(sym, j)
            &&& step_slot(op) == sym.col_ptr@[j] + 1 + (a - first)
            &&& step_source(op) == sym.row_idx@[step_slot(op)]
        } by {
            let pl = below_before(sym, n) - below_before(sym, m + 1);
            if a >= pl {
                let t = a - pl;
                assert(all[a] == bb[t]);
            } else {
                assert(all[a] == prev[a]);
            }
        }
    }
}

/// The steps of the LDLᵀ solve, with `m` the number of entries of `L`
/// below the diagonal: first `m` forward steps, each `u[i] -= L[i][j] u[j]`
/// with `i > j` and `L[i][j]` stored in column `j`, the columns taken in
/// increasing order so that no entry changes after a step has read it;
/// then the `n` divisions `u[j] /= D[j]` in order; then `m` backward steps,
/// each `u[j] -= L[i][j] u[i]` with `i > j`, the columns taken in
/// decreasing order so that, again, no entry changes after a step has read
/// it.  This is forward substitution with the unit `L`, the pivots, and
/// backward substitution with the unit `Lᵀ`, in that order.
pub proof fn law_ldlt_solve_steps(sym: SymbolicCholesky)
    requires
        sym.wf(),
    ensures
        ({
            let ops = ldlt_solve_ops(&sym);
            let n = sym.n as int;
            let m = sym.col_ptr@[n] - n;
            &&& ops.len() == 2 * m + n
            &&& forall|a: int| 0 <= a < m ==> {
                let op = #[trigger] ops[a];
                let (i, j, k) = (step_target(op), step_source(op), step_slot(op));
                &&& op is SubtractProduct
                &&& 0 <= j < i < n
                &&& sym.col_ptr@[j] < k < sym.col_ptr@[j + 1]
                &&& sym.row_idx@[k] == i
            }
            &&& forall|a: int, b: int| 0 <= a < b < m ==> step_target(#[trigger] ops[b]) != step_source(#[trigger] ops[a])
            &&& forall|j: int| 0 <= j < n ==> #[trigger] ops[m + j] == SolveOp::Divide { at: j as usize, by: j as usize }
            &&& forall|a: int| m + n <= a < 2 * m + n ==> {
                let op = #[trigger] ops[a];
                let (j, i, k) = (step_target(op), step_source(op), step_slot(op));
                &&& op is SubtractProduct
                &&& 0 <= j < i < n
                &&& sym.col_ptr@[j] < k < sym.col_ptr@[j + 1]
                &&& sym.row_idx@[k] == i
            }
            &&& forall|a: int, b: int| m + n <= a < b < 2 * m + n ==> step_target(#[trigger] ops[b]) != step_source(#[trigger] ops[a])
        }),
{
    let n = sym.n as int;
    let m = sym.col_ptr@[n] - n;
    let fw = unit_forward_ops(&sym, n);
    let pv = pivot_ops(n);
    let bw = unit_backward_ops(&sym, 0);
    let ops = ldlt_solve_ops(&sym);
    lemma_unit_forward_at(&sym, n);
    lemma_unit_backward_at(&sym, 0);
    assert(below_before(&sym, 0) == 0);
    assert(ops == fw + pv + bw);
    assert forall|a: int| 0 <= a < m implies {
        let op = #[trigger] ops[a];
        let (i, j, k) = (step_target(op), step_source(op), step_slot(op));
        &&& op is SubtractProduct
        &&& 0 <= j < i < n
        &&& sym.col_ptr@[j] < k < sym.col_ptr@[j + 1]
        &&& sym.row_idx@[k] == i
    } by {
        assert(ops[a] == fw[a]);
        let j = step_source(fw[a]);
        lemma_below_row(&sym, j, step_slot(fw[a]));
    }
    assert forall|a: int, b: int| 0 <= a < b < m implies step_target(#[trigger] ops[b]) != step_source(#[trigger] ops[a]) by {
        assert(ops[a] == fw[a]);
        assert(ops[b] == fw[b]);
        let ja = step_source(fw[a]);
        let jb = step_source(fw[b]);
        if jb < ja {
            lemma_below_before_monotone(&sym, jb + 1, ja);
        }
        lemma_below_row(&sym, jb, step_slot(fw[b]));
    }
    assert forall|j: int| 0 <= j < n implies #[trigger] ops[m + j] == SolveOp::Divide { at: j as usize, by: j as usize } by {
        assert(ops[m + j] == pv[j]);
    }
    assert forall|a: int| m + n <= a < 2 * m + n implies {
        let op = #[trigger] ops[a];
        let (j, i, k) = (step_target(op), step_source(op), step_slot(op));
        &&& op is SubtractProduct
        &&& 0 <= j < i < n
        &&& sym.col_ptr@[j] < k < sym.col_ptr@[j + 1]
        &&& sym.row_idx@[k] == i
    } by {
        let c = a - m - n;
        assert(ops[a] == bw[c]);
        let j = step_target(bw[c]);
        lemma_below_before_monotone(&sym, j + 1, n);
        lemma_below_row(&sym, j, step_slot(bw[c]));
    }
    assert forall|a: int, b: int| m + n <= a < b < 2 * m + n implies step_target(#[trigger] ops[b]) != step_source(#[trigger] ops[a]) by {
        let ca = a - m - n;
        let cb = b - m - n;
        assert(ops[a] == bw[ca]);
        assert(ops[b] == bw[cb]);
        let ja = step_target(bw[ca]);
        let jb = step_target(bw[cb]);
        if ja < jb {
            lemma_below_before_monotone(&sym, ja + 1, jb);
        }
        lemma_below_before_monotone(&sym, ja + 1, n);
        lemma_below_row(&sym, ja, step_slot(bw[ca]));
    }
}

/// `u` is what the solve with the factor `(l, d)` computes from `f`: the
/// right-hand side permuted (`b[i] = f[p[i]]`), the three substitutions,
/// and the result `x` scattered back (`u[p[i]] = x[i]`).
pub open spec fn ldlt_solution<T: SparseScalar>(sym: &SymbolicCholesky, l: Seq<T>, d: Seq<T>, p: Seq<usize>, f: Seq<T>, u: Seq<T>) -> bool {
    exists|b: Seq<T>, x: Seq<T>, prods: Seq<T>| {
        &&& b.len() == sym.n
        &&& forall|i: int| 0 <= i < sym.n ==> #[trigger] b[i] == f[p[i] as int]
        &&& #[trigger] solved_by(l, d, b, x, ldlt_solve_ops(sym), prods)
        &&& u.len() == sym.n
        &&& forall|i: int| 0 <= i < sym.n ==> #[trigger] u[p[i] as int] == x[i]
    }
}

/// Solve `K u = f` with the LDLᵀ factor of `P K Pᵀ`: permute `f`,
/// forward substitution with the unit `L`, division by the pivots,
/// backward substitution with the unit `Lᵀ`, and scatter back through
/// `x_perm`.
///
/// Errors: `RhsSizeMismatch` if `f` (checked first) or `u` does not have
/// `n` entries; `u` is then left as it was.
pub fn ldlt_solve<T: SparseScalar>(
    sym: &SymbolicCholesky,
    num: &NumericLdlt<T>,
    perm: &Permutation,
    f: &[T],
    u: &mut [T],
    x_perm: &mut [T],
) -> (r: Result<(), SolverError<T>>)
    requires
        sym.wf(),
        num.n == sym.n,
        num.l_values@.len() == sym.row_idx@.len(),
        num.d_values@.len() == sym.n,
        perm@.len() == sym.n,
        old(x_perm)@.len() == sym.n,
    ensures
        f@.len() != num.n ==> r == Err::<(), SolverError<T>>(
            SolverError::RhsSizeMismatch { expected: num.n, got: f@.len() as usize },
        ) && final(u)@ == old(u)@,
        f@.len() == num.n && old(u)@.len() != num.n ==> r == Err::<(), SolverError<T>>(
            SolverError::RhsSizeMismatch { expected: num.n, got: old(u)@.len() as usize },
        ) && final(u)@ == old(u)@,
        f@.len() == num.n && old(u)@.len() == num.n ==> r is Ok,
        r is Ok ==> ldlt_solution(sym, num.l_values@, num.d_values@, perm@, f@, final(u)@),
        final(u)@.len() == old(u)@.len(),
        final(x_perm)@.len() == old(x_perm)@.len(),
{
    let n = num.n;
    if f.len() != n {
        return Err(SolverError::RhsSizeMismatch { expected: n, got: f.len() });
    }
    if u.len() != n {
        return Err(SolverError::RhsSizeMismatch { expected: n, got: u.len() });
    }
    proof {
        use_type_invariant(perm);
        perm.lemma_well_formed();
    }
    let ghost lv = num.l_values@;
    let ghost dv = num.d_values@;
    let ghost cp = sym.col_ptr@;
    let ghost ri = sym.row_idx@;
    let mut i: usize = 0;
    while i < n
        invariant
            n == u@.len(),
            n == f@.len(),
            n == perm@.len(),
            is_perm(perm@),
            0 <= i <= n,
            forall|k: int| 0 <= k < i ==> #[trigger] u@[k] == f@[perm@[k] as int],
        decreases n - i,
    {
        let old = perm.old_index(i);
        u[i] = f[old];
        i = i + 1;
    }
    let ghost b = u@;
    proof {
        lemma_solved_none(lv, dv, b);
    }
    let ghost mut sp: Seq<T> = Seq::empty();
    // forward substitution with the unit L
    let mut j: usize = 0;
    while j < n
        invariant
            n == sym.n,
            sym.wf(),
            cp == sym.col_ptr@,
            ri == sym.row_idx@,
            lv == num.l_values@,
            dv == num.d_values@,
            n == u@.len(),
            lv.len() == ri.len(),
            0 <= j <= n,
            solved_by(lv, dv, b, u@, unit_forward_ops(sym, j as int), sp),
        decreases n - j,
    {
        assert(cp[j as int] < cp[j + 1] <= cp[n as int]) by {
            assert(sym.col(j as int).len() >= 1);
        }
        let l_start = sym.col_ptr[j];
        let l_end = sym.col_ptr[j + 1];
        let yj = u[j];
        let ghost pre = unit_forward_ops(sym, j as int);
        proof {
            assert(pre + forward_below(sym, j as int, 0) =~= pre);
        }
        let mut pos = l_start + 1;
        while pos < l_end
            invariant
                n == sym.n,
                sym.wf(),
                cp == sym.col_ptr@,
                ri == sym.row_idx@,
                lv == num.l_values@,
                dv == num.d_values@,
                n == u@.len(),
                0 <= j < n,
                l_start == cp[j as int],
                l_end == cp[j + 1],
                l_end <= ri.len(),
                lv.len() == ri.len(),
                l_start < pos <= l_end,
                u@[j as int] == yj,
                solved_by(lv, dv, b, u@, pre + forward_below(sym, j as int, pos - l_start - 1), sp),
            decreases l_end - pos,
        {
            let row = sym.row_idx[pos];
            proof {
                let col = sym.col(j as int);
                assert(col[pos - l_start] == row);
                assert(col[0] < col[pos - l_start]);
            }
            let ghost u1 = u@;
            let prod = num.l_values[pos].times(yj);
            let nv = u[row].minus(prod);
            u[row] = nv;
            proof {
                let m = pos - l_start - 1;
                let op = SolveOp::SubtractProduct { at: row, by: pos, src: j };
                assert(solve_step(lv, dv, u1, u@, op, prod));
                lemma_solved_step(lv, dv, b, u1, pre + forward_below(sym, j as int, m), sp, op, prod, u@);
                sp = sp.push(prod);
                assert(forward_below(sym, j as int, m + 1) =~= forward_below(sym, j as int, m).push(op));
                assert(pre + forward_below(sym, j as int, m + 1) =~= (pre + forward_below(sym, j as int, m)).push(op));
            }
            pos = pos + 1;
        }
        j = j + 1;
    }
    // diagonal solve
    let ghost pre = unit_forward_ops(sym, n as int);
    proof {
        assert(pre + pivot_ops(0) =~= pre);
    }
    let mut j: usize = 0;
    while j < n
        invariant
            n == u@.len(),
            n == num.d_values@.len(),
            lv == num.l_values@,
            dv == num.d_values@,
            0 <= j <= n,
            solved_by(lv, dv, b, u@, pre + pivot_ops(j as int), sp),
        decreases n - j,
    {
        let ghost u1 = u@;
        let zj = u[j].divided_by(num.d_values[j]);
        u[j] = zj;
        proof {
            let op = SolveOp::Divide { at: j, by: j };
            assert(solve_step(lv, dv, u1, u@, op, zj));
            lemma_solved_step(lv, dv, b, u1, pre + pivot_ops(j as int), sp, op, zj, u@);
            sp = sp.push(zj);
            assert(pivot_ops(j + 1) =~= pivot_ops(j as int).push(op));
            assert(pre + pivot_ops(j + 1) =~= (pre + pivot_ops(j as int)).push(op));
        }
        j = j + 1;
    }
    // backward substitution with the unit Lᵀ
    let ghost pre2 = pre + pivot_ops(n as int);
    proof {
        assert(unit_backward_ops(sym, n as int) =~= Seq::<SolveOp>::empty());
        assert(pre2 + unit_backward_ops(sym, n as int) =~= pre2);
    }
    let mut jj: usize = n;
    while jj > 0
        invariant
            n == sym.n,
            sym.wf(),
            cp == sym.col_ptr@,
            ri == sym.row_idx@,
            lv == num.l_values@,
            dv == num.d_values@,
            n == u@.len(),
            lv.len() == ri.len(),
            0 <= jj <= n,
            solved_by(lv, dv, b, u@, pre2 + unit_backward_ops(sym, jj as int), sp),
        decreases jj,
    {
        let j = jj - 1;
        assert(cp[j as int] < cp[j + 1] <= cp[n as int]) by {
            assert(sym.col(j as int).len() >= 1);
        }
        let l_start = sym.col_ptr[j];
        let l_end = sym.col_ptr[j + 1];
        let ghost pre3 = pre2 + unit_backward_ops(sym, jj as int);
        proof {
            assert(pre3 + backward_below(sym, j as int, 0) =~= pre3);
        }
        let mut pos = l_start + 1;
        while pos < l_end
            invariant
                n == sym.n,
                sym.wf(),
                cp == sym.col_ptr@,
                ri == sym.row_idx@,
                lv == num.l_values@,
                dv == num.d_values@,
                n == u@.len(),
                0 <= j < n,
                l_start == cp[j as int],
                l_end == cp[j + 1],
                l_end <= ri.len(),
                lv.len() == ri.len(),
                l_start < pos <= l_end,
                solved_by(lv, dv, b, u@, pre3 + backward_below(sym, j as int, pos - l_start - 1), sp),
            decreases l_end - pos,
        {
            let i = sym.row_idx[pos];
            proof {
                assert(sym.col(j as int)[pos - l_start] == i);
            }
            let ghost u1 = u@;
            let prod = num.l_values[pos].times(u[i]);
            let nv = u[j].minus(prod);
            u[j] = nv;
            proof {
                let m = pos - l_start - 1;
                let op = SolveOp::SubtractProduct { at: j, by: pos, src: i };
                assert(solve_step(lv, dv, u1, u@, op, prod));
                lemma_solved_step(lv, dv, b, u1, pre3 + backward_below(sym, j as int, m), sp, op, prod, u@);
                sp = sp.push(prod);
                assert(backward_below(sym, j as int, m + 1) =~= backward_below(sym, j as int, m).push(op));
                assert(pre3 + backward_below(sym, j as int, m + 1) =~= (pre3 + backward_below(sym, j as int, m)).push(op));
            }
            pos = pos + 1;
        }
        proof {
            assert(unit_backward_ops(sym, j as int) =~= unit_backward_ops(sym, jj as int) + backward_below(sym, j as int, l_end - l_start - 1));
            assert(pre2 + unit_backward_ops(sym, j as int) =~= pre3 + backward_below(sym, j as int, l_end - l_start - 1));
        }
        jj = j;
    }
    // scatter back: u[perm[i]] = x[i]
    let ghost x = u@;
    let mut i: usize = 0;
    while i < n
        invariant
            n == u@.len(),
            n == x_perm@.len(),
            u@ == x,
            0 <= i <= n,
            forall|q: int| 0 <= q < i ==> #[trigger] x_perm@[q] == u@[q],
        decreases n - i,
    {
        x_perm[i] = u[i];
        i = i + 1;
    }
    proof {
        assert(x_perm@ =~= x);
        use_type_invariant(perm);
    }
    let mut i: usize = 0;
    while i < n
        invariant
            n == u@.len(),
            n == x_perm@.len(),
            n == perm@.len(),
            x_perm@ == x,
            is_perm(perm@),
            0 <= i <= n,
            forall|k: int| 0 <= k < i ==> #[trigger] u@[perm@[k] as int] == x[k],
        decreases n - i,
    {
        let old = perm.old_index(i);
        u[old] = x_perm[i];
        proof {
            assert forall|k: int| 0 <= k < i + 1 implies #[trigger] u@[perm@[k] as int] == x[k] by {
                if k < i {
                    assert(perm@[k] != perm@[i as int]);
                }
            }
        }
        i = i + 1;
    }
    proof {
        assert(ldlt_solve_ops(sym) =~= pre2 + unit_backward_ops(sym, 0));
        assert(solved_by(lv, dv, b, x, ldlt_solve_ops(sym), sp));
        assert(ldlt_solution(sym, lv, dv, perm@, f@, u@));
    }
    Ok(())
}

/// Number of `true` entries of `s`.
pub open spec fn count_true(s: Seq<bool>) -> nat
    decreases s.len(),
{
    if s.len() == 0 {
        0
    } else {
        count_true(s.drop_last()) + if s.last() { 1nat } else { 0nat }
    }
}

/// `count_true` counts the flags that are set: it is the length of the
/// subsequence of the `true` entries, so the inertia count of
/// `negative_pivots` is the number of pivots that test negative.
pub proof fn law_count_true_counts(flags: Seq<bool>)
    ensures
        count_true(flags) == flags.filter(|b: bool| b).len(),
    decreases flags.len(),
{
    reveal(Seq::filter);
    if flags.len() > 0 {
        law_count_true_counts(flags.drop_last());
    }
}

/// Sparse LDLᵀ solver for symmetric, possibly indefinite, systems.
///
/// The symbolic phase is that of the Cholesky solver; `factorize` accepts
/// pivots of either sign and fails only on a negligible one.
pub struct LdltSolver<T> {
    ordering: Reordering,
    perm: Option<Permutation>,
    symbolic: Option<SymbolicCholesky>,
    numeric: Option<NumericLdlt<T>>,
    workspace: Option<LdltWorkspace<T>>,
    factorized: bool,
}

impl<T: SparseScalar> LdltSolver<T> {
    /// Internal consistency of the cached phases.
    pub closed spec fn inv(&self) -> bool {
        &&& (self.symbolic is Some <==> self.perm is Some)
        &&& (self.symbolic is Some <==> self.workspace is Some)
        &&& (self.symbolic is Some <==> self.numeric is Some)
        &&& self.factorized ==> self.symbolic is Some
        &&& self.symbolic is Some ==> {
            let sym = self.symbolic->0;
            let p = self.perm->0;
            let ws = self.workspace->0;
            let num = self.numeric->0;
            &&& sym.wf()
            &&& p@.len() == sym.n
            &&& num.n == sym.n
            &&& num.l_values@.len() == sym.row_idx@.len()
            &&& num.d_values@.len() == sym.n
            &&& ws.w@.len() == sym.n
            &&& ws.active@.len() == sym.n
            &&& ws_clean(&ws)
            &&& ws.x_perm@.len() == sym.n
            &&& ws.csc.wf()
            &&& ws.csc.nrows == sym.n
            &&& ws.csc.ncols == sym.n
            &&& is_perm(p@)
        }
    }

    /// The symbolic factor of the current analysis.
    pub closed spec fn analysis(&self) -> SymbolicCholesky {
        self.symbolic->0
    }

    /// The permutation of the current analysis (`perm[new] = old`).
    pub closed spec fn permutation(&self) -> Seq<usize> {
        self.perm->0@
    }

    /// The permuted matrix, in full column form, of the last `factorize`
    /// (of `analyze` before any).
    pub closed spec fn factored_matrix(&self) -> CscMatrix<T> {
        self.workspace->0.csc
    }

    /// The entries of `L` of the current factor, on the pattern of
    /// `analysis()` (the diagonal slots unused).
    pub closed spec fn l_values(&self) -> Seq<T> {
        self.numeric->0.l_values@
    }

    /// `analyze` has run and its result is current.
    pub closed spec fn analysis_done(&self) -> bool {
        self.symbolic is Some
    }

    /// `factorize` has succeeded since the last `analyze`.
    pub closed spec fn factor_done(&self) -> bool {
        self.factorized
    }

    /// Dimension of the analysed system.
    pub closed spec fn dim(&self) -> nat {
        match self.symbolic {
            Some(s) => s.n as nat,
            None => 0,
        }
    }

    /// The ordering strategy of the next `analyze`.
    pub closed spec fn strategy(&self) -> Reordering {
        self.ordering
    }

    /// The pivots of the current factor, in the permuted order.
    pub closed spec fn pivot_values(&self) -> Seq<T> {
        match self.numeric {
            Some(num) => num.d_values@,
            None => Seq::empty(),
        }
    }

    /// Solving in the original numbering: after `factorize(k)` and a
    /// successful `solve(f, u)`, with `p` the permutation (`p[new] = old`)
    /// under which entry `(i, j)` of the factored matrix comes from
    /// `K[p[i]][p[j]]`, the substitutions with `L` and `D` run on the
    /// right-hand side `b[i] = f[p[i]]` (`b = P f`), and their result `x`
    /// is written back with `u[p[i]] = x[i]` (`u = Pᵀ x`), so that `u`
    /// answers `K u = f` and not the permuted system.
    pub proof fn law_solve_in_original_order(s: Self, k: SymCsrMatrix<T>, f: Seq<T>, u: Seq<T>)
        requires
            s.inv(),
            s.factor_done(),
            permuted_full_accumulated(&s.factored_matrix(), &k, s.permutation()),
            ldlt_solution(&s.analysis(), s.l_values(), s.pivot_values(), s.permutation(), f, u),
        ensures
            ({
                let p = s.permutation();
                let n = s.dim() as int;
                let a = s.factored_matrix();
                &&& is_perm(p)
                &&& p.len() == n
                &&& u.len() == n
                &&& forall|i: int, j: int| 0 <= i < n && 0 <= j < n && #[trigger] a.stored(i, j) ==>
                    crate::ordering::permutation::zero_plus(crate::convert::full_value(&k, p[i] as int, p[j] as int), a.value_at(i, j))
                &&& exists|b: Seq<T>, x: Seq<T>, prods: Seq<T>| {
                    &&& b.len() == n
                    &&& forall|i: int| 0 <= i < n ==> #[trigger] b[i] == f[p[i] as int]
                    &&& #[trigger] solved_by(s.l_values(), s.pivot_values(), b, x, ldlt_solve_ops(&s.analysis()), prods)
                    &&& forall|i: int| 0 <= i < n ==> #[trigger] u[p[i] as int] == x[i]
                }
            }),
    {
    }

    /// A new solver with the AMD ordering (the default).
    pub fn new() -> (r: Self)
        ensures
            r.inv(),
            !r.analysis_done(),
            !r.factor_done(),
            r.strategy() is Amd,
    {
        LdltSolver {
            ordering: Reordering::Amd,
            perm: None,
            symbolic: None,
            numeric: None,
            workspace: None,
            factorized: false,
        }
    }

    /// A new solver with the RCM ordering.
    pub fn with_rcm() -> (r: Self)
        ensures
            r.inv(),
            !r.analysis_done(),
            !r.factor_done(),
            r.strategy() is Rcm,
    {
        let mut s = Self::new();
        s.ordering = Reordering::Rcm;
        s
    }

    /// Choose the ordering of the next `analyze`; any current analysis and
    /// factorization are discarded.
    pub fn set_ordering(&mut self, ordering: Reordering)
        ensures
            final(self).inv(),
            final(self).strategy() == ordering,
            !final(self).analysis_done(),
            !final(self).factor_done(),
    {
        self.ordering = ordering;
        self.perm = None;
        self.symbolic = None;
        self.numeric = None;
        self.workspace = None;
        self.factorized = false;
    }

    /// The ordering strategy of the next `analyze`.
    pub fn ordering(&self) -> (r: &Reordering)
        ensures
            *r == self.strategy(),
    {
        &self.ordering
    }

    /// `true` if `analyze` has run and its result is current.
    pub fn is_analyzed(&self) -> (r: bool)
        ensures
            r == self.analysis_done(),
    {
        self.symbolic.is_some()
    }

    /// `true` if `factorize` has succeeded since the last `analyze`.
    pub fn is_factorized(&self) -> (r: bool)
        ensures
            r == self.factor_done(),
    {
        self.factorized
    }

    /// Number of negative pivots of the current factor, `None` before a
    /// successful `factorize`.  By Sylvester's law of inertia this is the
    /// number of negative eigenvalues of `K`.
    pub fn negative_pivots(&self) -> (r: Option<usize>)
        requires
            self.inv(),
        ensures
            r is None <==> !self.factor_done(),
            r matches Some(c) ==> exists|flags: Seq<bool>| {
                &&& flags.len() == self.pivot_values().len()
                &&& forall|j: int| 0 <= j < flags.len() ==> #[trigger] call_ensures(T::is_negative, (self.pivot_values()[j],), flags[j])
                &&& c == count_true(flags)
            },
    {
        if !self.factorized {
            return None;
        }
        match &self.numeric {
            Some(num) => {
                let len = num.d_values.len();
                let mut count: usize = 0;
                let ghost mut flags: Seq<bool> = Seq::empty();
                let mut j: usize = 0;
                while j < len
                    invariant
                        len == num.d_values@.len(),
                        0 <= j <= len,
                        flags.len() == j,
                        forall|q: int| 0 <= q < j ==> #[trigger] call_ensures(T::is_negative, (num.d_values@[q],), flags[q]),
                        count == count_true(flags),
                        count <= j,
                    decreases len - j,
                {
                    let neg = num.d_values[j].is_negative();
                    let ghost f0 = flags;
                    proof {
                        flags = flags.push(neg);
                        assert(flags.drop_last() =~= f0);
                    }
                    if neg {
                        count = count + 1;
                    }
                    j = j + 1;
                }
                Some(count)
            },
            None => {
                proof {
                    assert(false);
                }
                None
            },
        }
    }

    /// The pivots `D` of the current factor, in the permuted order; `None`
    /// before a successful `factorize`.
    pub fn pivots(&self) -> (r: Option<&[T]>)
        requires
            self.inv(),
        ensures
            r is None <==> !self.factor_done(),
            r matches Some(s) ==> s@ == self.pivot_values(),
    {
        if !self.factorized {
            return None;
        }
        match &self.numeric {
            Some(num) => Some(num.d_values.as_slice()),
            None => None,
        }
    }
}

impl<T: SparseScalar> LinearSolver<T> for LdltSolver<T> {
    open spec fn solver_ok(&self) -> bool {
        self.inv()
    }

    open spec fn can_analyze(&self, k: &SymCsrMatrix<T>) -> bool {
        (self.strategy() is Rcm || self.strategy() is Amd) ==> k.n > 0
    }

    open spec fn can_factorize(&self, k: &SymCsrMatrix<T>) -> bool {
        true
    }

    /// `analyze` on `k` from this state returns `r` and leaves `after`: on
    /// success the ordering of the strategy, the permuted full matrix and its
    /// symbolic factor (elimination tree and pattern of `L`); the error and
    /// an unchanged solver exactly for a custom permutation of the wrong
    /// length.
    open spec fn analyze_outcome(&self, k: &SymCsrMatrix<T>, r: Result<(), SolverError<T>>, after: Self) -> bool {
        &&& (r is Ok ==> after.analysis_done() && !after.factor_done() && after.dim() == k.n)
        &&& (r is Ok ==> {
            let p = after.permutation();
            let s = after.analysis();
            &&& p.len() == k.n
            &&& is_perm(p)
            &&& self.strategy() is Custom ==> p == self.strategy()->Custom_0@
            &&& self.strategy() is Natural ==> p == Seq::new(k.n as nat, |i: int| i as usize)
            &&& self.strategy() is Rcm ==> rcm_permutation(k, p)
            &&& self.strategy() is Amd ==> forall|t: int| 0 <= t < k.n ==> #[trigger] min_degree_pick(
                elimination_state(pattern_adjacency(k), p, t),
                p.take(t),
                p[t],
            )
            &&& permuted_pattern(&after.factored_matrix(), k, p)
            &&& s.wf()
            &&& s.n == k.n
            &&& forall|j: int, i: usize| 0 <= j < k.n ==> (#[trigger] s.col(j).contains(i) <==> (
                i == j || reach_sets(&after.factored_matrix(), s.parent@, k.n as int)[j].contains(i)))
            &&& is_etree(&after.factored_matrix(), s.parent@, k.n as int)
            &&& forall|j: int| 0 <= j < k.n ==> {
                &&& (#[trigger] s.parent@[j] == k.n <==> s.col(j).len() == 1)
                &&& (s.parent@[j] < k.n ==> s.col(j)[1] == s.parent@[j])
            }
            &&& forall|i: int, j: int| 0 <= j < i < k.n ==> (#[trigger] s.col(j).contains(i as usize)
                <==> exists|w: Seq<int>| fill_walk(&after.factored_matrix(), w, i, j))
        })
        &&& (after.strategy() == self.strategy())
        &&& (r is Err ==> after == *self)
        &&& (r is Err <==> (self.strategy() is Custom && self.strategy()->Custom_0@.len() != k.n))
        &&& (r matches Err(e) ==> e == SolverError::<T>::Sparse(crate::error::SparseError::DimensionMismatch {
            expected: k.n,
            got: self.strategy()->Custom_0@.len() as usize,
        }))
    }

    /// `factorize` on `k` from this state returns `r` and leaves `after`:
    /// the numeric factor of the permuted matrix on the analysed pattern, or
    /// the error and what it keeps.
    open spec fn factorize_outcome(&self, k: &SymCsrMatrix<T>, r: Result<(), SolverError<T>>, after: Self) -> bool {
        &&& (!self.analysis_done() ==> r == Err::<(), SolverError<T>>(SolverError::NotAnalyzed) && after == *self)
        &&& (self.analysis_done() && k.n != self.dim() ==> r == Err::<(), SolverError<T>>(SolverError::Sparse(
            crate::error::SparseError::DimensionMismatch { expected: k.n, got: self.dim() as usize },
        )) && after == *self)
        &&& (after.analysis_done() == self.analysis_done())
        &&& (after.dim() == self.dim())
        &&& (after.strategy() == self.strategy())
        &&& (r is Ok ==> after.factor_done() && forall|j: int| 0 <= j < after.dim() ==>
            #[trigger] call_ensures(T::is_negligible_pivot, (after.pivot_values()[j],), false))
        &&& (r is Err ==> after.factor_done() == self.factor_done())
        &&& (self.analysis_done() && k.n == self.dim() && r is Err ==> (r->Err_0 matches SolverError::NotPositiveDefinite { index, value }
            && index < self.dim() && call_ensures(T::is_negligible_pivot, (value,), true)
            && ldlt_fails_at(&self.analysis(), &after.factored_matrix(), index as int, value)))
        &&& (after.analysis() == self.analysis())
        &&& (after.permutation() == self.permutation())
        &&& (self.analysis_done() && k.n == self.dim() ==>
            permuted_full_accumulated(&after.factored_matrix(), k, self.permutation()))
        &&& (r is Ok ==> ldlt_factor(&after.analysis(), &after.factored_matrix(), after.l_values(), after.pivot_values()))
    }


    /// Symbolic phase, as for the Cholesky solver.
    ///
    /// Error: `Sparse(DimensionMismatch)` when a custom permutation does
    /// not have `k.n` entries; the solver is then unchanged.
    fn analyze(&mut self, k: &SymCsrMatrix<T>) -> (r: Result<(), SolverError<T>>)
    {
        proof {
            assert forall|s: Self| #[trigger] s.can_factorize(k) by {}
        }
        let strategy = self.ordering.clone();
        let perm = strategy.into_permutation(k);
        let k_perm = match perm.permute_sym(k) {
            Ok(m) => m,
            Err(e) => {
                return Err(SolverError::Sparse(e));
            },
        };
        let k_csc = sym_to_csc(&k_perm);
        proof {
            use_type_invariant(&perm);
            perm.lemma_well_formed();
            lemma_permuted_full(&k_csc, &k_perm, k, perm@, |x: T, y: T| crate::ordering::permutation::zero_plus(x, y));
        }
        let sym = match symbolic::analyze(&k_csc) {
            Ok(s) => s,
            Err(e) => {
                return Err(e);
            },
        };
        let ghost kc = k_csc;
        let ghost sg = sym;
        let n = sym.n;
        let nnz = sym.nnz_l();
        let mut ws = LdltWorkspace::new(n);
        ws.csc = k_csc;
        self.numeric = Some(NumericLdlt::new(n, nnz));
        self.workspace = Some(ws);
        self.factorized = false;
        self.perm = Some(perm);
        self.symbolic = Some(sym);
        proof {
            assert(self.factored_matrix() == kc);
            assert(self.analysis() == sg);
        }
        Ok(())
    }

    /// Permute `k` with the cached permutation and compute `L` and `D`.
    ///
    /// Errors: `NotAnalyzed` before `analyze` (solver unchanged);
    /// `Sparse(DimensionMismatch)` if `k` does not have the analysed
    /// dimension (solver unchanged); `NotPositiveDefinite` for the first
    /// negligible pivot (the factorized flag is kept).
    fn factorize(&mut self, k: &SymCsrMatrix<T>) -> (r: Result<(), SolverError<T>>)
    {
        proof {
            assert forall|s: Self| #[trigger] s.can_factorize(k) by {}
        }
        if self.symbolic.is_none() || self.perm.is_none() || self.workspace.is_none() || self.numeric.is_none() {
            return Err(SolverError::NotAnalyzed);
        }
        let k_perm = match &self.perm {
            Some(p) => match p.permute_sym(k) {
                Ok(m) => m,
                Err(e) => {
                    return Err(SolverError::Sparse(e));
                },
            },
            None => {
                return Err(SolverError::NotAnalyzed);
            },
        };
        let mut ws = match self.workspace.take() {
            Some(ws) => ws,
            None => {
                return Err(SolverError::NotAnalyzed);
            },
        };
        ws.csc = sym_to_csc(&k_perm);
        proof {
            let p = self.perm->0@;
            lemma_permuted_full(&ws.csc, &k_perm, k, p, |x: T, y: T| crate::ordering::permutation::zero_plus(x, y));
        }
        let mut num = match self.numeric.take() {
            Some(num) => num,
            None => {
                self.workspace = Some(ws);
                return Err(SolverError::NotAnalyzed);
            },
        };
        let res = match &self.symbolic {
            Some(sym) => ldlt_factorize(sym, &mut num, &mut ws),
            None => Err(SolverError::NotAnalyzed),
        };
        self.numeric = Some(num);
        self.workspace = Some(ws);
        match res {
            Ok(()) => {
                self.factorized = true;
                proof {
                    let sym = self.symbolic->0;
                    assert forall|j: int| 0 <= j < self.dim() implies
                        #[trigger] call_ensures(T::is_negligible_pivot, (self.pivot_values()[j],), false) by {
                        let kk = self.workspace->0.csc;
                        let l = self.numeric->0.l_values@;
                        let d = self.numeric->0.d_values@;
                        assert(ldlt_column(&sym, &kk, l, d, j));
                        let w = choose|w: Seq<T>| #[trigger] ldlt_updated_column(&sym, &kk, l, d, j, w) && ldlt_finish(&sym, l, d, j, w);
                        assert(ldlt_finish(&sym, l, d, j, w));
                    }
                }
                Ok(())
            },
            Err(e) => Err(e),
        }
    }

    /// Solve `K u = f` with the current factor.
    ///
    /// Errors: `NotFactorized` before a successful `factorize`;
    /// `RhsSizeMismatch` when `f` (checked first) or `u` does not have the
    /// dimension of the system.  `u` is unchanged on error.
    fn solve(&mut self, f: &[T], u: &mut [T]) -> (r: Result<(), SolverError<T>>)
        ensures
            final(self).analysis_done() == old(self).analysis_done(),
            final(self).factor_done() == old(self).factor_done(),
            final(self).dim() == old(self).dim(),
            final(self).strategy() == old(self).strategy(),
            final(self).pivot_values() == old(self).pivot_values(),
            final(self).analysis() == old(self).analysis(),
            final(self).permutation() == old(self).permutation(),
            final(self).l_values() == old(self).l_values(),
            final(self).factored_matrix() == old(self).factored_matrix(),
            r is Ok ==> ldlt_solution(
                &old(self).analysis(),
                old(self).l_values(),
                old(self).pivot_values(),
                old(self).permutation(),
                f@,
                final(u)@,
            ),
            !old(self).factor_done() ==> r == Err::<(), SolverError<T>>(SolverError::NotFactorized) && final(u)@ == old(u)@,
            old(self).factor_done() && f@.len() != old(self).dim() ==> r == Err::<(), SolverError<T>>(
                SolverError::RhsSizeMismatch { expected: old(self).dim() as usize, got: f@.len() as usize },
            ) && final(u)@ == old(u)@,
            old(self).factor_done() && f@.len() == old(self).dim() && old(u)@.len() != old(self).dim()
                ==> r == Err::<(), SolverError<T>>(
                SolverError::RhsSizeMismatch { expected: old(self).dim() as usize, got: old(u)@.len() as usize },
            ) && final(u)@ == old(u)@,
            old(self).factor_done() && f@.len() == old(self).dim() && old(u)@.len() == old(self).dim() ==> r is Ok,
    {
        if !self.factorized {
            return Err(SolverError::NotFactorized);
        }
        let mut ws = match self.workspace.take() {
            Some(ws) => ws,
            None => {
                return Err(SolverError::NotFactorized);
            },
        };
        let res = match (&self.perm, &self.symbolic, &self.numeric) {
            (Some(perm), Some(sym), Some(num)) => ldlt_solve(sym, num, perm, f, u, ws.x_perm.as_mut_slice()),
            _ => Err(SolverError::NotFactorized),
        };
        self.workspace = Some(ws);
        res
    }
}

impl<T: SparseScalar> Default for LdltSolver<T> {
    fn default() -> (r: Self)
        ensures
            r.inv(),
            !r.analysis_done(),
            !r.factor_done(),
            r.strategy() is Amd,
    {
        Self::new()
    }
}

} // verus!
