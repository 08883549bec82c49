//! Triangular solves with the Cholesky factor: `K u = f` for the
//! permuted system `P K Pᵀ = L Lᵀ`.
use vstd::prelude::*;
use crate::cholesky::numeric::NumericCholesky;
use crate::cholesky::symbolic::SymbolicCholesky;
use crate::cholesky::trace::{SolveOp, solve_step, solved_by, lemma_solved_none, lemma_solved_step, step_target, step_source, step_slot};
use crate::error::SolverError;
use crate::ordering::permutation::{Permutation, is_perm};
use crate::scalar::SparseScalar;

verus! {

// -----------------------------------------------------------------
// The steps of the solve
// -----------------------------------------------------------------

/// The first `m` subtractions of the forward step of column `j`:
/// `u[i] -= L[i, j] * u[j]` for the rows `i` below the diagonal.
pub open spec fn forward_below(sym: &SymbolicCholesky, j: int, m: int) -> Seq<SolveOp> {
    let s = sym.col_ptr@[j] as int;
    Seq::new(m as nat, |t: int| SolveOp::SubtractProduct { at: sym.row_idx@[s + 1 + t], by: (s + 1 + t) as usize, src: j as usize })
}

/// Forward substitution on column `j`: divide `u[j]` by `L[j, j]`, then
/// update the rows below.
pub open spec fn forward_col_ops(sym: &SymbolicCholesky, j: int) -> Seq<SolveOp> {
    let s = sym.col_ptr@[j] as int;
    let e = sym.col_ptr@[j + 1] as int;
    seq![SolveOp::Divide { at: j as usize, by: s as usize }] + forward_below(sym, j, e - s - 1)
}

/// Forward substitution on the columns `0..m`, in order.
pub open spec fn forward_ops(sym: &SymbolicCholesky, m: int) -> Seq<SolveOp>
    decreases m,
{
    if m <= 0 {
        Seq::empty()
    } else {
        forward_ops(sym, m - 1) + forward_col_ops(sym, m - 1)
    }
}

/// The first `m` subtractions of the backward step of column `j`:
/// `u[j] -= L[i, j] * u[i]` for the rows `i` below the diagonal.
pub open spec fn backward_below(sym: &SymbolicCholesky, j: int, m: int) -> Seq<SolveOp> {
    let s = sym.col_ptr@[j] as int;
    Seq::new(m as nat, |t: int| SolveOp::SubtractProduct { at: j as usize, by: (s + 1 + t) as usize, src: sym.row_idx@[s + 1 + t] })
}

/// Backward substitution on column `j`: the subtractions, then the
/// division by `L[j, j]`.
pub open spec fn backward_col_ops(sym: &SymbolicCholesky, j: int) -> Seq<SolveOp> {
    let s = sym.col_ptr@[j] as int;
    let e = sym.col_ptr@[j + 1] as int;
    backward_below(sym, j, e - s - 1).push(SolveOp::Divide { at: j as usize, by: s as usize })
}

/// Backward substitution on the columns `n - 1` down to `m`.
pub open spec fn backward_ops(sym: &SymbolicCholesky, m: int) -> Seq<SolveOp>
    decreases sym.n - m,
{
    if m >= sym.n || m < 0 {
        Seq::empty()
    } else {
        backward_ops(sym, m + 1) + backward_col_ops(sym, m)
    }
}

/// All the steps of a solve with `L Lᵀ`.
pub open spec fn chol_solve_ops(sym: &SymbolicCholesky) -> Seq<SolveOp> {
    forward_ops(sym, sym.n as int) + backward_ops(sym, 0)
}

/// The rows of column `j`: the diagonal at its first slot, rows below it
/// after.
proof fn lemma_column_row(sym: &SymbolicCholesky, j: int, k: int)
    requires
        sym.wf(),
        0 <= j < sym.n,
        sym.col_ptr@[j] <= k < sym.col_ptr@[j + 1],
    ensures
        j <= sym.row_idx@[k] < sym.n,
        sym.row_idx@[k] == j <==> k == sym.col_ptr@[j],
{
    let c = sym.col(j);
    let s = sym.col_ptr@[j] as int;
    assert(c[0] == j);
    assert(c[k - s] == sym.row_idx@[k]);
    if k > s {
        assert(c[0] < c[k - s]);
    }
}

/// The forward steps of the columns `0..m`, by position: position `a` uses
/// slot `a` of `L`.
proof fn lemma_forward_at(sym: &SymbolicCholesky, m: int)
    requires
        sym.wf(),
        0 <= m <= sym.n,
    ensures
        forward_ops(sym, m).len() == sym.col_ptr@[m],
        forall|a: int| 0 <= a < sym.col_ptr@[m] ==> {
            let op = #[trigger] forward_ops(sym, m)[a];
            let j = step_source(op);
            &&& 0 <= j < m
            &&& sym.col_ptr@[j] <= a < sym.col_ptr@[j + 1]
            &&& step_slot(op) == a
            &&& step_target(op) == sym.row_idx@[a]
            &&& (op is Divide <==> a == sym.col_ptr@[j])
        },
    decreases m,
{
    if m > 0 {
        let j = m - 1;
        lemma_forward_at(sym, j);
        let prev = forward_ops(sym, j);
        let blk = forward_col_ops(sym, j);
        let s = sym.col_ptr@[j] as int;
        let cnt = sym.col_ptr@[m] - s - 1;
        let fb = forward_below(sym, j, cnt);
        assert(sym.col(j).len() >= 1);
        assert(sym.col_ptr@[j] <= sym.col_ptr@[m]);
        assert(sym.col_ptr@[m] <= sym.col_ptr@[sym.n as int]);
        assert(sym.col(j)[0] == j);
        let all = forward_ops(sym, m);
        assert(all == prev + blk);
        assert forall|a: int| 0 <= a < sym.col_ptr@[m] implies {
            let op = #[trigger] all[a];
            let jj = step_source(op);
            &&& 0 <= jj < m
            &&& sym.col_ptr@[jj] <= a < sym.col_ptr@[jj + 1]
            &&& step_slot(op) == a
            &&& step_target(op) == sym.row_idx@[a]
            &&& (op is Divide <==> a == sym.col_ptr@[jj])
        } by {
            if a >= s {
                let t = a - s;
                assert(all[a] == blk[t]);
                if t > 0 {
                    assert(blk[t] == fb[t - 1]);
                }
            } else {
                assert(all[a] == prev[a]);
            }
        }
    }
}

/// The backward steps of the columns `n - 1` down to `m`, by position.
proof fn lemma_backward_at(sym: &SymbolicCholesky, m: int)
    requires
        sym.wf(),
        0 <= m <= sym.n,
    ensures
        backward_ops(sym, m).len() == sym.col_ptr@[sym.n as int] - sym.col_ptr@[m],
        forall|a: int| 0 <= a < sym.col_ptr@[sym.n as int] - sym.col_ptr@[m] ==> {
            let op = #[trigger] backward_ops(sym, m)[a];
            let j = step_target(op);
            let first = sym.col_ptr@[sym.n as int] - sym.col_ptr@[j + 1];
            let last = sym.col_ptr@[sym.n as int] - sym.col_ptr@[j] - 1;
            &&& m <= j < sym.n
            &&& first <= a <= last
            &&& step_slot(op) == (if a == last { sym.col_ptr@[j] as int } else { sym.col_ptr@[j] + 1 + (a - first) })
            &&& step_source(op) == sym.row_idx@[step_slot(op)]
            &&& (op is Divide <==> a == last)
        },
    decreases sym.n - m,
{
    let n = sym.n as int;
    if m < n {
        lemma_backward_at(sym, m + 1);
        let prev = backward_ops(sym, m + 1);
        let blk = backward_col_ops(sym, m);
        let s = sym.col_ptr@[m] as int;
        let cnt = sym.col_ptr@[m + 1] - s - 1;
        let bb = backward_below(sym, m, cnt);
        assert(sym.col(m).len() >= 1);
        assert(sym.col_ptr@[m] <= sym.col_ptr@[m + 1]);
        assert(sym.col_ptr@[m + 1] <= sym.col_ptr@[n]);
        assert(sym.col(m)[0] == m);
        let all = backward_ops(sym, m);
        assert(all == prev + blk);
        assert forall|a: int| 0 <= a < sym.col_ptr@[n] - sym.col_ptr@[m] implies {
            let op = #[trigger] all[a];
            let j = step_target(op);
            let first = sym.col_ptr@[n] - sym.col_ptr@[j + 1];
            let last = sym.col_ptr@[n] - sym.col_ptr@[j] - 1;
            &&& m <= j < n
            &&& first <= a <= last
            &&& step_slot(op) == (if a == last { sym.col_ptr@[j] as int } else { sym.col_ptr@[j] + 1 + (a - first) })
            &&& step_source(op) == sym.row_idx@[step_slot(op)]
            &&& (op is Divide <==> a == last)
        } by {
            let pl = sym.col_ptr@[n] - sym.col_ptr@[m + 1];
            if a >= pl {
                let t = a - pl;
                assert(all[a] == blk[t]);
                if t < cnt {
                    assert(blk[t] == bb[t]);
                }
            } else {
                assert(all[a] == prev[a]);
            }
        }
    }
}

/// The steps of the Cholesky solve, with `z` the number of entries of `L`:
/// first `z` forward steps, step `a` using slot `a` of `L`, entry
/// `L[i][j]` with `i >= j`: the division `u[j] /= L[j][j]` on the
/// diagonal, `u[i] -= L[i][j] u[j]` below it, the columns in increasing
/// order so that no entry changes after a step has read it; then `z`
/// backward steps, each with an entry `L[i][j]`, `i >= j`: `u[j] -=
/// L[i][j] u[i]` below the diagonal and `u[j] /= L[j][j]` on it, the columns
/// in decreasing order so that, again, no entry changes after a step has
/// read it.  This is forward substitution with `L`, then backward
/// substitution with `Lᵀ`.
pub proof fn law_chol_solve_steps(sym: SymbolicCholesky)
    requires
        sym.wf(),
    ensures
        ({
            let ops = chol_solve_ops(&sym);
            let n = sym.n as int;
            let z = sym.col_ptr@[n] as int;
            &&& ops.len() == 2 * z
            &&& forall|a: int| 0 <= a < z ==> {
                let op = #[trigger] ops[a];
                let (i, j, k) = (step_target(op), step_source(op), step_slot(op));
                &&& 0 <= j <= i < n
                &&& sym.col_ptr@[j] <= k < sym.col_ptr@[j + 1]
                &&& sym.row_idx@[k] == i
                &&& (op is Divide <==> i == j)
            }
            &&& forall|a: int, b: int| 0 <= a < b < z ==> step_target(#[trigger] ops[b]) != step_source(#[trigger] ops[a])
            &&& forall|a: int| z <= a < 2 * z ==> {
                let op = #[trigger] ops[a];
                let (j, i, k) = (step_target(op), step_source(op), step_slot(op));
                &&& 0 <= j <= i < n
                &&& sym.col_ptr@[j] <= k < sym.col_ptr@[j + 1]
                &&& sym.row_idx@[k] == i
                &&& (op is Divide <==> i == j)
            }
            &&& forall|a: int, b: int| z <= a < b < 2 * z ==> step_target(#[trigger] ops[b]) != step_source(#[trigger] ops[a])
        }),
{
    let n = sym.n as int;
    let z = sym.col_ptr@[n] as int;
    let fw = forward_ops(&sym, n);
    let bw = backward_ops(&sym, 0);
    let ops = chol_solve_ops(&sym);
    lemma_forward_at(&sym, n);
    lemma_backward_at(&sym, 0);
    assert(ops == fw + bw);
    assert forall|a: int| 0 <= a < z implies {
        let op = #[trigger] ops[a];
        let (i, j, k) = (step_target(op), step_source(op), step_slot(op));
        &&& 0 <= j <= i < n
        &&& sym.col_ptr@[j] <= k < sym.col_ptr@[j + 1]
        &&& sym.row_idx@[k] == i
        &&& (op is Divide <==> i == j)
    } by {
        assert(ops[a] == fw[a]);
        lemma_column_row(&sym, step_source(fw[a]), a);
    }
    assert forall|a: int, b: int| 0 <= a < b < z implies step_target(#[trigger] ops[b]) != step_source(#[trigger] ops[a]) by {
        assert(ops[a] == fw[a]);
        assert(ops[b] == fw[b]);
        let ja = step_source(fw[a]);
        let jb = step_source(fw[b]);
        if jb < ja {
            assert(sym.col_ptr@[jb + 1] <= sym.col_ptr@[ja]);
        }
        lemma_column_row(&sym, jb, b);
    }
    assert forall|a: int| z <= a < 2 * z implies {
        let op = #[trigger] ops[a];
        let (j, i, k) = (step_target(op), step_source(op), step_slot(op));
        &&& 0 <= j <= i < n
        &&& sym.col_ptr@[j] <= k < sym.col_ptr@[j + 1]
        &&& sym.row_idx@[k] == i
        &&& (op is Divide <==> i == j)
    } by {
        let c = a - z;
        assert(ops[a] == bw[c]);
        let j = step_target(bw[c]);
        assert(sym.col_ptr@[0] == 0);
        assert(sym.col_ptr@[j] <= sym.col_ptr@[j + 1]);
        lemma_column_row(&sym, j, step_slot(bw[c]));
    }
    assert forall|a: int, b: int| z <= a < b < 2 * z implies step_target(#[trigger] ops[b]) != step_source(#[trigger] ops[a]) by {
        let ca = a - z;
        let cb = b - z;
        assert(ops[a] == bw[ca]);
        assert(ops[b] == bw[cb]);
        let ja = step_target(bw[ca]);
        let jb = step_target(bw[cb]);
        if ja < jb {
            assert(sym.col_ptr@[ja + 1] <= sym.col_ptr@[jb]);
        }
        assert(sym.col_ptr@[ja] <= sym.col_ptr@[ja + 1]);
        lemma_column_row(&sym, ja, step_slot(bw[ca]));
    }
}

/// `u` is what the solve with the factor `lv` computes from `f`: the
/// right-hand side permuted (`b[i] = f[p[i]]`), forward and backward
/// substitution, and the result `x` scattered back (`u[p[i]] = x[i]`).
pub open spec fn chol_solution<T: SparseScalar>(sym: &SymbolicCholesky, lv: Seq<T>, p: Seq<usize>, f: Seq<T>, u: Seq<T>) -> bool {
    exists|b: Seq<T>, x: Seq<T>, prods: Seq<T>| {
        &&& b.len() == sym.n
        &&& forall|i: int| 0 <= i < sym.n ==> #[trigger] b[i] == f[p[i] as int]
        &&& #[trigger] solved_by(lv, lv, b, x, chol_solve_ops(sym), prods)
        &&& u.len() == sym.n
        &&& forall|i: int| 0 <= i < sym.n ==> #[trigger] u[p[i] as int] == x[i]
    }
}

/// Writing `x` to the positions `p` of `u`: `u[p[i]] = x[i]` for a
/// permutation `p`.
pub(crate) fn scatter_back<T: Copy>(p: &Permutation, x: &Vec<T>, u: &mut [T])
    requires
        p@.len() == x@.len(),
        p@.len() == old(u)@.len(),
    ensures
        final(u)@.len() == old(u)@.len(),
        forall|i: int| 0 <= i < x@.len() ==> #[trigger] final(u)@[p@[i] as int] == x@[i],
{
    proof {
        use_type_invariant(p);
        p.lemma_well_formed();
    }
    let n = x.len();
    let mut i: usize = 0;
    while i < n
        invariant
            n == x@.len(),
            n == u@.len(),
            n == p@.len(),
            is_perm(p@),
            0 <= i <= n,
            forall|k: int| 0 <= k < i ==> #[trigger] u@[p@[k] as int] == x@[k],
        decreases n - i,
    {
        let old = p.old_index(i);
        u[old] = x[i];
        proof {
            assert forall|k: int| 0 <= k < i + 1 implies #[trigger] u@[p@[k] as int] == x@[k] by {
                if k < i {
                    assert(p@[k] != p@[i as int]);
                }
            }
        }
        i = i + 1;
    }
}

/// Solve `K u = f` with the factor of `P K Pᵀ` and the permutation `P`
/// (`perm[new] = old`): permute `f`, forward substitution with `L`,
/// backward substitution with `Lᵀ`, and scatter the result back to the
/// original order.
///
/// Errors: `RhsSizeMismatch` if `f` (checked first) or `u` does not have
/// `n` entries; `u` is then left as it was.
pub fn solve<T: SparseScalar>(
    sym: &SymbolicCholesky,
    num: &NumericCholesky<T>,
    perm: &Permutation,
    f: &[T],
    u: &mut [T],
) -> (r: Result<(), SolverError<T>>)
    requires
        sym.wf(),
        num.n == sym.n,
        num.values@.len() == sym.row_idx@.len(),
        perm@.len() == sym.n,
    ensures
        f@.len() != num.n ==> r == Err::<(), SolverError<T>>(
            SolverError::RhsSizeMismatch { expected: num.n, got: f@.len() as usize },
        ) && final(u)@ == old(u)@,
        f@.len() == num.n && old(u)@.len() != num.n ==> r == Err::<(), SolverError<T>>(
            SolverError::RhsSizeMismatch { expected: num.n, got: old(u)@.len() as usize },
        ) && final(u)@ == old(u)@,
        f@.len() == num.n && old(u)@.len() == num.n ==> r is Ok,
        r is Ok ==> chol_solution(sym, num.values@, perm@, f@, final(u)@),
        final(u)@.len() == old(u)@.len(),
{
    let n = num.n;
    if f.len() != n {
        return Err(SolverError::RhsSizeMismatch { expected: n, got: f.len() });
    }
    if u.len() != n {
        return Err(SolverError::RhsSizeMismatch { expected: n, got: u.len() });
    }
    proof {
        use_type_invariant(perm);
        perm.lemma_well_formed();
    }
    let ghost lv = num.values@;
    let ghost cp = sym.col_ptr@;
    let ghost ri = sym.row_idx@;
    // permute the right-hand side: b[i] = f[perm[i]]
    let mut i: usize = 0;
    while i < n
        invariant
            n == u@.len(),
            n == f@.len(),
            n == perm@.len(),
            is_perm(perm@),
            0 <= i <= n,
            forall|k: int| 0 <= k < i ==> #[trigger] u@[k] == f@[perm@[k] as int],
        decreases n - i,
    {
        let old = perm.old_index(i);
        u[i] = f[old];
        i = i + 1;
    }
    let ghost b = u@;
    proof {
        lemma_solved_none(lv, lv, b);
    }
    let ghost mut sp: Seq<T> = Seq::empty();
    // forward substitution: L y = b
    let mut j: usize = 0;
    while j < n
        invariant
            n == sym.n,
            sym.wf(),
            cp == sym.col_ptr@,
            ri == sym.row_idx@,
            lv == num.values@,
            n == u@.len(),
            lv.len() == ri.len(),
            0 <= j <= n,
            solved_by(lv, lv, b, u@, forward_ops(sym, j as int), sp),
        decreases n - j,
    {
        assert(cp[j as int] < cp[j + 1] <= cp[n as int]) by {
            assert(sym.col(j as int).len() >= 1);
        }
        let l_start = sym.col_ptr[j];
        let l_end = sym.col_ptr[j + 1];
        let ljj = num.values[l_start];
        let ghost u0 = u@;
        let yj = u[j].divided_by(ljj);
        u[j] = yj;
        proof {
            let op = SolveOp::Divide { at: j, by: l_start };
            assert(solve_step(lv, lv, u0, u@, op, yj));
            lemma_solved_step(lv, lv, b, u0, forward_ops(sym, j as int), sp, op, yj, u@);
            sp = sp.push(yj);
            assert(forward_ops(sym, j as int).push(op) =~= forward_ops(sym, j as int) + seq![op] + forward_below(sym, j as int, 0));
        }
        let mut pos = l_start + 1;
        while pos < l_end
            invariant
                n == sym.n,
                sym.wf(),
                cp == sym.col_ptr@,
                ri == sym.row_idx@,
                lv == num.values@,
                n == u@.len(),
                0 <= j < n,
                l_start == cp[j as int],
                l_end == cp[j + 1],
                l_end <= ri.len(),
                lv.len() == ri.len(),
                l_start < pos <= l_end,
                u@[j as int] == yj,
                solved_by(lv, lv, b, u@, forward_ops(sym, j as int) + seq![SolveOp::Divide { at: j, by: l_start }]
                    + forward_below(sym, j as int, pos - l_start - 1), sp),
            decreases l_end - pos,
        {
            let row = sym.row_idx[pos];
            proof {
                let col = sym.col(j as int);
                assert(col[pos - l_start] == row);
                assert(col[0] < col[pos - l_start]);
            }
            let ghost u1 = u@;
            let prod = num.values[pos].times(yj);
            let nv = u[row].minus(prod);
            u[row] = nv;
            proof {
                let m = pos - l_start - 1;
                let op = SolveOp::SubtractProduct { at: row, by: pos, src: j };
                assert(solve_step(lv, lv, u1, u@, op, prod));
                let pre = forward_ops(sym, j as int) + seq![SolveOp::Divide { at: j, by: l_start }];
                lemma_solved_step(lv, lv, b, u1, pre + forward_below(sym, j as int, m), sp, op, prod, u@);
                sp = sp.push(prod);
                assert(forward_below(sym, j as int, m + 1) =~= forward_below(sym, j as int, m).push(op));
                assert(pre + forward_below(sym, j as int, m + 1) =~= (pre + forward_below(sym, j as int, m)).push(op));
            }
            pos = pos + 1;
        }
        proof {
            assert(forward_ops(sym, j + 1) =~= forward_ops(sym, j as int) + seq![SolveOp::Divide { at: j, by: l_start }]
                + forward_below(sym, j as int, l_end - l_start - 1));
        }
        j = j + 1;
    }
    // backward substitution: Lᵀ x = y, right to left
    proof {
        assert(backward_ops(sym, n as int) =~= Seq::<SolveOp>::empty());
        assert(forward_ops(sym, n as int) + backward_ops(sym, n as int) =~= forward_ops(sym, n as int));
    }
    let mut jj: usize = n;
    while jj > 0
        invariant
            n == sym.n,
            sym.wf(),
            cp == sym.col_ptr@,
            ri == sym.row_idx@,
            lv == num.values@,
            n == u@.len(),
            lv.len() == ri.len(),
            0 <= jj <= n,
            solved_by(lv, lv, b, u@, forward_ops(sym, n as int) + backward_ops(sym, jj as int), sp),
        decreases jj,
    {
        let j = jj - 1;
        assert(cp[j as int] < cp[j + 1] <= cp[n as int]) by {
            assert(sym.col(j as int).len() >= 1);
        }
        let l_start = sym.col_ptr[j];
        let l_end = sym.col_ptr[j + 1];
        let ghost pre = forward_ops(sym, n as int) + backward_ops(sym, jj as int);
        proof {
            assert(pre + backward_below(sym, j as int, 0) =~= pre);
        }
        let mut pos = l_start + 1;
        while pos < l_end
            invariant
                n == sym.n,
                sym.wf(),
                cp == sym.col_ptr@,
                ri == sym.row_idx@,
                lv == num.values@,
                n == u@.len(),
                0 <= j < n,
                l_start == cp[j as int],
                l_end == cp[j + 1],
                l_end <= ri.len(),
                lv.len() == ri.len(),
                l_start < pos <= l_end,
                solved_by(lv, lv, b, u@, pre + backward_below(sym, j as int, pos - l_start - 1), sp),
            decreases l_end - pos,
        {
            let i = sym.row_idx[pos];
            proof {
                assert(sym.col(j as int)[pos - l_start] == i);
            }
            let ghost u1 = u@;
            let prod = num.values[pos].times(u[i]);
            let nv = u[j].minus(prod);
            u[j] = nv;
            proof {
                let m = pos - l_start - 1;
                let op = SolveOp::SubtractProduct { at: j, by: pos, src: i };
                assert(solve_step(lv, lv, u1, u@, op, prod));
                lemma_solved_step(lv, lv, b, u1, pre + backward_below(sym, j as int, m), sp, op, prod, u@);
                sp = sp.push(prod);
                assert(backward_below(sym, j as int, m + 1) =~= backward_below(sym, j as int, m).push(op));
                assert(pre + backward_below(sym, j as int, m + 1) =~= (pre + backward_below(sym, j as int, m)).push(op));
            }
            pos = pos + 1;
        }
        let ljj = num.values[l_start];
        let ghost u2 = u@;
        let xj = u[j].divided_by(ljj);
        u[j] = xj;
        proof {
            let op = SolveOp::Divide { at: j, by: l_start };
            assert(solve_step(lv, lv, u2, u@, op, xj));
            let below = backward_below(sym, j as int, l_end - l_start - 1);
            lemma_solved_step(lv, lv, b, u2, pre + below, sp, op, xj, u@);
            sp = sp.push(xj);
            assert(backward_ops(sym, j as int) =~= backward_ops(sym, jj as int) + below.push(op));
            assert(forward_ops(sym, n as int) + backward_ops(sym, j as int) =~= (pre + below).push(op));
        }
        jj = j;
    }
    // scatter back to the original order: u[perm[i]] = x[i]
    let ghost x = u@;
    let mut x_perm: Vec<T> = Vec::new();
    let mut i: usize = 0;
    while i < n
        invariant
            n == u@.len(),
            0 <= i <= n,
            x_perm@ == u@.take(i as int),
        decreases n - i,
    {
        x_perm.push(u[i]);
        proof {
            assert(x_perm@ =~= u@.take(i + 1));
        }
        i = i + 1;
    }
    proof {
        assert(x_perm@ =~= x);
    }
    scatter_back(perm, &x_perm, u);
    proof {
        assert(solved_by(lv, lv, b, x, chol_solve_ops(sym), sp));
        assert(chol_solution(sym, lv, perm@, f@, u@));
    }
    Ok(())
}

} // verus!
