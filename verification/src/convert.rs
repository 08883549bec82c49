//! Conversions between the sparse formats: CSR and CSC of the same
//! matrix, the full column form of a symmetric matrix, and the upper
//! triangle of a square CSR matrix.
use vstd::prelude::*;
use crate::rows::strictly_sorted;
use crate::compressed::{lines_ok, line_has, line_slot, line_sorted};
use crate::csc::CscMatrix;
use crate::csr::CsrMatrix;
use crate::error::SparseError;
use crate::line_ops::{transpose_lines, concat_lines, segment_is};
use crate::ordering::permutation::zero_plus;
use crate::scalar::{SparseScalar, is_zero_value};
use crate::sym::{SymCsrMatrix, upper_row_ok, upper_entry_bad};

verus! {

/// Column `c` of the full symmetric matrix of `sym`, as (row, value)
/// pairs: row `r` is present when `(min(r, c), max(r, c))` is stored.
pub open spec fn full_entry<T>(sym: &SymCsrMatrix<T>, r: int, c: int) -> bool {
    if r <= c {
        sym.stored(r, c)
    } else {
        sym.stored(c, r)
    }
}

/// Value of entry `(r, c)` of the full symmetric matrix of `sym`.
pub open spec fn full_value<T>(sym: &SymCsrMatrix<T>, r: int, c: int) -> T {
    if r <= c {
        sym.value_at(r, c)
    } else {
        sym.value_at(c, r)
    }
}

/// `csc` stores the full symmetric matrix of `sym`: entry `(r, c)` is
/// stored exactly when `sym` stores it in either triangle, with its value.
pub open spec fn full_form<T>(csc: &CscMatrix<T>, sym: &SymCsrMatrix<T>) -> bool {
    &&& csc.nrows == sym.n
    &&& csc.ncols == sym.n
    &&& forall|r: int, c: int| 0 <= r < sym.n && 0 <= c < sym.n ==> (#[trigger] csc.stored(r, c) <==> full_entry(sym, r, c))
    &&& forall|r: int, c: int| 0 <= r < sym.n && 0 <= c < sym.n && #[trigger] csc.stored(r, c) ==> csc.value_at(r, c) == full_value(sym, r, c)
}

/// Column-wise membership and values give the entry-wise full form.
proof fn lemma_full_form<T>(csc: &CscMatrix<T>, sym: &SymCsrMatrix<T>)
    requires
        csc.wf(),
        csc.nrows == sym.n,
        csc.ncols == sym.n,
        forall|c: int, r: usize| 0 <= c < sym.n ==> (#[trigger] csc.col_rows(c).contains(r) <==> (r < sym.n && full_entry(sym, r as int, c))),
        forall|c: int, k: int| 0 <= c < sym.n && 0 <= k < csc.col_rows(c).len() ==>
            #[trigger] csc.col_vals(c)[k] == full_value(sym, csc.col_rows(c)[k] as int, c),
    ensures
        full_form(csc, sym),
{
    csc.lemma_lines();
    let cp = csc.col_ptr@;
    let ri = csc.row_idx@;
    let n = sym.n as int;
    assert forall|r: int, c: int| 0 <= r < n && 0 <= c < n implies (#[trigger] csc.stored(r, c) <==> full_entry(sym, r, c)) by {
        crate::compressed::lemma_line_has_contains(cp, ri, n, n, c, r as usize);
        assert(csc.col_rows(c) == crate::compressed::line(cp, ri, c));
        assert(csc.col_rows(c).contains(r as usize) <==> full_entry(sym, r, c));
    }
    assert forall|r: int, c: int| 0 <= r < n && 0 <= c < n && #[trigger] csc.stored(r, c) implies csc.value_at(r, c) == full_value(sym, r, c) by {
        let k = line_slot(cp, ri, c, r);
        assert(crate::compressed::is_line_slot(cp, ri, c, r, k));
        crate::compressed::lemma_line_bounds(cp, ri, n, n, c);
        let q = k - cp[c];
        assert(csc.col_rows(c)[q] == ri[k]);
        assert(csc.col_vals(c)[q] == csc.values@[k]);
    }
}

/// Storage index `k < idx` of row `r` holds entry `(r, c)`.
pub open spec fn slot_before<T>(sym: &SymCsrMatrix<T>, r: int, c: int, idx: int) -> bool {
    exists|k: int| k < idx && #[trigger] sym.is_slot(r, c, k)
}

/// Row `x` is in column `c` once rows `0..r` and the storage indices of row
/// `r` below `idx` have been scattered.
pub open spec fn in_col<T>(sym: &SymCsrMatrix<T>, c: int, r: int, idx: int, x: int) -> bool {
    ||| (x < r && x <= c && sym.stored(x, c))
    ||| (c < r && c < x && sym.stored(c, x))
    ||| (x == r && r <= c && slot_before(sym, r, c, idx))
    ||| (c == r && r < x && slot_before(sym, r, x, idx))
}

/// The rows and values gathered so far for column `c`.
pub open spec fn col_built_partial<T>(sym: &SymCsrMatrix<T>, rl: Seq<usize>, vl: Seq<T>, c: int, r: int, idx: int, n: int) -> bool {
    &&& rl.len() == vl.len()
    &&& strictly_sorted(rl)
    &&& forall|x: usize| #[trigger] rl.contains(x) <==> in_col(sym, c, r, idx, x as int)
    &&& forall|k: int| 0 <= k < rl.len() ==> #[trigger] vl[k] == full_value(sym, rl[k] as int, c)
}

/// Column `c` after rows `0..r` have been scattered.
pub open spec fn col_built<T>(sym: &SymCsrMatrix<T>, rl: Seq<usize>, vl: Seq<T>, c: int, r: int, n: int) -> bool {
    col_built_partial(sym, rl, vl, c, r, sym.row_ptr@[r] as int, n)
}

/// One scattered storage index extends the columns it feeds.
proof fn lemma_col_step<T: SparseScalar>(
    sym: &SymCsrMatrix<T>,
    b0: Seq<Vec<usize>>,
    b1: Seq<Vec<T>>,
    rows: Seq<Vec<usize>>,
    vals: Seq<Vec<T>>,
    r: int,
    idx: int,
    cc: int,
    n: int,
)
    requires
        sym.wf(),
        n == sym.n,
        0 <= r < n,
        sym.start(r) <= idx < sym.end(r),
        upper_row_ok(sym.row_ptr@, sym.col_idx@, n, r),
        cc == sym.col_idx@[idx],
        b0.len() == n,
        b1.len() == n,
        rows.len() == n,
        vals.len() == n,
        forall|q: int| 0 <= q < n ==> #[trigger] col_built_partial(sym, b0[q]@, b1[q]@, q, r, idx, n),
        forall|q: int| 0 <= q < n && q != cc && q != r ==> #[trigger] rows[q]@ == b0[q]@ && vals[q]@ == b1[q]@,
        cc == r ==> rows[r]@ == b0[r]@.push(r as usize) && vals[r]@ == b1[r]@.push(sym.values@[idx]),
        cc != r ==> rows[cc]@ == b0[cc]@.push(r as usize) && vals[cc]@ == b1[cc]@.push(sym.values@[idx])
            && rows[r]@ == b0[r]@.push(cc as usize) && vals[r]@ == b1[r]@.push(sym.values@[idx]),
    ensures
        forall|q: int| 0 <= q < n ==> #[trigger] col_built_partial(sym, rows[q]@, vals[q]@, q, r, idx + 1, n),
{
    sym.lemma_slot_is(r, cc, idx);
    assert(sym.is_slot(r, cc, idx));
    assert forall|q: int| 0 <= q < n implies #[trigger] col_built_partial(sym, rows[q]@, vals[q]@, q, r, idx + 1, n) by {
        let old_r = b0[q]@;
        let old_v = b1[q]@;
        assert(col_built_partial(sym, old_r, old_v, q, r, idx, n));
        // membership changes only through storage index `idx`
        assert forall|x: int| #[trigger] slot_before(sym, r, x, idx + 1) <==> (slot_before(sym, r, x, idx) || x == cc) by {
            if slot_before(sym, r, x, idx + 1) && !slot_before(sym, r, x, idx) {
                let k = choose|k: int| k < idx + 1 && #[trigger] sym.is_slot(r, x, k);
                assert(k == idx);
            }
            if x == cc {
                assert(sym.is_slot(r, x, idx));
            }
        }
        if q != cc && q != r {
            assert forall|x: usize| #[trigger] rows[q]@.contains(x) <==> in_col(sym, q, r, idx + 1, x as int) by {
                assert(slot_before(sym, r, q, idx + 1) <==> slot_before(sym, r, q, idx));
                assert(old_r.contains(x) <==> in_col(sym, q, r, idx, x as int));
            }
        } else {
            let add = if q == cc { r as usize } else { cc as usize };
            assert(rows[q]@ == old_r.push(add));
            assert(vals[q]@ == old_v.push(sym.values@[idx]));
            // every earlier member is below the new one
            assert forall|y: int| 0 <= y < old_r.len() implies #[trigger] old_r[y] < add by {
                assert(old_r.contains(old_r[y]));
                let x = old_r[y] as int;
                assert(in_col(sym, q, r, idx, x));
                if x == r && r <= q && slot_before(sym, r, q, idx) {
                    let k = choose|k: int| k < idx && #[trigger] sym.is_slot(r, q, k);
                    if q == cc {
                        sym.lemma_slot_unique(r, q, k, idx);
                    } else {
                        // q == r: the diagonal slot precedes `idx`
                        assert(sym.col_idx@[k] == r);
                        assert(sym.col_idx@[k] < sym.col_idx@[idx]);
                    }
                }
                if q == r && r < x && slot_before(sym, r, x, idx) {
                    let k = choose|k: int| k < idx && #[trigger] sym.is_slot(r, x, k);
                    if q == cc {
                        assert(sym.col_idx@[sym.start(r)] == r);
                        assert(sym.col_idx@[idx] == r);
                        if sym.start(r) < idx {
                            assert(sym.col_idx@[sym.start(r)] < sym.col_idx@[idx]);
                        }
                        assert(sym.col_idx@[k] < sym.col_idx@[idx]);
                    } else {
                        assert(sym.col_idx@[k] < sym.col_idx@[idx]);
                    }
                }
            }
            assert forall|a: int, b: int| 0 <= a < b < rows[q]@.len() implies rows[q]@[a] < rows[q]@[b] by {
                if b == old_r.len() {
                    assert(old_r[a] < add);
                }
            }
            assert forall|x: usize| #[trigger] rows[q]@.contains(x) <==> in_col(sym, q, r, idx + 1, x as int) by {
                crate::rows::lemma_push_contains(old_r, add, x);
                assert(old_r.contains(x) <==> in_col(sym, q, r, idx, x as int));
                if q == r && q != cc {
                    assert(slot_before(sym, r, r, idx + 1) <==> slot_before(sym, r, r, idx));
                }
                if q == r && q == cc {
                    // the diagonal is the first slot of the row
                    assert(sym.col_idx@[sym.start(r)] == r);
                    if sym.start(r) < idx {
                        assert(sym.col_idx@[sym.start(r)] < sym.col_idx@[idx]);
                    }
                    if slot_before(sym, r, x as int, idx + 1) && r < x {
                        let k = choose|k: int| k < idx + 1 && #[trigger] sym.is_slot(r, x as int, k);
                        assert(k == idx);
                    }
                }
            }
            assert forall|k: int| 0 <= k < rows[q]@.len() implies #[trigger] vals[q]@[k] == full_value(sym, rows[q]@[k] as int, q) by {
                if k == old_r.len() {
                    if q == cc {
                        sym.lemma_slot_is(r, q, idx);
                    } else {
                        sym.lemma_slot_is(r, cc, idx);
                    }
                } else {
                    assert(vals[q]@[k] == old_v[k]);
                    assert(rows[q]@[k] == old_r[k]);
                }
            }
        }
    }
}

/// Finishing row `r` is starting row `r + 1`.
proof fn lemma_col_row_done<T>(sym: &SymCsrMatrix<T>, rl: Seq<usize>, vl: Seq<T>, c: int, r: int, n: int)
    requires
        sym.wf(),
        n == sym.n,
        0 <= r < n,
        0 <= c < n,
        col_built_partial(sym, rl, vl, c, r, sym.end(r), n),
    ensures
        col_built(sym, rl, vl, c, r + 1, n),
{
    assert forall|x: int| #[trigger] slot_before(sym, r, x, sym.end(r)) <==> sym.stored(r, x) by {
        if sym.stored(r, x) {
            let k = choose|k: int| #[trigger] sym.is_slot(r, x, k);
            assert(slot_before(sym, r, x, sym.end(r)));
        }
    }
    assert forall|x: int| !#[trigger] slot_before(sym, r + 1, x, sym.row_ptr@[r + 1] as int) by {}
    assert forall|x: usize| #[trigger] rl.contains(x) <==> in_col(sym, c, r + 1, sym.row_ptr@[r + 1] as int, x as int) by {
        assert(rl.contains(x) <==> in_col(sym, c, r, sym.end(r), x as int));
    }
}

/// Convert a symmetric upper-triangle matrix to full CSC storage: both
/// triangles stored explicitly, rows ascending within each column.
pub fn sym_to_csc<T: SparseScalar>(sym: &SymCsrMatrix<T>) -> (csc: CscMatrix<T>)
    requires
        sym.wf(),
    ensures
        csc.wf(),
        csc.nrows == sym.n,
        csc.ncols == sym.n,
        forall|c: int, r: usize| 0 <= c < sym.n ==> (#[trigger] csc.col_rows(c).contains(r) <==> (r < sym.n && full_entry(sym, r as int, c))),
        forall|c: int, k: int| 0 <= c < sym.n && 0 <= k < csc.col_rows(c).len() ==>
            #[trigger] csc.col_vals(c)[k] == full_value(sym, csc.col_rows(c)[k] as int, c),
        full_form(&csc, sym),
        csc.symmetric_pattern(),
{
    let n = sym.n;
    let mut rows: Vec<Vec<usize>> = Vec::new();
    let mut vals: Vec<Vec<T>> = Vec::new();
    let mut t: usize = 0;
    while t < n
        invariant
            0 <= t <= n,
            rows@.len() == t,
            vals@.len() == t,
            forall|q: int| 0 <= q < t ==> #[trigger] rows@[q]@.len() == 0 && vals@[q]@.len() == 0,
        decreases n - t,
    {
        rows.push(Vec::new());
        vals.push(Vec::new());
        t = t + 1;
    }
    proof {
        assert forall|c: int| 0 <= c < n implies #[trigger] col_built(sym, rows@[c]@, vals@[c]@, c, 0, n as int) by {
            assert forall|x: int| !#[trigger] slot_before(sym, 0, x, sym.row_ptr@[0] as int) by {}
            assert forall|x: usize| #[trigger] rows@[c]@.contains(x) <==> in_col(sym, c, 0, sym.row_ptr@[0] as int, x as int) by {}
        }
    }
    // Row `r` of the upper triangle feeds columns `c >= r` (upper part)
    // and column `r` (lower part); both receive rows in ascending order.
    let mut r: usize = 0;
    while r < n
        invariant
            n == sym.n,
            sym.wf(),
            0 <= r <= n,
            rows@.len() == n,
            vals@.len() == n,
            forall|c: int| 0 <= c < n ==> #[trigger] col_built(sym, rows@[c]@, vals@[c]@, c, r as int, n as int),
        decreases n - r,
    {
        proof {
            sym.lemma_row_bounds(r as int);
            assert(upper_row_ok(sym.row_ptr@, sym.col_idx@, n as int, r as int));
        }
        let start = sym.row_ptr[r];
        let end = sym.row_ptr[r + 1];
        proof {
            assert forall|c: int| 0 <= c < n implies #[trigger] col_built_partial(sym, rows@[c]@, vals@[c]@, c, r as int, start as int, n as int) by {
                assert(col_built(sym, rows@[c]@, vals@[c]@, c, r as int, n as int));
            }
        }
        let mut idx = start;
        while idx < end
            invariant
                n == sym.n,
                sym.wf(),
                0 <= r < n,
                start == sym.start(r as int),
                end == sym.end(r as int),
                end <= sym.col_idx@.len(),
                start <= idx <= end,
                upper_row_ok(sym.row_ptr@, sym.col_idx@, n as int, r as int),
                rows@.len() == n,
                vals@.len() == n,
                forall|c: int| 0 <= c < n ==> #[trigger] col_built_partial(sym, rows@[c]@, vals@[c]@, c, r as int, idx as int, n as int),
            decreases end - idx,
        {
            let c = sym.col_idx[idx];
            let v = sym.values[idx];
            proof {
                sym.lemma_slot_is(r as int, c as int, idx as int);
            }
            let ghost b = (rows@, vals@);
            rows[c].push(r);
            vals[c].push(v);
            if c != r {
                rows[r].push(c);
                vals[r].push(v);
            }
            proof {
                assert(b.0.len() == n && b.1.len() == n);
                lemma_col_step(sym, b.0, b.1, rows@, vals@, r as int, idx as int, c as int, n as int);
            }
            idx = idx + 1;
        }
        proof {
            assert forall|c: int| 0 <= c < n implies #[trigger] col_built(sym, rows@[c]@, vals@[c]@, c, r + 1, n as int) by {
                assert(col_built_partial(sym, rows@[c]@, vals@[c]@, c, r as int, end as int, n as int));
                lemma_col_row_done(sym, rows@[c]@, vals@[c]@, c, r as int, n as int);
            }
        }
        r = r + 1;
    }
    // concatenate the columns
    proof {
        assert forall|q: int| 0 <= q < rows@.len() implies #[trigger] rows@[q]@.len() == vals@[q]@.len() by {
            assert(col_built(sym, rows@[q]@, vals@[q]@, q, n as int, n as int));
        }
    }
    let (col_ptr, row_idx, values) = concat_lines(&rows, &vals);
    let csc = CscMatrix { values, row_idx, col_ptr, nrows: n, ncols: n };
    proof {
        assert forall|j: int| 0 <= j < n implies #[trigger] csc.col_rows(j) == rows@[j]@ && csc.col_vals(j) == vals@[j]@ by {
            assert(segment_is(col_ptr@, row_idx@, values@, j, rows@[j]@, vals@[j]@));
        }
        assert forall|j: int| 0 <= j < n implies strictly_sorted(#[trigger] csc.col_rows(j)) by {
            assert(col_built(sym, rows@[j]@, vals@[j]@, j, n as int, n as int));
        }
        assert forall|cc: int, rr: usize| 0 <= cc < n implies (#[trigger] csc.col_rows(cc).contains(rr) <==> (rr < n && full_entry(sym, rr as int, cc))) by {
            assert(col_built(sym, rows@[cc]@, vals@[cc]@, cc, n as int, n as int));
            assert(csc.col_rows(cc).contains(rr) <==> in_col(sym, cc, n as int, sym.row_ptr@[n as int] as int, rr as int));
            if slot_before(sym, n as int, rr as int, sym.row_ptr@[n as int] as int) {
                let k = choose|k: int| k < sym.row_ptr@[n as int] && #[trigger] sym.is_slot(n as int, rr as int, k);
            }
            if slot_before(sym, n as int, cc, sym.row_ptr@[n as int] as int) {
                let k = choose|k: int| k < sym.row_ptr@[n as int] && #[trigger] sym.is_slot(n as int, cc, k);
            }
            if cc < rr && sym.stored(cc, rr as int) {
                let k = choose|k: int| #[trigger] sym.is_slot(cc, rr as int, k);
                sym.lemma_row_bounds(cc);
                assert(upper_row_ok(sym.row_ptr@, sym.col_idx@, n as int, cc));
            }
        }
        assert forall|j: int, k: int| 0 <= j < n && 0 <= k < csc.col_rows(j).len() implies #[trigger] csc.col_rows(j)[k] < n by {
            assert(col_built(sym, rows@[j]@, vals@[j]@, j, n as int, n as int));
            assert(csc.col_rows(j).contains(csc.col_rows(j)[k]));
        }
        assert forall|cc: int, k: int| 0 <= cc < n && 0 <= k < csc.col_rows(cc).len() implies
            #[trigger] csc.col_vals(cc)[k] == full_value(sym, csc.col_rows(cc)[k] as int, cc) by {
            assert(col_built(sym, rows@[cc]@, vals@[cc]@, cc, n as int, n as int));
        }
        lemma_full_form(&csc, sym);
        assert forall|r: int, c: int| 0 <= r < n && 0 <= c < n implies
            (#[trigger] csc.col_rows(c).contains(r as usize) <==> #[trigger] csc.col_rows(r).contains(c as usize)) by {
            assert(csc.col_rows(c).contains(r as usize) <==> full_entry(sym, r, c));
            assert(csc.col_rows(r).contains(c as usize) <==> full_entry(sym, c, r));
        }
    }
    csc
}

// -----------------------------------------------------------------
// CSR and CSC of the same matrix
// -----------------------------------------------------------------

/// Convert a general CSR matrix to CSC: the same entries, with the same
/// values, stored column by column (rows ascending).
pub fn csr_to_csc<T: SparseScalar>(csr: &CsrMatrix<T>) -> (csc: CscMatrix<T>)
    requires
        csr.wf(),
    ensures
        csc.wf(),
        csc.nrows == csr.nrows,
        csc.ncols == csr.ncols,
        forall|r: int, c: int| #[trigger] csc.stored(r, c) <==> csr.stored(r, c),
        forall|r: int, c: int| #[trigger] csc.stored(r, c) ==> csc.value_at(r, c) == csr.value_at(r, c),
{
    let (col_ptr, row_idx, values) = transpose_lines(&csr.row_ptr, &csr.col_idx, &csr.values, csr.nrows, csr.ncols);
    let csc = CscMatrix { values, row_idx, col_ptr, nrows: csr.nrows, ncols: csr.ncols };
    proof {
        csc.lemma_from_lines();
        assert forall|r: int, c: int| #[trigger] csc.stored(r, c) <==> csr.stored(r, c) by {
            if csr.stored(r, c) {
                csr.lemma_slot(r, c);
            }
        }
    }
    csc
}

/// Convert a CSC matrix to CSR: the same entries, with the same values,
/// stored row by row (columns ascending).
pub fn csc_to_csr<T: SparseScalar>(csc: &CscMatrix<T>) -> (csr: CsrMatrix<T>)
    requires
        csc.wf(),
    ensures
        csr.wf(),
        csr.nrows == csc.nrows,
        csr.ncols == csc.ncols,
        forall|r: int, c: int| #[trigger] csr.stored(r, c) <==> csc.stored(r, c),
        forall|r: int, c: int| #[trigger] csr.stored(r, c) ==> csr.value_at(r, c) == csc.value_at(r, c),
{
    proof {
        csc.lemma_lines();
    }
    let (row_ptr, col_idx, values) = transpose_lines(&csc.col_ptr, &csc.row_idx, &csc.values, csc.ncols, csc.nrows);
    let csr = CsrMatrix { values, col_idx, row_ptr, nrows: csc.nrows, ncols: csc.ncols };
    proof {
        assert forall|r: int, c: int| #[trigger] csr.stored(r, c) <==> csc.stored(r, c) by {
            if csc.stored(r, c) {
                csc.lemma_slot(r, c);
            }
        }
    }
    csr
}

// -----------------------------------------------------------------
// Upper triangle of a square CSR matrix
// -----------------------------------------------------------------

/// Extract the upper triangle of a square CSR matrix: the pattern of the
/// result is the upper-triangle pattern of `csr` plus the diagonal, each
/// entry of `csr` on or above the diagonal added once to a zero, the
/// entries below it discarded.
///
/// Error: `NotSquare` for a rectangular matrix.
pub fn csr_to_sym<T: SparseScalar>(csr: &CsrMatrix<T>) -> (r: Result<SymCsrMatrix<T>, SparseError>)
    requires
        csr.wf(),
    ensures
        csr.nrows != csr.ncols ==> r == Err::<SymCsrMatrix<T>, SparseError>(
            SparseError::NotSquare { nrows: csr.nrows, ncols: csr.ncols },
        ),
        csr.nrows == csr.ncols ==> r is Ok,
        r matches Ok(sym) ==> {
            &&& sym.wf()
            &&& sym.n == csr.nrows
            &&& forall|a: int, b: int| 0 <= a <= b < sym.n ==> (#[trigger] sym.stored(a, b) <==> (csr.stored(a, b) || a == b))
            &&& forall|a: int, b: int| 0 <= a <= b < sym.n && #[trigger] csr.stored(a, b) ==>
                zero_plus(csr.value_at(a, b), sym.value_at(a, b))
            &&& forall|a: int| 0 <= a < sym.n && !#[trigger] csr.stored(a, a) ==> is_zero_value(sym.value_at(a, a))
        },
{
    if csr.nrows != csr.ncols {
        return Err(SparseError::NotSquare { nrows: csr.nrows, ncols: csr.ncols });
    }
    let n = csr.nrows;
    let mut pattern: Vec<Vec<usize>> = Vec::new();
    let mut q: usize = 0;
    while q < n
        invariant
            0 <= q <= n,
            pattern@.len() == q,
            forall|i: int| 0 <= i < q ==> #[trigger] pattern@[i]@.len() == 0,
        decreases n - q,
    {
        pattern.push(Vec::new());
        q = q + 1;
    }
    // the upper-triangle columns of every row
    let mut row: usize = 0;
    while row < n
        invariant
            csr.wf(),
            n == csr.nrows,
            n == csr.ncols,
            0 <= row <= n,
            pattern@.len() == n,
            forall|i: int, c: usize| 0 <= i < n ==> (#[trigger] pattern@[i]@.contains(c) <==> (
                i < row && i <= c && csr.stored(i, c as int))),
        decreases n - row,
    {
        proof {
            crate::compressed::lemma_line_bounds(csr.row_ptr@, csr.col_idx@, n as int, n as int, row as int);
        }
        let start = csr.row_ptr[row];
        let end = csr.row_ptr[row + 1];
        let mut t = start;
        while t < end
            invariant
                csr.wf(),
                n == csr.nrows,
                n == csr.ncols,
                0 <= row < n,
                start == csr.row_ptr@[row as int],
                end == csr.row_ptr@[row + 1],
                end <= csr.col_idx@.len(),
                start <= t <= end,
                pattern@.len() == n,
                forall|i: int, c: usize| 0 <= i < n ==> (#[trigger] pattern@[i]@.contains(c) <==> (
                    (i < row && i <= c && csr.stored(i, c as int))
                    || (i == row && row <= c && exists|k: int| start <= k < t && #[trigger] csr.col_idx@[k] == c))),
            decreases end - t,
        {
            let c = csr.col_idx[t];
            if c >= row {
                let ghost before = pattern@;
                pattern[row].push(c);
                proof {
                    crate::sym::lemma_pattern_push(before, pattern@, row as int, c);
                }
            }
            proof {
                assert forall|i: int, cc: usize| 0 <= i < n implies (#[trigger] pattern@[i]@.contains(cc) <==> (
                    (i < row && i <= cc && csr.stored(i, cc as int))
                    || (i == row && row <= cc && exists|k: int| start <= k < t + 1 && #[trigger] csr.col_idx@[k] == cc))) by {
                    if exists|k: int| start <= k < t + 1 && #[trigger] csr.col_idx@[k] == cc {
                        let k = choose|k: int| start <= k < t + 1 && #[trigger] csr.col_idx@[k] == cc;
                        if k < t {
                            assert(exists|k2: int| start <= k2 < t && #[trigger] csr.col_idx@[k2] == cc);
                        }
                    }
                }
            }
            t = t + 1;
        }
        proof {
            assert forall|i: int, c: usize| 0 <= i < n implies (#[trigger] pattern@[i]@.contains(c) <==> (
                i < row + 1 && i <= c && csr.stored(i, c as int))) by {
                if i == row {
                    if exists|k: int| start <= k < end && #[trigger] csr.col_idx@[k] == c {
                        let k = choose|k: int| start <= k < end && #[trigger] csr.col_idx@[k] == c;
                        assert(crate::compressed::is_line_slot(csr.row_ptr@, csr.col_idx@, row as int, c as int, k));
                    }
                    if csr.stored(i, c as int) {
                        let k = csr.slot(i, c as int);
                        csr.lemma_slot(i, c as int);
                        assert(start <= k < end && csr.col_idx@[k] == c);
                    }
                }
            }
        }
        row = row + 1;
    }
    proof {
        assert forall|i: int, k: int| !#[trigger] upper_entry_bad(n, pattern@, i, k) by {
            if 0 <= i < pattern@.len() && 0 <= k < pattern@[i]@.len() {
                let c = pattern@[i]@[k];
                assert(pattern@[i]@.contains(c));
                csr.lemma_slot(i, c as int);
            }
        }
    }
    let mut sym = match SymCsrMatrix::from_pattern(n, &pattern) {
        Ok(m) => m,
        Err(e) => {
            proof {
                assert(false);
            }
            return Err(e);
        },
    };
    let ghost sym0 = sym;
    let ghost z = sym0.values@[0];
    proof {
        if sym0.values@.len() > 0 {
            assert(is_zero_value(sym0.values@[0]));
        }
    }
    // add the upper-triangle values
    let mut row: usize = 0;
    while row < n
        invariant
            csr.wf(),
            n == csr.nrows,
            n == csr.ncols,
            0 <= row <= n,
            sym0.wf(),
            sym0.n == n,
            sym0.all_zero(),
            z == sym0.values@[0],
            forall|i: int, c: usize| 0 <= i < n ==> (sym0.stored(i, c as int) <==> (pattern@[i]@.contains(c) || c == i)),
            forall|i: int, c: usize| 0 <= i < n ==> (#[trigger] pattern@[i]@.contains(c) <==> (i <= c && csr.stored(i, c as int))),
            sym.wf(),
            sym.same_pattern(&sym0),
            forall|a: int, b: int| 0 <= a <= b < n && #[trigger] sym0.stored(a, b) ==> {
                let k = sym0.slot(a, b);
                if csr.stored(a, b) && csr.slot(a, b) < csr.row_ptr@[row as int] {
                    call_ensures(T::plus, (z, csr.value_at(a, b)), sym.values@[k])
                } else {
                    sym.values@[k] == z
                }
            },
        decreases n - row,
    {
        proof {
            crate::compressed::lemma_line_bounds(csr.row_ptr@, csr.col_idx@, n as int, n as int, row as int);
        }
        let start = csr.row_ptr[row];
        let end = csr.row_ptr[row + 1];
        let mut t = start;
        while t < end
            invariant
                csr.wf(),
                n == csr.nrows,
                n == csr.ncols,
                0 <= row < n,
                start == csr.row_ptr@[row as int],
                end == csr.row_ptr@[row + 1],
                end <= csr.col_idx@.len(),
                start <= t <= end,
                sym0.wf(),
                sym0.n == n,
                sym0.all_zero(),
                z == sym0.values@[0],
                forall|i: int, c: usize| 0 <= i < n ==> (sym0.stored(i, c as int) <==> (pattern@[i]@.contains(c) || c == i)),
                forall|i: int, c: usize| 0 <= i < n ==> (#[trigger] pattern@[i]@.contains(c) <==> (i <= c && csr.stored(i, c as int))),
                sym.wf(),
                sym.same_pattern(&sym0),
                forall|a: int, b: int| 0 <= a <= b < n && #[trigger] sym0.stored(a, b) ==> {
                    let k = sym0.slot(a, b);
                    if csr.stored(a, b) && csr.slot(a, b) < t {
                        call_ensures(T::plus, (z, csr.value_at(a, b)), sym.values@[k])
                    } else {
                        sym.values@[k] == z
                    }
                },
            decreases end - t,
        {
            let c = csr.col_idx[t];
            let v = csr.values[t];
            proof {
                assert(crate::compressed::is_line_slot(csr.row_ptr@, csr.col_idx@, row as int, c as int, t as int));
                csr.lemma_slot_is(row as int, c as int, t as int);
            }
            if c >= row {
                let ghost before = sym;
                proof {
                    assert(pattern@[row as int]@.contains(c));
                    assert(sym0.stored(row as int, c as int));
                    sym0.lemma_same_pattern_slot_all(sym);
                }
                let res = sym.add_value(row, c, v);
                proof {
                    assert(crate::sym::upper_check(n, row, c) is None);
                    assert(before.stored(row as int, c as int));
                    assert(res is Ok);
                    let k0 = sym0.slot(row as int, c as int);
                    assert(before.slot(row as int, c as int) == k0);
                    assert(before.values@[k0] == z);
                    assert forall|a: int, b: int| 0 <= a <= b < n && #[trigger] sym0.stored(a, b) implies {
                        let k = sym0.slot(a, b);
                        if csr.stored(a, b) && csr.slot(a, b) < t + 1 {
                            call_ensures(T::plus, (z, csr.value_at(a, b)), sym.values@[k])
                        } else {
                            sym.values@[k] == z
                        }
                    } by {
                        let k = sym0.slot(a, b);
                        if k == k0 {
                            sym0.lemma_slot_injective(a, b, row as int, c as int);
                        } else {
                            sym0.lemma_row_bounds(a);
                            sym0.lemma_slot_is(a, b, k);
                            assert(sym.values@[k] == before.values@[k]);
                            if csr.stored(a, b) && csr.slot(a, b) == t {
                                assert(a == row && b == c) by {
                                    csr.lemma_slot(a, b);
                                    crate::compressed::lemma_line_slot_injective(csr.row_ptr@, csr.col_idx@, n as int, n as int, a, b, row as int, c as int);
                                }
                            }
                        }
                    }
                }
            } else {
                proof {
                    assert forall|a: int, b: int| 0 <= a <= b < n && #[trigger] sym0.stored(a, b) implies {
                        let k = sym0.slot(a, b);
                        if csr.stored(a, b) && csr.slot(a, b) < t + 1 {
                            call_ensures(T::plus, (z, csr.value_at(a, b)), sym.values@[k])
                        } else {
                            sym.values@[k] == z
                        }
                    } by {
                        if csr.stored(a, b) && csr.slot(a, b) == t {
                            csr.lemma_slot(a, b);
                            crate::compressed::lemma_line_slot_injective(csr.row_ptr@, csr.col_idx@, n as int, n as int, a, b, row as int, c as int);
                        }
                    }
                }
            }
            t = t + 1;
        }
        row = row + 1;
    }
    proof {
        assert(csr.row_ptr@[n as int] == csr.values@.len());
        sym0.lemma_same_pattern_slot_all(sym);
        assert forall|a: int, b: int| 0 <= a <= b < sym.n implies (#[trigger] sym.stored(a, b) <==> (csr.stored(a, b) || a == b)) by {
            let bu = b as usize;
            assert(bu as int == b);
            assert(sym0.stored(a, bu as int) <==> (pattern@[a]@.contains(bu) || bu == a));
            assert(pattern@[a]@.contains(bu) <==> (a <= bu && csr.stored(a, bu as int)));
            assert(sym.stored(a, b) <==> sym0.stored(a, b));
            if csr.stored(a, b) {
                csr.lemma_slot(a, b);
                assert(pattern@[a]@.contains(b as usize));
            }
            if sym.stored(a, b) && a != b {
                assert(sym0.stored(a, b));
                sym0.lemma_row_bounds(a);
                let k = sym0.slot(a, b);
                assert(sym0.is_slot(a, b, k));
                assert(b == sym0.col_idx@[k]);
                assert(pattern@[a]@.contains(b as usize));
            }
        }
        assert forall|a: int, b: int| 0 <= a <= b < sym.n && #[trigger] csr.stored(a, b) implies
            zero_plus(csr.value_at(a, b), sym.value_at(a, b)) by {
            csr.lemma_slot(a, b);
            assert(pattern@[a]@.contains(b as usize));
            assert(sym0.stored(a, b));
            assert(is_zero_value(z));
            assert(call_ensures(T::plus, (z, csr.value_at(a, b)), sym.values@[sym0.slot(a, b)]));
        }
        assert forall|a: int| 0 <= a < sym.n && !#[trigger] csr.stored(a, a) implies is_zero_value(sym.value_at(a, a)) by {
            assert(sym0.stored(a, a));
            sym0.lemma_row_bounds(a);
            sym0.lemma_slot_is(a, a, sym0.slot(a, a));
        }
    }
    Ok(sym)
}


// -----------------------------------------------------------------
// Laws
// -----------------------------------------------------------------

/// The full form of a symmetric matrix is symmetric: `(r, c)` is stored
/// exactly when `(c, r)` is, with the same value.
pub proof fn lemma_full_form_symmetric<T>(csc: &CscMatrix<T>, sym: &SymCsrMatrix<T>)
    requires
        full_form(csc, sym),
    ensures
        forall|r: int, c: int| 0 <= r < sym.n && 0 <= c < sym.n ==> (#[trigger] csc.stored(r, c) <==> #[trigger] csc.stored(c, r)),
        forall|r: int, c: int| 0 <= r < sym.n && 0 <= c < sym.n && #[trigger] csc.stored(r, c) ==>
            csc.value_at(r, c) == #[trigger] csc.value_at(c, r),
{
    assert forall|r: int, c: int| 0 <= r < sym.n && 0 <= c < sym.n implies (#[trigger] csc.stored(r, c) <==> #[trigger] csc.stored(c, r)) by {
        assert(csc.stored(r, c) <==> full_entry(sym, r, c));
        assert(csc.stored(c, r) <==> full_entry(sym, c, r));
    }
    assert forall|r: int, c: int| 0 <= r < sym.n && 0 <= c < sym.n && #[trigger] csc.stored(r, c) implies
        csc.value_at(r, c) == #[trigger] csc.value_at(c, r) by {
        assert(csc.stored(c, r) <==> full_entry(sym, c, r));
        assert(csc.stored(r, c) <==> full_entry(sym, r, c));
    }
}

/// Converting CSR to CSC and back gives the same matrix, down to its
/// storage: the same row pointers, column indices and values.
pub proof fn lemma_csr_csc_roundtrip<T: SparseScalar>(a: &CsrMatrix<T>, c: &CscMatrix<T>, b: &CsrMatrix<T>)
    requires
        a.wf(),
        b.wf(),
        c.nrows == a.nrows && c.ncols == a.ncols,
        forall|r: int, k: int| #[trigger] c.stored(r, k) <==> a.stored(r, k),
        forall|r: int, k: int| #[trigger] c.stored(r, k) ==> c.value_at(r, k) == a.value_at(r, k),
        b.nrows == c.nrows && b.ncols == c.ncols,
        forall|r: int, k: int| #[trigger] b.stored(r, k) <==> c.stored(r, k),
        forall|r: int, k: int| #[trigger] b.stored(r, k) ==> b.value_at(r, k) == c.value_at(r, k),
    ensures
        b.same_pattern(a),
        b.values@ == a.values@,
{
    assert forall|r: int, k: int| #[trigger] b.stored(r, k) <==> a.stored(r, k) by {
        assert(b.stored(r, k) <==> c.stored(r, k));
    }
    assert forall|r: int, k: int| #[trigger] b.stored(r, k) implies b.value_at(r, k) == a.value_at(r, k) by {
        assert(c.stored(r, k));
    }
    lemma_same_entries_same_storage(a, b);
}

/// Two well-formed CSR matrices of one shape that store the same entries
/// with the same values have the same storage.
pub proof fn lemma_same_entries_same_storage<T>(a: &CsrMatrix<T>, b: &CsrMatrix<T>)
    requires
        a.wf(),
        b.wf(),
        b.nrows == a.nrows && b.ncols == a.ncols,
        forall|r: int, k: int| #[trigger] b.stored(r, k) <==> a.stored(r, k),
        forall|r: int, k: int| #[trigger] b.stored(r, k) ==> b.value_at(r, k) == a.value_at(r, k),
    ensures
        b.same_pattern(a),
        b.values@ == a.values@,
{
    let n = a.nrows as int;
    let m = a.ncols as int;
    assert forall|j: int, i: int| 0 <= j < n implies
        (#[trigger] line_has(a.row_ptr@, a.col_idx@, j, i) <==> line_has(b.row_ptr@, b.col_idx@, j, i)) by {
        assert(a.stored(j, i) <==> b.stored(j, i));
    }
    crate::compressed::lemma_lines_canonical(a.row_ptr@, a.col_idx@, b.row_ptr@, b.col_idx@, n, m);
    assert forall|t: int| 0 <= t < a.values@.len() implies a.values@[t] == b.values@[t] by {
        crate::compressed::lemma_line_of(a.row_ptr@, a.col_idx@, n, m, t);
        let j = crate::compressed::line_of(a.row_ptr@, n, t);
        let i = a.col_idx@[t] as int;
        a.lemma_slot_is(j, i, t);
        b.lemma_slot_is(j, i, t);
        assert(b.stored(j, i));
    }
    assert(a.values@ =~= b.values@);
}

} // verus!
