//! What the left-looking factorizations compute, column by column.
//!
//! Column `j` of the factor starts from the rows `>= j` of column `j` of
//! `K`, scattered into a dense work column.  Every earlier column `c` whose
//! pattern holds row `j` (and whose ancestors up to `j` do too) then
//! subtracts its contribution from the rows it holds at or below `j`.  The
//! specifications below name the columns that update `j`, the storage
//! positions of their entries, and the resulting work column.
use vstd::prelude::*;
use crate::cholesky::symbolic::SymbolicCholesky;
use crate::compressed::{line_has, line_slot, is_line_slot, lines_ok, lemma_line_slot_is, lemma_line_bounds};
use crate::csc::CscMatrix;
use crate::scalar::{SparseScalar, is_zero_value, subtracted_in_order};

verus! {

/// Column `c < j` of the factor holds row `j`, and so does every ancestor
/// of `c` below `j`: the left-looking update of column `j` reaches `c`
/// through its ancestors and subtracts its entries.
pub open spec fn updates_column(sym: &SymbolicCholesky, j: int, c: int) -> bool
    decreases j - c,
{
    if 0 <= c < j && c < sym.parent@[c] {
        &&& sym.col(c).contains(j as usize)
        &&& (sym.parent@[c] == j || (sym.parent@[c] < j && updates_column(sym, j, sym.parent@[c] as int)))
    } else {
        false
    }
}

/// The storage positions of column `c` from its row `j` down, each with
/// the position of `L[j, c]` and the column `c`.
pub open spec fn update_block(sym: &SymbolicCholesky, c: int, j: int) -> Seq<(int, int, int)> {
    let pj = line_slot(sym.col_ptr@, sym.row_idx@, c, j);
    Seq::new((sym.col_ptr@[c + 1] - pj) as nat, |t: int| (pj + t, pj, c))
}

/// The update positions of the columns of `order`, in that order.
pub open spec fn update_positions(sym: &SymbolicCholesky, j: int, order: Seq<usize>) -> Seq<(int, int, int)>
    decreases order.len(),
{
    if order.len() == 0 {
        Seq::empty()
    } else {
        update_positions(sym, j, order.drop_last()) + update_block(sym, order.last() as int, j)
    }
}

/// The subtractions: update `t` takes `prods[t]` off the row of position
/// `pos[t].0`.
pub open spec fn subtractions<T>(sym: &SymbolicCholesky, pos: Seq<(int, int, int)>, prods: Seq<T>) -> Seq<(int, T)> {
    Seq::new(pos.len(), |t: int| (sym.row_idx@[pos[t].0] as int, prods[t]))
}

/// `w` holds the rows `>= j` of column `j` of `K`, and zero values in every
/// other row.
pub open spec fn scattered_column<T: SparseScalar>(k: &CscMatrix<T>, j: int, w: Seq<T>) -> bool {
    &&& w.len() == k.nrows
    &&& forall|i: int| 0 <= i < w.len() && j <= i && k.stored(i, j) ==> #[trigger] w[i] == k.value_at(i, j)
    &&& forall|i: int| 0 <= i < w.len() && !(j <= i && k.stored(i, j)) ==> is_zero_value(#[trigger] w[i])
}

/// `order` lists, once each, exactly the columns that update column `j`.
pub open spec fn update_order(sym: &SymbolicCholesky, j: int, order: Seq<usize>) -> bool {
    &&& order.no_duplicates()
    &&& forall|c: usize| #[trigger] order.contains(c) <==> updates_column(sym, j, c as int)
}

// -----------------------------------------------------------------
// Lemmas on the update positions
// -----------------------------------------------------------------

/// Every update position of a column that updates `j` lies in that column,
/// at or below its entry in row `j`; so all of them precede column `j`.
pub proof fn lemma_update_positions_bounds(sym: &SymbolicCholesky, j: int, order: Seq<usize>)
    requires
        sym.wf(),
        0 <= j < sym.n,
        forall|x: int| 0 <= x < order.len() ==> #[trigger] updates_column(sym, j, order[x] as int),
    ensures
        forall|t: int| 0 <= t < update_positions(sym, j, order).len() ==> {
            let p = #[trigger] update_positions(sym, j, order)[t];
            &&& 0 <= p.1 <= p.0 < sym.col_ptr@[j]
            &&& 0 <= p.2 < j
            &&& sym.col_ptr@[p.2] <= p.1
            &&& p.0 < sym.col_ptr@[p.2 + 1]
            &&& sym.row_idx@[p.1] == j
            &&& sym.row_idx@[p.0] >= j
            &&& sym.row_idx@[p.0] < sym.n
        },
    decreases order.len(),
{
    if order.len() > 0 {
        let prev = order.drop_last();
        assert forall|x: int| 0 <= x < prev.len() implies #[trigger] updates_column(sym, j, prev[x] as int) by {
            assert(prev[x] == order[x]);
        }
        lemma_update_positions_bounds(sym, j, prev);
        let c = order.last() as int;
        assert(updates_column(sym, j, order[order.len() - 1] as int));
        lemma_block_bounds(sym, c, j);
        let a = update_positions(sym, j, prev);
        let b = update_block(sym, c, j);
        assert forall|t: int| 0 <= t < update_positions(sym, j, order).len() implies {
            let p = #[trigger] update_positions(sym, j, order)[t];
            &&& 0 <= p.1 <= p.0 < sym.col_ptr@[j]
            &&& 0 <= p.2 < j
            &&& sym.col_ptr@[p.2] <= p.1
            &&& p.0 < sym.col_ptr@[p.2 + 1]
            &&& sym.row_idx@[p.1] == j
            &&& sym.row_idx@[p.0] >= j
            &&& sym.row_idx@[p.0] < sym.n
        } by {
            if t < a.len() {
                assert(update_positions(sym, j, order)[t] == a[t]);
            } else {
                assert(update_positions(sym, j, order)[t] == b[t - a.len()]);
            }
        }
    }
}

/// The block of a column `c` that updates `j`.
pub proof fn lemma_block_bounds(sym: &SymbolicCholesky, c: int, j: int)
    requires
        sym.wf(),
        0 <= j < sym.n,
        updates_column(sym, j, c),
    ensures
        is_line_slot(sym.col_ptr@, sym.row_idx@, c, j, line_slot(sym.col_ptr@, sym.row_idx@, c, j)),
        forall|t: int| 0 <= t < update_block(sym, c, j).len() ==> {
            let p = #[trigger] update_block(sym, c, j)[t];
            &&& 0 <= p.1 <= p.0 < sym.col_ptr@[j]
            &&& 0 <= p.2 < j
            &&& sym.col_ptr@[p.2] <= p.1
            &&& p.0 < sym.col_ptr@[p.2 + 1]
            &&& sym.row_idx@[p.1] == j
            &&& sym.row_idx@[p.0] >= j
            &&& sym.row_idx@[p.0] < sym.n
        },
{
    sym.lemma_lines();
    let cp = sym.col_ptr@;
    let ri = sym.row_idx@;
    let n = sym.n as int;
    assert(0 <= c < j);
    let col = sym.col(c);
    assert(col.contains(j as usize));
    let q = choose|q: int| 0 <= q < col.len() && col[q] == j as usize;
    lemma_line_bounds(cp, ri, n, n, c);
    assert(is_line_slot(cp, ri, c, j, cp[c] + q));
    lemma_line_slot_is(cp, ri, n, n, c, j, cp[c] + q);
    let pj = line_slot(cp, ri, c, j);
    assert(cp[c + 1] <= cp[j]) by {
        assert(cp[c + 1] <= cp[j]);
    }
    assert forall|t: int| 0 <= t < update_block(sym, c, j).len() implies {
        let p = #[trigger] update_block(sym, c, j)[t];
        &&& 0 <= p.1 <= p.0 < cp[j]
        &&& 0 <= p.2 < j
        &&& cp[p.2] <= p.1
        &&& p.0 < cp[p.2 + 1]
        &&& ri[p.1] == j
        &&& ri[p.0] >= j
        &&& ri[p.0] < n
    } by {
        let p = update_block(sym, c, j)[t];
        assert(p == (pj + t, pj, c));
        if t > 0 {
            assert(crate::compressed::line_sorted(cp, ri, c));
            assert(ri[pj] < ri[pj + t]);
        }
        assert(ri[pj + t] < n);
    }
}

/// The positions of `order` followed by the block of `c`.
pub proof fn lemma_update_positions_push(sym: &SymbolicCholesky, j: int, order: Seq<usize>, c: usize)
    ensures
        update_positions(sym, j, order.push(c)) == update_positions(sym, j, order) + update_block(sym, c as int, j),
{
    assert(order.push(c).drop_last() =~= order);
}

/// Extending the positions and products by one keeps the earlier
/// subtractions.
pub proof fn lemma_subtractions_push<T>(sym: &SymbolicCholesky, pos: Seq<(int, int, int)>, prods: Seq<T>, p: (int, int, int), v: T)
    requires
        prods.len() == pos.len(),
    ensures
        subtractions(sym, pos.push(p), prods.push(v)) == subtractions(sym, pos, prods).push((sym.row_idx@[p.0] as int, v)),
{
    assert(subtractions(sym, pos.push(p), prods.push(v)) =~= subtractions(sym, pos, prods).push((sym.row_idx@[p.0] as int, v)));
}

// -----------------------------------------------------------------
// The traversal that finds the updating columns
// -----------------------------------------------------------------

/// Every column that updates `j` and is not yet in `order` is on the
/// stack, or its parent is below `j`, updates `j` and is not in `order`
/// either.
pub open spec fn pending_ok(sym: &SymbolicCholesky, j: int, stack: Seq<usize>, order: Seq<usize>) -> bool {
    forall|c: usize| #[trigger] updates_column(sym, j, c as int) && !order.contains(c) ==> (stack.contains(c) || (
        sym.parent@[c as int] != j && updates_column(sym, j, sym.parent@[c as int] as int) && !order.contains(
            sym.parent@[c as int],
        )))
}

/// With the stack empty, `order` holds every column that updates `j`.
pub proof fn lemma_pending_done(sym: &SymbolicCholesky, j: int, order: Seq<usize>, c: usize)
    requires
        pending_ok(sym, j, Seq::empty(), order),
        updates_column(sym, j, c as int),
    ensures
        order.contains(c),
    decreases j - c,
{
    if !order.contains(c) {
        assert(!Seq::<usize>::empty().contains(c));
        let p = sym.parent@[c as int];
        assert(updates_column(sym, j, p as int));
        assert(c < p);
        lemma_pending_done(sym, j, order, p);
    }
}

} // verus!
