//! Triangular solves as sequences of elementary steps on a work vector.
use vstd::prelude::*;
use crate::scalar::SparseScalar;

verus! {

/// An elementary step of a triangular solve on the work vector `u`.
#[derive(Debug, Clone, Copy, PartialEq, Eq)]
pub enum SolveOp {
    /// `u[at] = u[at] / d[by]`.
    Divide { at: usize, by: usize },
    /// `u[at] = u[at] - l[by] * u[src]`.
    SubtractProduct { at: usize, by: usize, src: usize },
}

/// The entry of the work vector that `op` changes.
pub open spec fn step_target(op: SolveOp) -> int {
    match op {
        SolveOp::Divide { at, .. } => at as int,
        SolveOp::SubtractProduct { at, .. } => at as int,
    }
}

/// The entry of the work vector that `op` reads besides its target.
pub open spec fn step_source(op: SolveOp) -> int {
    match op {
        SolveOp::Divide { at, .. } => at as int,
        SolveOp::SubtractProduct { src, .. } => src as int,
    }
}

/// The factor slot that `op` uses.
pub open spec fn step_slot(op: SolveOp) -> int {
    match op {
        SolveOp::Divide { by, .. } => by as int,
        SolveOp::SubtractProduct { by, .. } => by as int,
    }
}

/// `next` is `prev` after `op`, with factor entries `l` and divisors `d`;
/// a subtraction step takes off the product `p = l[by] * u[src]` (a
/// division step does not use `p`).
pub open spec fn solve_step<T: SparseScalar>(l: Seq<T>, d: Seq<T>, prev: Seq<T>, next: Seq<T>, op: SolveOp, p: T) -> bool {
    match op {
        SolveOp::Divide { at, by } => {
            &&& at < prev.len()
            &&& next == prev.update(at as int, next[at as int])
            &&& call_ensures(T::divided_by, (prev[at as int], d[by as int]), next[at as int])
        },
        SolveOp::SubtractProduct { at, by, src } => {
            &&& at < prev.len()
            &&& next == prev.update(at as int, next[at as int])
            &&& call_ensures(T::times, (l[by as int], prev[src as int]), p)
            &&& call_ensures(T::minus, (prev[at as int], p), next[at as int])
        },
    }
}

/// `states` records the work vector before and after each step of `ops`,
/// and `prods` the product each step uses.
pub open spec fn solve_chain<T: SparseScalar>(
    l: Seq<T>,
    d: Seq<T>,
    before: Seq<T>,
    after: Seq<T>,
    ops: Seq<SolveOp>,
    prods: Seq<T>,
    states: Seq<Seq<T>>,
) -> bool {
    &&& states.len() == ops.len() + 1
    &&& prods.len() == ops.len()
    &&& states[0] == before
    &&& states.last() == after
    &&& forall|i: int| 0 <= i < ops.len() ==> #[trigger] solve_step(l, d, states[i], states[i + 1], ops[i], prods[i])
}

/// `after` arises from `before` by the steps of `ops`, in order, with the
/// products `prods`.
pub open spec fn solved_by<T: SparseScalar>(
    l: Seq<T>,
    d: Seq<T>,
    before: Seq<T>,
    after: Seq<T>,
    ops: Seq<SolveOp>,
    prods: Seq<T>,
) -> bool {
    exists|states: Seq<Seq<T>>| solve_chain(l, d, before, after, ops, prods, states)
}

/// No step leaves the work vector as it is.
pub proof fn lemma_solved_none<T: SparseScalar>(l: Seq<T>, d: Seq<T>, before: Seq<T>)
    ensures
        solved_by(l, d, before, before, Seq::<SolveOp>::empty(), Seq::<T>::empty()),
{
    let states = seq![before];
    assert(solve_chain(l, d, before, before, Seq::<SolveOp>::empty(), Seq::<T>::empty(), states));
}

/// One more step extends `solved_by`.
pub proof fn lemma_solved_step<T: SparseScalar>(
    l: Seq<T>,
    d: Seq<T>,
    before: Seq<T>,
    mid: Seq<T>,
    ops: Seq<SolveOp>,
    prods: Seq<T>,
    op: SolveOp,
    p: T,
    next: Seq<T>,
)
    requires
        solved_by(l, d, before, mid, ops, prods),
        solve_step(l, d, mid, next, op, p),
    ensures
        solved_by(l, d, before, next, ops.push(op), prods.push(p)),
{
    let states = choose|states: Seq<Seq<T>>| solve_chain(l, d, before, mid, ops, prods, states);
    let o2 = ops.push(op);
    let p2 = prods.push(p);
    let st = states.push(next);
    assert forall|i: int| 0 <= i < o2.len() implies #[trigger] solve_step(l, d, st[i], st[i + 1], o2[i], p2[i]) by {
        if i < ops.len() {
            assert(solve_step(l, d, states[i], states[i + 1], ops[i], prods[i]));
        }
    }
    assert(solve_chain(l, d, before, next, o2, p2, st));
}

} // verus!
