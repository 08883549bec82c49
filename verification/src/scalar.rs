//! The scalar type stored in the sparse matrices.
use vstd::prelude::*;

verus! {

/// Scalar type stored in the sparse matrices and used by the solvers.
///
/// The library never inspects values itself: every arithmetic step goes
/// through these methods, and the contracts of the library relate inputs and
/// outputs through `call_ensures` of these methods.  Implementations for
/// real numbers are expected to behave as follows:
///
/// - `is_positive_pivot(v)`: the Cholesky pivot test, accepting unless `v <= 1e-12`;
/// - `is_negligible_pivot(v)`: the LDLᵀ singularity test, `|v| < 1e-14`;
/// - `is_negative(v)`: `v < 0` (for complex types: the real part).
pub trait SparseScalar: Copy + Sized {
    /// Additive identity.
    fn zero() -> Self;
    /// Multiplicative identity.
    fn one() -> Self;
    /// `self + rhs`.
    fn plus(self, rhs: Self) -> Self;
    /// `self - rhs`.
    fn minus(self, rhs: Self) -> Self;
    /// `self * rhs`.
    fn times(self, rhs: Self) -> Self;
    /// `self / rhs`.
    fn divided_by(self, rhs: Self) -> Self;
    /// Square root.
    fn scalar_sqrt(self) -> Self;
    /// `true` if the value is below zero.
    fn is_negative(self) -> bool;
    /// `true` if the value is acceptable as a Cholesky pivot.
    fn is_positive_pivot(self) -> bool;
    /// `true` if the value is too small to be used as an LDLᵀ pivot.
    fn is_negligible_pivot(self) -> bool;
    /// Absolute value.
    fn magnitude(self) -> Self;
    /// `true` if the value is greater than `bound`.
    fn exceeds(self, bound: Self) -> bool;
    /// The value as text, as a matrix printout shows it.
    fn render(self) -> String;
}

/// `v` is a value that `T::zero()` may return.
pub open spec fn is_zero_value<T: SparseScalar>(v: T) -> bool {
    call_ensures(T::zero, (), v)
}

/// `v` is a value that `T::one()` may return.
/// The scalar type has a single zero: every value `zero()` may return is
/// the same value.
pub open spec fn zero_is_unique<T: SparseScalar>() -> bool {
    forall|a: T, b: T| is_zero_value(a) && is_zero_value(b) ==> a == b
}

pub open spec fn is_one_value<T: SparseScalar>(v: T) -> bool {
    call_ensures(T::one, (), v)
}

/// One accumulation step: `next` is `prev` with `u.1` added into slot `u.0`.
pub open spec fn add_step<T: SparseScalar>(prev: Seq<T>, next: Seq<T>, u: (int, T)) -> bool {
    &&& 0 <= u.0 < prev.len()
    &&& next == prev.update(u.0, next[u.0])
    &&& call_ensures(T::plus, (prev[u.0], u.1), next[u.0])
}

/// `states` records the values before and after each step of `updates`.
pub open spec fn add_chain<T: SparseScalar>(
    before: Seq<T>,
    after: Seq<T>,
    updates: Seq<(int, T)>,
    states: Seq<Seq<T>>,
) -> bool {
    &&& states.len() == updates.len() + 1
    &&& states[0] == before
    &&& states.last() == after
    &&& forall|i: int| 0 <= i < updates.len() ==> #[trigger] add_step(states[i], states[i + 1], updates[i])
}

/// `after` arises from `before` by adding, in order, each value `u.1` of
/// `updates` into position `u.0` with `T::plus`.
pub open spec fn added_in_order<T: SparseScalar>(
    before: Seq<T>,
    after: Seq<T>,
    updates: Seq<(int, T)>,
) -> bool {
    exists|states: Seq<Seq<T>>| add_chain(before, after, updates, states)
}

/// No update leaves the values as they are.
pub proof fn lemma_added_none<T: SparseScalar>(before: Seq<T>)
    ensures
        added_in_order(before, before, Seq::<(int, T)>::empty()),
{
    let states = seq![before];
    assert(add_chain(before, before, Seq::<(int, T)>::empty(), states));
}

/// One more accumulation step extends `added_in_order`.
pub proof fn lemma_added_step<T: SparseScalar>(
    before: Seq<T>,
    mid: Seq<T>,
    updates: Seq<(int, T)>,
    k: int,
    v: T,
    nv: T,
)
    requires
        added_in_order(before, mid, updates),
        0 <= k < mid.len(),
        call_ensures(T::plus, (mid[k], v), nv),
    ensures
        added_in_order(before, mid.update(k, nv), updates.push((k, v))),
{
    let states = choose|states: Seq<Seq<T>>| add_chain(before, mid, updates, states);
    let after = mid.update(k, nv);
    let ups = updates.push((k, v));
    let st = states.push(after);
    assert(after =~= mid.update(k, after[k]));
    assert forall|i: int| 0 <= i < ups.len() implies #[trigger] add_step(st[i], st[i + 1], ups[i]) by {
        if i < updates.len() {
            assert(add_step(states[i], states[i + 1], updates[i]));
        }
    }
    assert(add_chain(before, after, ups, st));
}

/// Accumulating never changes the length.
pub proof fn lemma_added_len<T: SparseScalar>(before: Seq<T>, after: Seq<T>, updates: Seq<(int, T)>)
    requires
        added_in_order(before, after, updates),
    ensures
        after.len() == before.len(),
{
    let states = choose|states: Seq<Seq<T>>| add_chain(before, after, updates, states);
    assert forall|i: int| 0 <= i <= updates.len() implies #[trigger] states[i].len() == before.len() by {
        lemma_chain_len(before, after, updates, states, i);
    }
}

proof fn lemma_chain_len<T: SparseScalar>(
    before: Seq<T>,
    after: Seq<T>,
    updates: Seq<(int, T)>,
    states: Seq<Seq<T>>,
    i: int,
)
    requires
        add_chain(before, after, updates, states),
        0 <= i <= updates.len(),
    ensures
        states[i].len() == before.len(),
    decreases i,
{
    if i > 0 {
        lemma_chain_len(before, after, updates, states, i - 1);
        let j = i - 1;
        assert(add_step(states[j], states[j + 1], updates[j]));
        assert(j + 1 == i);
    }
}

/// One subtraction step: `next` is `prev` with `u.1` subtracted from slot
/// `u.0`.
pub open spec fn sub_step<T: SparseScalar>(prev: Seq<T>, next: Seq<T>, u: (int, T)) -> bool {
    &&& 0 <= u.0 < prev.len()
    &&& next == prev.update(u.0, next[u.0])
    &&& call_ensures(T::minus, (prev[u.0], u.1), next[u.0])
}

/// `states` records the values before and after each subtraction.
pub open spec fn sub_chain<T: SparseScalar>(
    before: Seq<T>,
    after: Seq<T>,
    updates: Seq<(int, T)>,
    states: Seq<Seq<T>>,
) -> bool {
    &&& states.len() == updates.len() + 1
    &&& states[0] == before
    &&& states.last() == after
    &&& forall|i: int| 0 <= i < updates.len() ==> #[trigger] sub_step(states[i], states[i + 1], updates[i])
}

/// `after` arises from `before` by subtracting, in order, each value `u.1`
/// of `updates` from position `u.0` with `T::minus`.
pub open spec fn subtracted_in_order<T: SparseScalar>(
    before: Seq<T>,
    after: Seq<T>,
    updates: Seq<(int, T)>,
) -> bool {
    exists|states: Seq<Seq<T>>| sub_chain(before, after, updates, states)
}

/// No subtraction leaves the values as they are.
pub proof fn lemma_subtracted_none<T: SparseScalar>(before: Seq<T>)
    ensures
        subtracted_in_order(before, before, Seq::<(int, T)>::empty()),
{
    let states = seq![before];
    assert(sub_chain(before, before, Seq::<(int, T)>::empty(), states));
}

/// One more subtraction extends `subtracted_in_order`.
pub proof fn lemma_subtracted_step<T: SparseScalar>(
    before: Seq<T>,
    mid: Seq<T>,
    updates: Seq<(int, T)>,
    k: int,
    v: T,
    nv: T,
)
    requires
        subtracted_in_order(before, mid, updates),
        0 <= k < mid.len(),
        call_ensures(T::minus, (mid[k], v), nv),
    ensures
        subtracted_in_order(before, mid.update(k, nv), updates.push((k, v))),
{
    let states = choose|states: Seq<Seq<T>>| sub_chain(before, mid, updates, states);
    let after = mid.update(k, nv);
    let ups = updates.push((k, v));
    let st = states.push(after);
    assert(after =~= mid.update(k, after[k]));
    assert forall|i: int| 0 <= i < ups.len() implies #[trigger] sub_step(st[i], st[i + 1], ups[i]) by {
        if i < updates.len() {
            assert(sub_step(states[i], states[i + 1], updates[i]));
        }
    }
    assert(sub_chain(before, after, ups, st));
}

/// Subtracting never changes the length.
pub proof fn lemma_subtracted_len<T: SparseScalar>(before: Seq<T>, after: Seq<T>, updates: Seq<(int, T)>)
    requires
        subtracted_in_order(before, after, updates),
    ensures
        after.len() == before.len(),
{
    let states = choose|states: Seq<Seq<T>>| sub_chain(before, after, updates, states);
    assert forall|i: int| 0 <= i <= updates.len() implies #[trigger] states[i].len() == before.len() by {
        lemma_sub_chain_len(before, after, updates, states, i);
    }
}

proof fn lemma_sub_chain_len<T: SparseScalar>(
    before: Seq<T>,
    after: Seq<T>,
    updates: Seq<(int, T)>,
    states: Seq<Seq<T>>,
    i: int,
)
    requires
        sub_chain(before, after, updates, states),
        0 <= i <= updates.len(),
    ensures
        states[i].len() == before.len(),
    decreases i,
{
    if i > 0 {
        lemma_sub_chain_len(before, after, updates, states, i - 1);
        let j = i - 1;
        assert(sub_step(states[j], states[j + 1], updates[j]));
        assert(j + 1 == i);
    }
}


/// Accumulations into distinct positions: each updated position ends as its
/// value before plus its update, and every other position is unchanged.
pub proof fn lemma_added_distinct<T: SparseScalar>(before: Seq<T>, after: Seq<T>, updates: Seq<(int, T)>)
    requires
        added_in_order(before, after, updates),
        forall|a: int, b: int| 0 <= a < b < updates.len() ==> #[trigger] updates[a].0 != #[trigger] updates[b].0,
    ensures
        after.len() == before.len(),
        forall|t: int| 0 <= t < updates.len() ==> 0 <= #[trigger] updates[t].0 < before.len()
            && call_ensures(T::plus, (before[updates[t].0], updates[t].1), after[updates[t].0]),
        forall|k: int| 0 <= k < before.len() && (forall|t: int| 0 <= t < updates.len() ==> #[trigger] updates[t].0 != k)
            ==> after[k] == before[k],
{
    let states = choose|states: Seq<Seq<T>>| add_chain(before, after, updates, states);
    lemma_distinct_prefix(before, after, updates, states, updates.len() as int);
}

proof fn lemma_distinct_prefix<T: SparseScalar>(
    before: Seq<T>,
    after: Seq<T>,
    updates: Seq<(int, T)>,
    states: Seq<Seq<T>>,
    m: int,
)
    requires
        add_chain(before, after, updates, states),
        forall|a: int, b: int| 0 <= a < b < updates.len() ==> #[trigger] updates[a].0 != #[trigger] updates[b].0,
        0 <= m <= updates.len(),
    ensures
        states[m].len() == before.len(),
        forall|t: int| 0 <= t < m ==> 0 <= #[trigger] updates[t].0 < before.len()
            && call_ensures(T::plus, (before[updates[t].0], updates[t].1), states[m][updates[t].0]),
        forall|k: int| 0 <= k < before.len() && (forall|t: int| 0 <= t < m ==> #[trigger] updates[t].0 != k)
            ==> states[m][k] == before[k],
    decreases m,
{
    if m > 0 {
        let p = m - 1;
        lemma_distinct_prefix(before, after, updates, states, p);
        assert(add_step(states[p], states[p + 1], updates[p]));
        assert(p + 1 == m);
        let s = updates[p].0;
        assert forall|t: int| 0 <= t < m implies 0 <= #[trigger] updates[t].0 < before.len()
            && call_ensures(T::plus, (before[updates[t].0], updates[t].1), states[m][updates[t].0]) by {
            if t < p {
                assert(updates[t].0 != updates[p].0);
            } else {
                assert(forall|t2: int| 0 <= t2 < p ==> #[trigger] updates[t2].0 != s);
                assert(states[p][s] == before[s]);
            }
        }
        assert forall|k: int| 0 <= k < before.len() && (forall|t: int| 0 <= t < m ==> #[trigger] updates[t].0 != k)
            implies states[m][k] == before[k] by {
            assert(updates[p].0 != k);
            assert forall|t: int| 0 <= t < p implies #[trigger] updates[t].0 != k by {}
        }
    }
}

} // verus!
