//! Value operations on line storage, shared by the row-major (CSR) and the
//! column-major (CSC) formats: products with a vector, scaling, the sum of
//! squares, and the checks of the storage invariants.
use vstd::prelude::*;
use crate::compressed::{lines_ok, line_of, lemma_line_bounds, lemma_line_of_is};
use crate::scalar::{SparseScalar, is_zero_value, added_in_order, lemma_added_none, lemma_added_step};

verus! {

// -----------------------------------------------------------------
// Products with a vector
// -----------------------------------------------------------------

/// Where the product of storage position `t` lands: its inner index when
/// `to_inner`, else its line.
pub open spec fn product_target(ptr: Seq<usize>, idx: Seq<usize>, nout: int, t: int, to_inner: bool) -> int {
    if to_inner {
        idx[t] as int
    } else {
        line_of(ptr, nout, t)
    }
}

/// The entry of `x` that storage position `t` multiplies: the one at the
/// other end of the stored entry.
pub open spec fn product_source(ptr: Seq<usize>, idx: Seq<usize>, nout: int, t: int, to_inner: bool) -> int {
    if to_inner {
        line_of(ptr, nout, t)
    } else {
        idx[t] as int
    }
}

/// `prods[t]` is `vals[t] * x[source(t)]` for every storage position.
pub open spec fn line_products<T: SparseScalar>(
    ptr: Seq<usize>,
    idx: Seq<usize>,
    vals: Seq<T>,
    nout: int,
    x: Seq<T>,
    to_inner: bool,
    prods: Seq<T>,
) -> bool {
    &&& prods.len() == vals.len()
    &&& forall|t: int| 0 <= t < vals.len() ==>
        #[trigger] call_ensures(T::times, (vals[t], x[product_source(ptr, idx, nout, t, to_inner)]), prods[t])
}

/// The additions of a product: storage position `t` adds `prods[t]` into
/// its target.
pub open spec fn line_additions<T>(ptr: Seq<usize>, idx: Seq<usize>, nout: int, prods: Seq<T>, to_inner: bool) -> Seq<(int, T)> {
    Seq::new(prods.len(), |t: int| (product_target(ptr, idx, nout, t, to_inner), prods[t]))
}

/// `y` is the product of the stored matrix with `x`: starting from zeros,
/// each stored value times the entry of `x` it multiplies is added into its
/// target, in storage order.  With `to_inner` false the product runs along
/// the lines (a row-major `A x`); with `to_inner` true it scatters into the
/// inner indices (a row-major `Aᵀ x`).
pub open spec fn line_product<T: SparseScalar>(
    ptr: Seq<usize>,
    idx: Seq<usize>,
    vals: Seq<T>,
    nout: int,
    x: Seq<T>,
    y: Seq<T>,
    to_inner: bool,
) -> bool {
    exists|init: Seq<T>, prods: Seq<T>| {
        &&& init.len() == y.len()
        &&& forall|i: int| 0 <= i < init.len() ==> is_zero_value(#[trigger] init[i])
        &&& line_products(ptr, idx, vals, nout, x, to_inner, prods)
        &&& #[trigger] added_in_order(init, y, line_additions(ptr, idx, nout, prods, to_inner))
    }
}

/// Fill `y` with zeros.
pub fn fill_zero<T: SparseScalar>(y: &mut Vec<T>)
    ensures
        final(y)@.len() == old(y)@.len(),
        forall|i: int| 0 <= i < final(y)@.len() ==> is_zero_value(#[trigger] final(y)@[i]),
{
    let len = y.len();
    let mut i: usize = 0;
    while i < len
        invariant
            0 <= i <= len,
            y@.len() == len,
            forall|k: int| 0 <= k < i ==> is_zero_value(#[trigger] y@[k]),
        decreases len - i,
    {
        let z = T::zero();
        y.set(i, z);
        i = i + 1;
    }
}

/// Overwrite `y` with the product of the stored matrix and `x` (see
/// `line_product`).
pub fn line_product_into<T: SparseScalar>(
    ptr: &Vec<usize>,
    idx: &Vec<usize>,
    vals: &Vec<T>,
    nout: usize,
    nin: usize,
    x: &[T],
    to_inner: bool,
    y: &mut Vec<T>,
)
    requires
        lines_ok(ptr@, idx@, nout as int, nin as int),
        vals@.len() == idx@.len(),
        x@.len() == if to_inner { nout } else { nin },
        old(y)@.len() == if to_inner { nin } else { nout },
    ensures
        final(y)@.len() == old(y)@.len(),
        line_product(ptr@, idx@, vals@, nout as int, x@, final(y)@, to_inner),
{
    fill_zero(y);
    let ghost init = y@;
    let ghost mut prods: Seq<T> = Seq::empty();
    proof {
        lemma_added_none(init);
        assert(line_additions(ptr@, idx@, nout as int, prods, to_inner) =~= Seq::<(int, T)>::empty());
    }
    let mut j: usize = 0;
    while j < nout
        invariant
            lines_ok(ptr@, idx@, nout as int, nin as int),
            vals@.len() == idx@.len(),
            x@.len() == if to_inner { nout } else { nin },
            y@.len() == if to_inner { nin } else { nout },
            init.len() == y@.len(),
            forall|i: int| 0 <= i < init.len() ==> is_zero_value(#[trigger] init[i]),
            0 <= j <= nout,
            prods.len() == ptr@[j as int],
            forall|t: int| 0 <= t < prods.len() ==>
                #[trigger] call_ensures(T::times, (vals@[t], x@[product_source(ptr@, idx@, nout as int, t, to_inner)]), prods[t]),
            added_in_order(init, y@, line_additions(ptr@, idx@, nout as int, prods, to_inner)),
        decreases nout - j,
    {
        proof {
            lemma_line_bounds(ptr@, idx@, nout as int, nin as int, j as int);
        }
        let start = ptr[j];
        let end = ptr[j + 1];
        let mut t = start;
        while t < end
            invariant
                lines_ok(ptr@, idx@, nout as int, nin as int),
                vals@.len() == idx@.len(),
                x@.len() == if to_inner { nout } else { nin },
                y@.len() == if to_inner { nin } else { nout },
                init.len() == y@.len(),
                0 <= j < nout,
                start == ptr@[j as int],
                end == ptr@[j + 1],
                end <= idx@.len(),
                start <= t <= end,
                prods.len() == t,
                forall|q: int| 0 <= q < prods.len() ==>
                    #[trigger] call_ensures(T::times, (vals@[q], x@[product_source(ptr@, idx@, nout as int, q, to_inner)]), prods[q]),
                added_in_order(init, y@, line_additions(ptr@, idx@, nout as int, prods, to_inner)),
            decreases end - t,
        {
            proof {
                lemma_line_of_is(ptr@, idx@, nout as int, nin as int, t as int, j as int);
            }
            let inner = idx[t];
            let (target, source) = if to_inner { (inner, j) } else { (j, inner) };
            let p = vals[t].times(x[source]);
            let cur = y[target];
            let nv = cur.plus(p);
            let ghost mid = y@;
            let ghost p0 = prods;
            y.set(target, nv);
            proof {
                assert(product_target(ptr@, idx@, nout as int, t as int, to_inner) == target);
                assert(product_source(ptr@, idx@, nout as int, t as int, to_inner) == source);
                lemma_added_step(init, mid, line_additions(ptr@, idx@, nout as int, p0, to_inner), target as int, p, nv);
                prods = p0.push(p);
                assert(line_additions(ptr@, idx@, nout as int, prods, to_inner)
                    =~= line_additions(ptr@, idx@, nout as int, p0, to_inner).push((target as int, p)));
                assert(mid.update(target as int, nv) == y@);
            }
            t = t + 1;
        }
        j = j + 1;
    }
    proof {
        assert(prods.len() == vals@.len());
        assert(line_products(ptr@, idx@, vals@, nout as int, x@, to_inner, prods));
    }
}

// -----------------------------------------------------------------
// Scaling and the sum of squares
// -----------------------------------------------------------------

/// Multiply every value by `alpha`: `vals[t] = vals[t] * alpha`.
pub fn scale_values<T: SparseScalar>(vals: &mut Vec<T>, alpha: T)
    ensures
        final(vals)@.len() == old(vals)@.len(),
        forall|t: int| 0 <= t < old(vals)@.len() ==> #[trigger] call_ensures(T::times, (old(vals)@[t], alpha), final(vals)@[t]),
{
    let len = vals.len();
    let mut i: usize = 0;
    while i < len
        invariant
            0 <= i <= len,
            vals@.len() == len,
            old(vals)@.len() == len,
            forall|t: int| 0 <= t < i ==> #[trigger] call_ensures(T::times, (old(vals)@[t], alpha), vals@[t]),
            forall|t: int| i <= t < len ==> vals@[t] == old(vals)@[t],
        decreases len - i,
    {
        let v = vals[i].times(alpha);
        vals.set(i, v);
        i = i + 1;
    }
}

/// The additions that sum `terms` into a single accumulator.
pub open spec fn additions_at_zero<T>(terms: Seq<T>) -> Seq<(int, T)> {
    Seq::new(terms.len(), |t: int| (0int, terms[t]))
}

/// `s` is the sum of `terms`, added in order to a zero.
pub open spec fn summed_in_order<T: SparseScalar>(terms: Seq<T>, s: T) -> bool {
    exists|z: T| {
        &&& is_zero_value(z)
        &&& #[trigger] added_in_order(seq![z], seq![s], additions_at_zero(terms))
    }
}

/// `sq[t]` is `vals[t] * vals[t]`.
pub open spec fn squares_of<T: SparseScalar>(vals: Seq<T>, sq: Seq<T>) -> bool {
    &&& sq.len() == vals.len()
    &&& forall|t: int| 0 <= t < vals.len() ==> #[trigger] call_ensures(T::times, (vals[t], vals[t]), sq[t])
}

/// `r` is the square root of the sum of the squares of `vals`, added in
/// storage order: the Frobenius norm of the stored values.
pub open spec fn frobenius_of<T: SparseScalar>(vals: Seq<T>, r: T) -> bool {
    exists|sq: Seq<T>, s: T| {
        &&& #[trigger] squares_of(vals, sq)
        &&& summed_in_order(sq, s)
        &&& #[trigger] call_ensures(T::scalar_sqrt, (s,), r)
    }
}

/// The Frobenius norm of the stored values.
pub fn frobenius_values<T: SparseScalar>(vals: &Vec<T>) -> (r: T)
    ensures
        frobenius_of(vals@, r),
{
    let len = vals.len();
    let z = T::zero();
    let mut acc = z;
    let ghost mut sq: Seq<T> = Seq::empty();
    proof {
        lemma_added_none(seq![z]);
        assert(additions_at_zero(sq) =~= Seq::<(int, T)>::empty());
    }
    let mut i: usize = 0;
    while i < len
        invariant
            0 <= i <= len,
            len == vals@.len(),
            is_zero_value(z),
            sq.len() == i,
            forall|t: int| 0 <= t < i ==> #[trigger] call_ensures(T::times, (vals@[t], vals@[t]), sq[t]),
            added_in_order(seq![z], seq![acc], additions_at_zero(sq)),
        decreases len - i,
    {
        let v = vals[i];
        let p = v.times(v);
        let na = acc.plus(p);
        let ghost s0 = sq;
        proof {
            lemma_added_step(seq![z], seq![acc], additions_at_zero(s0), 0, p, na);
            sq = s0.push(p);
            assert(additions_at_zero(sq) =~= additions_at_zero(s0).push((0int, p)));
            assert(seq![acc].update(0, na) =~= seq![na]);
        }
        acc = na;
        i = i + 1;
    }
    let r = acc.scalar_sqrt();
    proof {
        assert(squares_of(vals@, sq));
        assert(summed_in_order(sq, acc));
    }
    r
}

// -----------------------------------------------------------------
// Checks of the storage invariants
// -----------------------------------------------------------------

/// The first fault that the line checks find.
#[derive(Debug, Clone, Copy, PartialEq, Eq)]
pub enum LineFault {
    /// Line `line` stores inner index `value`, which is out of range.
    OutOfRange { line: usize, value: usize },
    /// In line `line`, inner index `value` is not below its successor.
    Unsorted { line: usize, value: usize },
}

/// Storage position `k` of line `j` holds an out-of-range inner index.
pub open spec fn line_entry_out(ptr: Seq<usize>, idx: Seq<usize>, nin: int, j: int, k: int) -> bool {
    &&& ptr[j] <= k < ptr[j + 1]
    &&& idx[k] >= nin
}

/// The inner indices at storage positions `k` and `k + 1` of line `j` are
/// not strictly increasing.
pub open spec fn line_unsorted_at(ptr: Seq<usize>, idx: Seq<usize>, j: int, k: int) -> bool {
    &&& ptr[j] <= k
    &&& k + 1 < ptr[j + 1]
    &&& idx[k] >= idx[k + 1]
}

/// Line `j` passes the checks.
pub open spec fn line_valid(ptr: Seq<usize>, idx: Seq<usize>, nin: int, j: int) -> bool {
    &&& forall|k: int| !#[trigger] line_entry_out(ptr, idx, nin, j, k)
    &&& forall|k: int| !#[trigger] line_unsorted_at(ptr, idx, j, k)
}

/// The fault of an invalid line: its first out-of-range inner index, else
/// the first inner index that is not below its successor.
pub open spec fn line_fault(ptr: Seq<usize>, idx: Seq<usize>, nin: int, j: int) -> LineFault {
    if exists|k: int| #[trigger] line_entry_out(ptr, idx, nin, j, k) {
        let k = choose|k: int| #[trigger] line_entry_out(ptr, idx, nin, j, k)
            && forall|k2: int| k2 < k ==> !line_entry_out(ptr, idx, nin, j, k2);
        LineFault::OutOfRange { line: j as usize, value: idx[k] }
    } else {
        let k = choose|k: int| #[trigger] line_unsorted_at(ptr, idx, j, k)
            && forall|k2: int| k2 < k ==> !line_unsorted_at(ptr, idx, j, k2);
        LineFault::Unsorted { line: j as usize, value: idx[k] }
    }
}

/// Every line can be sliced out of the storage.
pub open spec fn lines_sliceable(ptr: Seq<usize>, idx: Seq<usize>, nout: int) -> bool {
    forall|j: int| 0 <= j < nout ==> ptr[j] <= #[trigger] ptr[j + 1] <= idx.len()
}

/// The first out-of-range position decides the fault of its line.
proof fn lemma_first_out(p: Seq<usize>, x: Seq<usize>, nin: int, j: int, k: int)
    requires
        line_entry_out(p, x, nin, j, k),
        forall|k2: int| k2 < k ==> !#[trigger] line_entry_out(p, x, nin, j, k2),
    ensures
        !line_valid(p, x, nin, j),
        line_fault(p, x, nin, j) == (LineFault::OutOfRange { line: j as usize, value: x[k] }),
{
    let kk = choose|kk: int| #[trigger] line_entry_out(p, x, nin, j, kk)
        && forall|k2: int| k2 < kk ==> !line_entry_out(p, x, nin, j, k2);
    assert(kk == k) by {
        if kk < k {
            assert(!line_entry_out(p, x, nin, j, kk));
        } else if kk > k {
            assert(!line_entry_out(p, x, nin, j, k));
        }
    }
}

/// With no out-of-range position, the first unsorted position decides the
/// fault of its line.
proof fn lemma_first_unsorted(p: Seq<usize>, x: Seq<usize>, nin: int, j: int, k: int)
    requires
        forall|k2: int| !#[trigger] line_entry_out(p, x, nin, j, k2),
        line_unsorted_at(p, x, j, k),
        forall|k2: int| k2 < k ==> !#[trigger] line_unsorted_at(p, x, j, k2),
    ensures
        !line_valid(p, x, nin, j),
        line_fault(p, x, nin, j) == (LineFault::Unsorted { line: j as usize, value: x[k] }),
{
    let kk = choose|kk: int| #[trigger] line_unsorted_at(p, x, j, kk)
        && forall|k2: int| k2 < kk ==> !line_unsorted_at(p, x, j, k2);
    assert(kk == k) by {
        if kk < k {
            assert(!line_unsorted_at(p, x, j, kk));
        } else if kk > k {
            assert(!line_unsorted_at(p, x, j, k));
        }
    }
}

/// Check every line, in order: inner indices in range, then strictly
/// increasing.  Returns the fault of the first invalid line.
pub fn check_lines(ptr: &Vec<usize>, idx: &Vec<usize>, nout: usize, nin: usize) -> (r: Option<LineFault>)
    requires
        ptr@.len() == nout + 1,
        lines_sliceable(ptr@, idx@, nout as int),
    ensures
        r is None <==> forall|j: int| 0 <= j < nout ==> #[trigger] line_valid(ptr@, idx@, nin as int, j),
        r matches Some(f) ==> exists|q: int| {
            &&& 0 <= q < nout
            &&& !#[trigger] line_valid(ptr@, idx@, nin as int, q)
            &&& forall|q2: int| 0 <= q2 < q ==> line_valid(ptr@, idx@, nin as int, q2)
            &&& f == line_fault(ptr@, idx@, nin as int, q)
        },
{
    let ghost p = ptr@;
    let ghost x = idx@;
    let mut j: usize = 0;
    while j < nout
        invariant
            p == ptr@,
            x == idx@,
            p.len() == nout + 1,
            lines_sliceable(p, x, nout as int),
            0 <= j <= nout,
            forall|q: int| 0 <= q < j ==> #[trigger] line_valid(p, x, nin as int, q),
        decreases nout - j,
    {
        assert(p[j as int] <= p[j as int + 1] <= x.len());
        let start = ptr[j];
        let end = ptr[j + 1];
        let mut k = start;
        while k < end
            invariant
                p == ptr@,
                x == idx@,
                j < nout,
                start == p[j as int],
                end == p[j as int + 1],
                end <= x.len(),
                start <= k <= end,
                forall|k2: int| k2 < k ==> !#[trigger] line_entry_out(p, x, nin as int, j as int, k2),
                forall|q: int| 0 <= q < j ==> #[trigger] line_valid(p, x, nin as int, q),
            decreases end - k,
        {
            let v = idx[k];
            if v >= nin {
                proof {
                    lemma_first_out(p, x, nin as int, j as int, k as int);
                }
                return Some(LineFault::OutOfRange { line: j, value: v });
            }
            k = k + 1;
        }
        proof {
            assert forall|k2: int| !#[trigger] line_entry_out(p, x, nin as int, j as int, k2) by {
                if k2 >= k {
                    assert(!(p[j as int] <= k2 < p[j as int + 1]));
                }
            }
        }
        if end > start {
            let mut k = start;
            while k + 1 < end
                invariant
                    p == ptr@,
                    x == idx@,
                    j < nout,
                    start == p[j as int],
                    end == p[j as int + 1],
                    end <= x.len(),
                    start <= k < end,
                    forall|k2: int| k2 < k ==> !#[trigger] line_unsorted_at(p, x, j as int, k2),
                    forall|k2: int| !#[trigger] line_entry_out(p, x, nin as int, j as int, k2),
                    forall|q: int| 0 <= q < j ==> #[trigger] line_valid(p, x, nin as int, q),
                decreases end - k,
            {
                if idx[k] >= idx[k + 1] {
                    proof {
                        lemma_first_unsorted(p, x, nin as int, j as int, k as int);
                    }
                    return Some(LineFault::Unsorted { line: j, value: idx[k] });
                }
                k = k + 1;
            }
            proof {
                assert forall|k2: int| !#[trigger] line_unsorted_at(p, x, j as int, k2) by {
                    if k2 >= k {
                        assert(!(k2 + 1 < p[j as int + 1]));
                    }
                }
            }
        } else {
            proof {
                assert forall|k2: int| !#[trigger] line_unsorted_at(p, x, j as int, k2) by {}
            }
        }
        proof {
            assert(line_valid(p, x, nin as int, j as int));
        }
        j = j + 1;
    }
    None
}

/// Pointers that do not decrease from one line to the next do not
/// decrease at all.
pub proof fn lemma_ptr_monotone(ptr: Seq<usize>, nout: int)
    requires
        0 <= nout,
        ptr.len() == nout + 1,
        forall|j: int| 0 <= j < nout ==> #[trigger] ptr[j] <= ptr[j + 1],
    ensures
        forall|a: int, b: int| 0 <= a <= b <= nout ==> #[trigger] ptr[a] <= #[trigger] ptr[b],
{
    assert forall|a: int, b: int| 0 <= a <= b <= nout implies #[trigger] ptr[a] <= #[trigger] ptr[b] by {
        lemma_ptr_chain(ptr, nout, a, b);
    }
}

proof fn lemma_ptr_chain(ptr: Seq<usize>, nout: int, a: int, b: int)
    requires
        ptr.len() == nout + 1,
        forall|j: int| 0 <= j < nout ==> #[trigger] ptr[j] <= ptr[j + 1],
        0 <= a <= b <= nout,
    ensures
        ptr[a] <= ptr[b],
    decreases b - a,
{
    if a < b {
        lemma_ptr_chain(ptr, nout, a, b - 1);
        assert(ptr[b - 1] <= ptr[b]);
    }
}

/// Neighbours that increase make a strictly increasing run.
pub proof fn lemma_adjacent_sorted(s: Seq<usize>, lo: int, hi: int)
    requires
        0 <= lo,
        hi <= s.len(),
        forall|k: int| lo <= k && k + 1 < hi ==> #[trigger] s[k] < s[k + 1],
    ensures
        forall|a: int, b: int| lo <= a < b < hi ==> #[trigger] s[a] < #[trigger] s[b],
{
    assert forall|a: int, b: int| lo <= a < b < hi implies #[trigger] s[a] < #[trigger] s[b] by {
        lemma_sorted_chain(s, lo, hi, a, b);
    }
}

proof fn lemma_sorted_chain(s: Seq<usize>, lo: int, hi: int, a: int, b: int)
    requires
        forall|k: int| lo <= k && k + 1 < hi ==> #[trigger] s[k] < s[k + 1],
        lo <= a < b < hi,
    ensures
        s[a] < s[b],
    decreases b - a,
{
    if a + 1 < b {
        lemma_sorted_chain(s, lo, hi, a, b - 1);
        assert(s[b - 1] < s[b]);
    } else {
        assert(s[a] < s[a + 1]);
    }
}

/// Lines that pass the checks, with pointers that start at zero, end at
/// the storage length and slice it, are well formed.
pub proof fn lemma_valid_lines_ok(ptr: Seq<usize>, idx: Seq<usize>, nout: int, nin: int)
    requires
        0 <= nout,
        ptr.len() == nout + 1,
        ptr[0] == 0,
        ptr[nout] == idx.len(),
        lines_sliceable(ptr, idx, nout),
        forall|j: int| 0 <= j < nout ==> #[trigger] line_valid(ptr, idx, nin, j),
    ensures
        lines_ok(ptr, idx, nout, nin),
{
    assert forall|j: int| 0 <= j < nout implies #[trigger] ptr[j] <= ptr[j + 1] by {
        assert(ptr[j] <= ptr[j + 1] <= idx.len());
    }
    lemma_ptr_monotone(ptr, nout);
    assert forall|j: int| 0 <= j < nout implies #[trigger] crate::compressed::line_sorted(ptr, idx, j) by {
        assert(line_valid(ptr, idx, nin, j));
        assert(ptr[j] <= ptr[j + 1] <= idx.len());
        assert forall|k: int| ptr[j] <= k && k + 1 < ptr[j + 1] implies #[trigger] idx[k] < idx[k + 1] by {
            assert(!line_unsorted_at(ptr, idx, j, k));
        }
        lemma_adjacent_sorted(idx, ptr[j] as int, ptr[j + 1] as int);
    }
    assert forall|k: int| 0 <= k < idx.len() implies #[trigger] idx[k] < nin by {
        crate::compressed::lemma_line_search_pub(ptr, idx, nout, k);
        let j = choose|j: int| 0 <= j < nout && #[trigger] ptr[j] <= k < ptr[j + 1];
        assert(line_valid(ptr, idx, nin, j));
        assert(!line_entry_out(ptr, idx, nin, j, k));
    }
}

/// Well-formed lines pass the checks.
pub proof fn lemma_lines_valid(ptr: Seq<usize>, idx: Seq<usize>, nout: int, nin: int)
    requires
        lines_ok(ptr, idx, nout, nin),
    ensures
        lines_sliceable(ptr, idx, nout),
        forall|j: int| 0 <= j < nout ==> #[trigger] line_valid(ptr, idx, nin, j),
{
    assert forall|j: int| 0 <= j < nout implies ptr[j] <= #[trigger] ptr[j + 1] <= idx.len() by {
        lemma_line_bounds(ptr, idx, nout, nin, j);
    }
    assert forall|j: int| 0 <= j < nout implies #[trigger] line_valid(ptr, idx, nin, j) by {
        lemma_line_bounds(ptr, idx, nout, nin, j);
        assert(crate::compressed::line_sorted(ptr, idx, j));
        assert forall|k: int| !#[trigger] line_entry_out(ptr, idx, nin, j, k) by {
            if ptr[j] <= k < ptr[j + 1] {
                assert(idx[k] < nin);
            }
        }
        assert forall|k: int| !#[trigger] line_unsorted_at(ptr, idx, j, k) by {
            if ptr[j] <= k && k + 1 < ptr[j + 1] {
                assert(idx[k] < idx[k + 1]);
            }
        }
    }
}

// -----------------------------------------------------------------
// Building line storage from per-line lists, and transposition
// -----------------------------------------------------------------

/// Line `q` of the storage `(ptr, idx, vals)` holds the indices `rq`
/// with the values `vq`.
pub open spec fn segment_is<T>(ptr: Seq<usize>, idx: Seq<usize>, vals: Seq<T>, q: int, rq: Seq<usize>, vq: Seq<T>) -> bool {
    &&& idx.subrange(ptr[q] as int, ptr[q + 1] as int) =~= rq
    &&& vals.subrange(ptr[q] as int, ptr[q + 1] as int) =~= vq
}

/// Concatenate per-line lists into line storage: line `q` of the result
/// holds `rows[q]`, with the values `vals[q]`.
pub fn concat_lines<T: Copy>(rows: &Vec<Vec<usize>>, vals: &Vec<Vec<T>>) -> (r: (Vec<usize>, Vec<usize>, Vec<T>))
    requires
        rows@.len() == vals@.len(),
        forall|q: int| 0 <= q < rows@.len() ==> #[trigger] rows@[q]@.len() == vals@[q]@.len(),
    ensures
        r.0@.len() == rows@.len() + 1,
        r.0@[0] == 0,
        r.0@[rows@.len() as int] == r.1@.len(),
        r.2@.len() == r.1@.len(),
        forall|a: int, b: int| 0 <= a <= b <= rows@.len() ==> #[trigger] r.0@[a] <= #[trigger] r.0@[b],
        forall|q: int| 0 <= q < rows@.len() ==> #[trigger] segment_is(r.0@, r.1@, r.2@, q, rows@[q]@, vals@[q]@),
{
    let n = rows.len();
    let mut idx: Vec<usize> = Vec::new();
    let mut values: Vec<T> = Vec::new();
    let mut ptr: Vec<usize> = Vec::new();
    ptr.push(0);
    let mut c: usize = 0;
    while c < n
        invariant
            n == rows@.len(),
            rows@.len() == vals@.len(),
            forall|q: int| 0 <= q < rows@.len() ==> #[trigger] rows@[q]@.len() == vals@[q]@.len(),
            0 <= c <= n,
            ptr@.len() == c + 1,
            ptr@[0] == 0,
            ptr@[c as int] == idx@.len(),
            values@.len() == idx@.len(),
            forall|a: int, b: int| 0 <= a <= b <= c ==> #[trigger] ptr@[a] <= #[trigger] ptr@[b],
            forall|q: int| 0 <= q < c ==> #[trigger] segment_is(ptr@, idx@, values@, q, rows@[q]@, vals@[q]@),
        decreases n - c,
    {
        let ghost i0 = idx@;
        let ghost v0 = values@;
        let ghost p0 = ptr@;
        let ghost rq = rows@[c as int]@;
        let ghost vq = vals@[c as int]@;
        let clen = rows[c].len();
        let mut k: usize = 0;
        while k < clen
            invariant
                0 <= c < n,
                n == rows@.len(),
                rows@.len() == vals@.len(),
                rq == rows@[c as int]@,
                vq == vals@[c as int]@,
                clen == rq.len(),
                rq.len() == vq.len(),
                0 <= k <= rq.len(),
                idx@ == i0 + rq.take(k as int),
                values@ == v0 + vq.take(k as int),
            decreases rq.len() - k,
        {
            idx.push(rows[c][k]);
            values.push(vals[c][k]);
            proof {
                assert(idx@ =~= i0 + rq.take(k + 1));
                assert(values@ =~= v0 + vq.take(k + 1));
            }
            k = k + 1;
        }
        proof {
            assert(rq.take(rq.len() as int) =~= rq);
            assert(vq.take(vq.len() as int) =~= vq);
        }
        let len = idx.len();
        ptr.push(len);
        proof {
            assert forall|q: int| 0 <= q < c + 1 implies #[trigger] segment_is(ptr@, idx@, values@, q, rows@[q]@, vals@[q]@) by {
                if q < c {
                    assert(segment_is(p0, i0, v0, q, rows@[q]@, vals@[q]@));
                    assert(p0[q + 1] <= p0[c as int]);
                    assert(idx@.subrange(ptr@[q] as int, ptr@[q + 1] as int) =~= i0.subrange(p0[q] as int, p0[q + 1] as int));
                    assert(values@.subrange(ptr@[q] as int, ptr@[q + 1] as int) =~= v0.subrange(p0[q] as int, p0[q + 1] as int));
                } else {
                    assert(idx@.subrange(ptr@[q] as int, ptr@[q + 1] as int) =~= rq);
                    assert(values@.subrange(ptr@[q] as int, ptr@[q + 1] as int) =~= vq);
                }
            }
            assert forall|a: int, b: int| 0 <= a <= b <= c + 1 implies #[trigger] ptr@[a] <= #[trigger] ptr@[b] by {
                if b <= c {
                    assert(p0[a] <= p0[b]);
                } else if a <= c {
                    assert(p0[a] <= p0[c as int]);
                }
            }
        }
        c = c + 1;
    }
    (ptr, idx, values)
}

/// Bucket `i` of a transposition after the lines before `j`, and the
/// storage positions of line `j` before `t`, have been distributed.
pub open spec fn bucket_ok<T>(
    ptr: Seq<usize>,
    idx: Seq<usize>,
    vals: Seq<T>,
    rl: Seq<usize>,
    vl: Seq<T>,
    i: int,
    j: int,
    t: int,
) -> bool {
    &&& rl.len() == vl.len()
    &&& crate::rows::strictly_sorted(rl)
    &&& forall|x: usize| #[trigger] rl.contains(x) <==> (
        (x < j && crate::compressed::line_has(ptr, idx, x as int, i))
        || (x == j && exists|k: int| ptr[j] <= k < t && #[trigger] idx[k] == i))
    &&& forall|q: int| 0 <= q < rl.len() ==> #[trigger] vl[q] == vals[crate::compressed::line_slot(ptr, idx, rl[q] as int, i)]
}

/// The concatenated buckets of a finished transposition are the
/// transposed storage.
proof fn lemma_transposed<T>(
    p: Seq<usize>,
    x: Seq<usize>,
    v: Seq<T>,
    nout: int,
    nin: int,
    rows: Seq<Vec<usize>>,
    bv: Seq<Vec<T>>,
    p2: Seq<usize>,
    x2: Seq<usize>,
    v2: Seq<T>,
)
    requires
        lines_ok(p, x, nout, nin),
        nout <= usize::MAX,
        v.len() == x.len(),
        rows.len() == nin,
        bv.len() == nin,
        forall|i: int| 0 <= i < nin ==> #[trigger] bucket_ok(p, x, v, rows[i]@, bv[i]@, i, nout, p[nout] as int),
        p2.len() == nin + 1,
        p2[0] == 0,
        p2[nin] == x2.len(),
        v2.len() == x2.len(),
        forall|a: int, b: int| 0 <= a <= b <= nin ==> #[trigger] p2[a] <= #[trigger] p2[b],
        forall|q: int| 0 <= q < nin ==> #[trigger] segment_is(p2, x2, v2, q, rows[q]@, bv[q]@),
    ensures
        lines_ok(p2, x2, nin, nout),
        forall|i: int, j: int| 0 <= i < nin ==> (#[trigger] crate::compressed::line_has(p2, x2, i, j)
            <==> (0 <= j < nout && crate::compressed::line_has(p, x, j, i))),
        forall|i: int, j: int| 0 <= i < nin && #[trigger] crate::compressed::line_has(p2, x2, i, j) ==>
            v2[crate::compressed::line_slot(p2, x2, i, j)] == v[crate::compressed::line_slot(p, x, j, i)],
{
    assert forall|i: int| 0 <= i < nin implies #[trigger] crate::compressed::line(p2, x2, i) == rows[i]@ by {
        assert(segment_is(p2, x2, v2, i, rows[i]@, bv[i]@));
    }
    assert forall|i: int| 0 <= i < nin implies #[trigger] crate::compressed::line_sorted(p2, x2, i) by {
        assert(bucket_ok(p, x, v, rows[i]@, bv[i]@, i, nout, p[nout] as int));
        assert(p2[0] <= p2[i] && p2[i] <= p2[i + 1] && p2[i + 1] <= p2[nin]);
        let l = crate::compressed::line(p2, x2, i);
        assert(l == rows[i]@);
        assert forall|a: int, b: int| p2[i] <= a < b < p2[i + 1] implies #[trigger] x2[a] < #[trigger] x2[b] by {
            assert(l[a - p2[i]] < l[b - p2[i]]);
        }
    }
    assert forall|k: int| 0 <= k < x2.len() implies #[trigger] x2[k] < nout by {
        crate::compressed::lemma_line_search_pub(p2, x2, nin, k);
        let i = choose|i: int| 0 <= i < nin && #[trigger] p2[i] <= k < p2[i + 1];
        assert(bucket_ok(p, x, v, rows[i]@, bv[i]@, i, nout, p[nout] as int));
        let l = crate::compressed::line(p2, x2, i);
        assert(l == rows[i]@);
        assert(l[k - p2[i]] == x2[k]);
        assert(rows[i]@.contains(x2[k]));
    }
    assert(lines_ok(p2, x2, nin, nout));
    assert forall|i: int, j: int| 0 <= i < nin implies (#[trigger] crate::compressed::line_has(p2, x2, i, j)
        <==> (0 <= j < nout && crate::compressed::line_has(p, x, j, i))) by {
        assert(bucket_ok(p, x, v, rows[i]@, bv[i]@, i, nout, p[nout] as int));
        let l = crate::compressed::line(p2, x2, i);
        assert(l == rows[i]@);
        lemma_line_bounds(p2, x2, nin, nout, i);
        if crate::compressed::line_has(p2, x2, i, j) {
            let k = choose|k: int| #[trigger] crate::compressed::is_line_slot(p2, x2, i, j, k);
            let y = x2[k];
            assert(y as int == j);
            assert(l[k - p2[i]] == y);
            assert(rows[i]@.contains(y));
        }
        if 0 <= j < nout && crate::compressed::line_has(p, x, j, i) {
            let y = j as usize;
            assert(rows[i]@.contains(y));
            let q = choose|q: int| 0 <= q < rows[i]@.len() && rows[i]@[q] == y;
            assert(l[q] == x2[p2[i] + q]);
            assert(crate::compressed::is_line_slot(p2, x2, i, j, p2[i] + q));
        }
    }
    assert forall|i: int, j: int| 0 <= i < nin && #[trigger] crate::compressed::line_has(p2, x2, i, j) implies
        v2[crate::compressed::line_slot(p2, x2, i, j)] == v[crate::compressed::line_slot(p, x, j, i)] by {
        assert(bucket_ok(p, x, v, rows[i]@, bv[i]@, i, nout, p[nout] as int));
        lemma_line_bounds(p2, x2, nin, nout, i);
        let k = crate::compressed::line_slot(p2, x2, i, j);
        assert(crate::compressed::is_line_slot(p2, x2, i, j, k));
        let q = k - p2[i];
        let l = crate::compressed::line(p2, x2, i);
        assert(l == rows[i]@);
        assert(l[q] == x2[k]);
        assert(segment_is(p2, x2, v2, i, rows[i]@, bv[i]@));
        assert(v2.subrange(p2[i] as int, p2[i + 1] as int)[q] == v2[k]);
        assert(bv[i]@[q] == v[crate::compressed::line_slot(p, x, rows[i]@[q] as int, i)]);
    }
}

/// Transpose line storage: line `i` of the result holds the lines `j`
/// of the input that store inner index `i`, in ascending order, with their
/// values.  A row-major matrix becomes the column-major storage of the
/// same matrix, and conversely.
pub fn transpose_lines<T: Copy>(
    ptr: &Vec<usize>,
    idx: &Vec<usize>,
    vals: &Vec<T>,
    nout: usize,
    nin: usize,
) -> (r: (Vec<usize>, Vec<usize>, Vec<T>))
    requires
        lines_ok(ptr@, idx@, nout as int, nin as int),
        vals@.len() == idx@.len(),
    ensures
        lines_ok(r.0@, r.1@, nin as int, nout as int),
        r.2@.len() == r.1@.len(),
        forall|i: int, j: int| 0 <= i < nin ==> (#[trigger] crate::compressed::line_has(r.0@, r.1@, i, j)
            <==> (0 <= j < nout && crate::compressed::line_has(ptr@, idx@, j, i))),
        forall|i: int, j: int| 0 <= i < nin && #[trigger] crate::compressed::line_has(r.0@, r.1@, i, j) ==>
            r.2@[crate::compressed::line_slot(r.0@, r.1@, i, j)] == vals@[crate::compressed::line_slot(ptr@, idx@, j, i)],
{
    let ghost p = ptr@;
    let ghost x = idx@;
    let ghost v = vals@;
    let mut rows: Vec<Vec<usize>> = Vec::new();
    let mut bvals: Vec<Vec<T>> = Vec::new();
    let mut t0: usize = 0;
    while t0 < nin
        invariant
            0 <= t0 <= nin,
            rows@.len() == t0,
            bvals@.len() == t0,
            forall|q: int| 0 <= q < t0 ==> #[trigger] rows@[q]@.len() == 0 && bvals@[q]@.len() == 0,
        decreases nin - t0,
    {
        rows.push(Vec::new());
        bvals.push(Vec::new());
        t0 = t0 + 1;
    }
    proof {
        assert forall|i: int| 0 <= i < nin implies #[trigger] bucket_ok(p, x, v, rows@[i]@, bvals@[i]@, i, 0, p[0] as int) by {
            assert forall|y: usize| #[trigger] rows@[i]@.contains(y) <==> (
                (y < 0 && crate::compressed::line_has(p, x, y as int, i))
                || (y == 0 && exists|k: int| p[0] <= k < p[0] && #[trigger] x[k] == i)) by {}
        }
    }
    let mut j: usize = 0;
    while j < nout
        invariant
            p == ptr@,
            x == idx@,
            v == vals@,
            lines_ok(p, x, nout as int, nin as int),
            v.len() == x.len(),
            0 <= j <= nout,
            rows@.len() == nin,
            bvals@.len() == nin,
            forall|i: int| 0 <= i < nin ==> #[trigger] bucket_ok(p, x, v, rows@[i]@, bvals@[i]@, i, j as int, p[j as int] as int),
        decreases nout - j,
    {
        proof {
            lemma_line_bounds(p, x, nout as int, nin as int, j as int);
        }
        let start = ptr[j];
        let end = ptr[j + 1];
        let mut t = start;
        while t < end
            invariant
                p == ptr@,
                x == idx@,
                v == vals@,
                lines_ok(p, x, nout as int, nin as int),
                v.len() == x.len(),
                0 <= j < nout,
                start == p[j as int],
                end == p[j as int + 1],
                end <= x.len(),
                start <= t <= end,
                rows@.len() == nin,
                bvals@.len() == nin,
                forall|i: int| 0 <= i < nin ==> #[trigger] bucket_ok(p, x, v, rows@[i]@, bvals@[i]@, i, j as int, t as int),
            decreases end - t,
        {
            let i = idx[t];
            let val = vals[t];
            let ghost r0 = rows@;
            let ghost b0 = bvals@;
            proof {
                assert(x[t as int] < nin);
                assert(crate::compressed::line_sorted(p, x, j as int));
            }
            rows[i].push(j);
            bvals[i].push(val);
            proof {
                assert forall|q: int| 0 <= q < nin implies #[trigger] bucket_ok(p, x, v, rows@[q]@, bvals@[q]@, q, j as int, t + 1) by {
                    assert(bucket_ok(p, x, v, r0[q]@, b0[q]@, q, j as int, t as int));
                    if q != i {
                        assert(rows@[q] == r0[q]);
                        assert(bvals@[q] == b0[q]);
                        assert forall|y: usize| #[trigger] rows@[q]@.contains(y) <==> (
                            (y < j && crate::compressed::line_has(p, x, y as int, q))
                            || (y == j && exists|k: int| p[j as int] <= k < t + 1 && #[trigger] x[k] == q)) by {
                            if exists|k: int| p[j as int] <= k < t + 1 && #[trigger] x[k] == q {
                                let k = choose|k: int| p[j as int] <= k < t + 1 && #[trigger] x[k] == q;
                                assert(k != t);
                            }
                        }
                    } else {
                        let old_r = r0[q]@;
                        let old_v = b0[q]@;
                        assert(rows@[q]@ == old_r.push(j));
                        assert(bvals@[q]@ == old_v.push(val));
                        // no earlier position of line j holds `i`: the line is sorted
                        assert(!exists|k: int| p[j as int] <= k < t && #[trigger] x[k] == q) by {
                            if exists|k: int| p[j as int] <= k < t && #[trigger] x[k] == q {
                                let k = choose|k: int| p[j as int] <= k < t && #[trigger] x[k] == q;
                                assert(x[k] < x[t as int]);
                            }
                        }
                        assert forall|a: int| 0 <= a < old_r.len() implies #[trigger] old_r[a] < j by {
                            assert(old_r.contains(old_r[a]));
                        }
                        assert forall|a: int, b: int| 0 <= a < b < rows@[q]@.len() implies rows@[q]@[a] < rows@[q]@[b] by {
                            if b == old_r.len() {
                                assert(old_r[a] < j);
                            }
                        }
                        assert forall|y: usize| #[trigger] rows@[q]@.contains(y) <==> (
                            (y < j && crate::compressed::line_has(p, x, y as int, q))
                            || (y == j && exists|k: int| p[j as int] <= k < t + 1 && #[trigger] x[k] == q)) by {
                            crate::rows::lemma_push_contains(old_r, j, y);
                            if y == j {
                                assert(x[t as int] == q);
                            }
                        }
                        assert forall|a: int| 0 <= a < rows@[q]@.len() implies
                            #[trigger] bvals@[q]@[a] == v[crate::compressed::line_slot(p, x, rows@[q]@[a] as int, q)] by {
                            if a == old_r.len() {
                                assert(crate::compressed::is_line_slot(p, x, j as int, q, t as int));
                                crate::compressed::lemma_line_slot_is(p, x, nout as int, nin as int, j as int, q, t as int);
                            } else {
                                assert(bvals@[q]@[a] == old_v[a]);
                                assert(rows@[q]@[a] == old_r[a]);
                            }
                        }
                    }
                }
            }
            t = t + 1;
        }
        proof {
            assert forall|q: int| 0 <= q < nin implies #[trigger] bucket_ok(p, x, v, rows@[q]@, bvals@[q]@, q, j + 1, p[j + 1] as int) by {
                assert(bucket_ok(p, x, v, rows@[q]@, bvals@[q]@, q, j as int, end as int));
                assert forall|y: usize| #[trigger] rows@[q]@.contains(y) <==> (
                    (y < j + 1 && crate::compressed::line_has(p, x, y as int, q))
                    || (y == j + 1 && exists|k: int| p[j + 1] <= k < p[j + 1] && #[trigger] x[k] == q)) by {
                    if y == j {
                        if crate::compressed::line_has(p, x, j as int, q) {
                            let k = choose|k: int| #[trigger] crate::compressed::is_line_slot(p, x, j as int, q, k);
                            assert(p[j as int] <= k < end && x[k] == q);
                        }
                        if exists|k: int| p[j as int] <= k < end && #[trigger] x[k] == q {
                            let k = choose|k: int| p[j as int] <= k < end && #[trigger] x[k] == q;
                            assert(crate::compressed::is_line_slot(p, x, j as int, q, k));
                        }
                    }
                }
            }
        }
        j = j + 1;
    }
    proof {
        assert forall|q: int| 0 <= q < rows@.len() implies #[trigger] rows@[q]@.len() == bvals@[q]@.len() by {
            assert(bucket_ok(p, x, v, rows@[q]@, bvals@[q]@, q, nout as int, p[nout as int] as int));
        }
    }
    let (ptr2, idx2, vals2) = concat_lines(&rows, &bvals);
    proof {
        lemma_transposed(p, x, v, nout as int, nin as int, rows@, bvals@, ptr2@, idx2@, vals2@);
    }
    (ptr2, idx2, vals2)
}

} // verus!
