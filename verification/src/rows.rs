//! Index-list utilities shared by the storage formats: sorting, duplicate
//! removal and binary search over strictly increasing index runs.
use vstd::prelude::*;

verus! {

/// `s` is sorted ascending with no repeated entry.
pub open spec fn strictly_sorted(s: Seq<usize>) -> bool {
    forall|i: int, j: int| 0 <= i < j < s.len() ==> s[i] < s[j]
}

/// `s` is sorted ascending (repeats allowed).
pub open spec fn sorted(s: Seq<usize>) -> bool {
    forall|i: int, j: int| 0 <= i < j < s.len() ==> s[i] <= s[j]
}

/// Two index lists hold the same values, ignoring order and repeats.
pub open spec fn same_values(a: Seq<usize>, b: Seq<usize>) -> bool {
    forall|x: usize| a.contains(x) <==> b.contains(x)
}

/// Two strictly increasing lists with the same values are equal.
pub proof fn lemma_sorted_same_values_equal(a: Seq<usize>, b: Seq<usize>)
    requires
        strictly_sorted(a),
        strictly_sorted(b),
        same_values(a, b),
    ensures
        a == b,
    decreases a.len(),
{
    if a.len() == 0 {
        if b.len() > 0 {
            assert(b.contains(b[0]));
        }
        assert(b.len() == 0);
        assert(a =~= b);
    } else {
        assert(a.contains(a[0]));
        assert(b.contains(a[0]));
        assert(b.len() > 0);
        assert(b.contains(b[0]));
        assert(a.contains(b[0]));
        // the first entries are the least values of the same set
        let ka = choose|k: int| 0 <= k < a.len() && a[k] == b[0];
        let kb = choose|k: int| 0 <= k < b.len() && b[k] == a[0];
        if ka > 0 {
            assert(a[0] < a[ka]);
        }
        if kb > 0 {
            assert(b[0] < b[kb]);
        }
        assert(a[0] == b[0]);
        let a1 = a.drop_first();
        let b1 = b.drop_first();
        assert forall|x: usize| a1.contains(x) <==> b1.contains(x) by {
            if a1.contains(x) {
                let k = choose|k: int| 0 <= k < a1.len() && a1[k] == x;
                assert(a[k + 1] == x);
                assert(a[0] < a[k + 1]);
                assert(a.contains(x));
                let kk = choose|kk: int| 0 <= kk < b.len() && b[kk] == x;
                assert(kk != 0);
                assert(b1[kk - 1] == x);
            }
            if b1.contains(x) {
                let k = choose|k: int| 0 <= k < b1.len() && b1[k] == x;
                assert(b[k + 1] == x);
                assert(b[0] < b[k + 1]);
                assert(b.contains(x));
                let kk = choose|kk: int| 0 <= kk < a.len() && a[kk] == x;
                assert(kk != 0);
                assert(a1[kk - 1] == x);
            }
        }
        lemma_sorted_same_values_equal(a1, b1);
        assert(a =~= seq![a[0]] + a1);
        assert(b =~= seq![b[0]] + b1);
    }
}

/// Sort `v` ascending in place (insertion sort).
pub fn sort_indices(v: &mut Vec<usize>)
    ensures
        sorted(final(v)@),
        final(v)@.len() == old(v)@.len(),
        final(v)@.to_multiset() == old(v)@.to_multiset(),
        same_values(final(v)@, old(v)@),
{
    let n = v.len();
    let mut i: usize = 1;
    if n == 0 {
        return ;
    }
    while i < n
        invariant
            1 <= i <= n,
            n == v@.len(),
            sorted(v@.subrange(0, i as int)),
            v@.to_multiset() == old(v)@.to_multiset(),
        decreases n - i,
    {
        let mut j: usize = i;
        assert forall|a: int, b: int| 0 <= a < b < j implies v@[a] <= v@[b] by {
            assert(v@[a] == v@.subrange(0, i as int)[a]);
            assert(v@[b] == v@.subrange(0, i as int)[b]);
        }
        while j > 0 && v[j - 1] > v[j]
            invariant
                0 <= j <= i < n,
                n == v@.len(),
                v@.to_multiset() == old(v)@.to_multiset(),
                // prefix [0, j) sorted, [j, i] sorted, and every element of the
                // prefix is at most every element after position j
                forall|a: int, b: int| 0 <= a < b < j ==> v@[a] <= v@[b],
                forall|a: int, b: int| j <= a < b <= i ==> v@[a] <= v@[b],
                forall|a: int, b: int| 0 <= a < j && j < b <= i ==> v@[a] <= v@[b],
            decreases j,
        {
            assert(v@[j as int - 1] > v@[j as int]);
            let x = v[j - 1];
            let y = v[j];
            let ghost before = v@;
            v.set(j - 1, y);
            v.set(j, x);
            proof {
                lemma_swap_multiset(before, (j - 1) as int, j as int);
                assert(v@ == before.update(j - 1, before[j as int]).update(j as int, before[j - 1]));
            }
            j = j - 1;
        }
        assert(sorted(v@.subrange(0, i + 1)));
        i = i + 1;
    }
    proof {
        assert(v@.subrange(0, n as int) =~= v@);
        lemma_multiset_same_values(v@, old(v)@);
    }
}

/// Membership in a sequence extended by one element.
pub proof fn lemma_push_contains<A>(s: Seq<A>, x: A, y: A)
    ensures
        s.push(x).contains(y) <==> (s.contains(y) || y == x),
{
    if s.contains(y) {
        let k = choose|k: int| 0 <= k < s.len() && s[k] == y;
        assert(s.push(x)[k] == y);
    }
    if y == x {
        assert(s.push(x)[s.len() as int] == y);
    }
    if s.push(x).contains(y) {
        let k = choose|k: int| 0 <= k < s.push(x).len() && s.push(x)[k] == y;
        if k < s.len() {
            assert(s[k] == y);
        }
    }
}

/// Exchanging two positions keeps the multiset of a sequence.
pub proof fn lemma_swap_multiset<A>(s: Seq<A>, a: int, b: int)
    requires
        0 <= a < s.len(),
        0 <= b < s.len(),
        a != b,
    ensures
        s.update(a, s[b]).update(b, s[a]).to_multiset() == s.to_multiset(),
{
    broadcast use vstd::seq_lib::group_to_multiset_ensures;
    broadcast use vstd::multiset::group_multiset_axioms;
    let s1 = s.update(a, s[b]);
    vstd::seq_lib::to_multiset_update(s, a, s[b]);
    vstd::seq_lib::to_multiset_update(s1, b, s[a]);
    assert(s1[b] == s[b]);
    let m = s.to_multiset();
    assert(m.insert(s[b]).remove(s[a]).insert(s[a]).remove(s[b]) =~= m);
}

/// Equal multisets contain the same values.
pub proof fn lemma_multiset_same_values(a: Seq<usize>, b: Seq<usize>)
    requires
        a.to_multiset() == b.to_multiset(),
    ensures
        same_values(a, b),
{
    assert forall|x: usize| a.contains(x) <==> b.contains(x) by {
        a.to_multiset_ensures();
        b.to_multiset_ensures();
        assert(a.to_multiset().count(x) == b.to_multiset().count(x));
        assert(a.contains(x) <==> a.to_multiset().count(x) > 0);
        assert(b.contains(x) <==> b.to_multiset().count(x) > 0);
    }
}

/// Remove repeated entries from a sorted list in place, keeping the first
/// copy of each value (the list must already be sorted ascending).
pub fn dedup_sorted(v: &mut Vec<usize>)
    requires
        sorted(old(v)@),
    ensures
        strictly_sorted(final(v)@),
        same_values(final(v)@, old(v)@),
        final(v)@.len() <= old(v)@.len(),
{
    let n = v.len();
    if n == 0 {
        return ;
    }
    broadcast use vstd::seq_lib::group_seq_properties;
    let ghost orig = v@;
    let mut write: usize = 1;
    let mut read: usize = 1;
    while read < n
        invariant
            1 <= write <= read <= n,
            n == v@.len(),
            n == orig.len(),
            sorted(orig),
            // the unread tail is untouched
            forall|k: int| read <= k < n ==> v@[k] == orig[k],
            // the written prefix is strictly increasing
            strictly_sorted(v@.subrange(0, write as int)),
            // the written prefix holds exactly the values of orig[0, read)
            forall|x: usize| v@.subrange(0, write as int).contains(x) <==> orig.subrange(0, read as int).contains(x),
            // its last element is the largest value read so far
            v@[write - 1] == orig[read - 1],
        decreases n - read,
    {
        let ghost prev = v@;
        if v[read] != v[write - 1] {
            let x = v[read];
            v.set(write, x);
            proof {
                assert(orig[read as int] > orig[read - 1]) by {
                    assert(orig[read - 1] <= orig[read as int]);
                }
                assert(v@.subrange(0, write + 1) =~= prev.subrange(0, write as int).push(x));
                assert(orig.subrange(0, read + 1) =~= orig.subrange(0, read as int).push(orig[read as int]));
                let w1 = v@.subrange(0, write + 1);
                let o1 = orig.subrange(0, read + 1);
                let p0 = prev.subrange(0, write as int);
                let o0 = orig.subrange(0, read as int);
                assert(x == orig[read as int]);
                assert(w1 == p0.push(x));
                assert(o1 == o0.push(x));
                assert forall|y: usize| #[trigger] w1.contains(y) <==> o1.contains(y) by {
                    assert(p0.contains(y) <==> o0.contains(y));
                    lemma_push_contains(p0, x, y);
                    lemma_push_contains(o0, x, y);
                }
                let nw = v@.subrange(0, write + 1);
                assert forall|a: int, b: int| 0 <= a < b < write + 1 implies #[trigger] nw[a] < #[trigger] nw[b] by {
                    if b == write {
                        if a < write - 1 {
                            assert(prev.subrange(0, write as int)[a] < prev.subrange(0, write as int)[write - 1]);
                        }
                    } else {
                        assert(prev.subrange(0, write as int)[a] < prev.subrange(0, write as int)[b]);
                    }
                }
            }
            write = write + 1;
        } else {
            proof {
                assert(orig.subrange(0, read + 1) =~= orig.subrange(0, read as int).push(orig[read as int]));
                assert(v@.subrange(0, write as int)[write - 1] == orig[read as int]);
                assert(v@.subrange(0, write as int).contains(orig[read as int]));
                let w0 = v@.subrange(0, write as int);
                let o1 = orig.subrange(0, read + 1);
                assert forall|y: usize| #[trigger] w0.contains(y) <==> o1.contains(y) by {
                    assert(v@.subrange(0, write as int).contains(y) <==> orig.subrange(0, read as int).contains(y));
                }
            }
        }
        read = read + 1;
    }
    v.truncate(write);
    proof {
        assert(v@ =~= v@.subrange(0, write as int));
        assert(orig.subrange(0, n as int) =~= orig);
    }
}

/// Binary search for `x` in the strictly increasing run `v[lo..hi)`.
///
/// Returns `Ok(k)` with `v[k] == x`, or `Err(p)` where `p` is the position
/// at which `x` would be inserted to keep the run sorted.
pub fn search_run(v: &Vec<usize>, lo: usize, hi: usize, x: usize) -> (r: Result<usize, usize>)
    requires
        lo <= hi <= v@.len(),
        forall|a: int, b: int| lo <= a < b < hi ==> v@[a] < v@[b],
    ensures
        match r {
            Ok(k) => lo <= k < hi && v@[k as int] == x,
            Err(p) => {
                &&& lo <= p <= hi
                &&& forall|k: int| lo <= k < p ==> v@[k] < x
                &&& forall|k: int| p <= k < hi ==> v@[k] > x
            },
        },
        r is Err <==> (forall|k: int| lo <= k < hi ==> v@[k] != x),
{
    let mut a: usize = lo;
    let mut b: usize = hi;
    while a < b
        invariant
            lo <= a <= b <= hi <= v@.len(),
            forall|p: int, q: int| lo <= p < q < hi ==> v@[p] < v@[q],
            forall|k: int| lo <= k < a ==> v@[k] < x,
            forall|k: int| b <= k < hi ==> v@[k] > x,
        decreases b - a,
    {
        let mid = a + (b - a) / 2;
        if v[mid] == x {
            return Ok(mid);
        } else if v[mid] < x {
            a = mid + 1;
        } else {
            b = mid;
        }
    }
    Err(a)
}

/// Normalise one row (or column) of a sparsity pattern: sort the indices,
/// drop repeats and, when `diag` is given, make sure it is present.
pub fn normalize_indices(cols: &Vec<usize>, diag: Option<usize>) -> (r: Vec<usize>)
    ensures
        strictly_sorted(r@),
        forall|x: usize| r@.contains(x) <==> (cols@.contains(x) || diag == Some(x)),
        r@.len() <= cols@.len() + 1,
{
    let mut v = cols.clone();
    sort_indices(&mut v);
    dedup_sorted(&mut v);
    let len = v.len();
    match diag {
        Some(d) => {
            match search_run(&v, 0, len, d) {
                Ok(_) => {},
                Err(p) => {
                    let ghost before = v@;
                    v.insert(p, d);
                    proof {
                        assert(v@ =~= before.subrange(0, p as int).push(d) + before.subrange(p as int, before.len() as int));
                        assert forall|x: usize| v@.contains(x) <==> (before.contains(x) || x == d) by {
                            if v@.contains(x) {
                                let k = choose|k: int| 0 <= k < v@.len() && v@[k] == x;
                                if k < p {
                                    assert(before[k] == x);
                                } else if k > p {
                                    assert(before[k - 1] == x);
                                }
                            }
                            if before.contains(x) {
                                let k = choose|k: int| 0 <= k < before.len() && before[k] == x;
                                if k < p {
                                    assert(v@[k] == x);
                                } else {
                                    assert(v@[k + 1] == x);
                                }
                            }
                            if x == d {
                                assert(v@[p as int] == x);
                            }
                        }
                    }
                },
            }
        },
        None => {},
    }
    v
}

} // verus!

verus! {

/// Sequences with equal multisets contain the same elements.
pub proof fn lemma_multiset_contains<A>(a: Seq<A>, b: Seq<A>, x: A)
    requires
        a.to_multiset() == b.to_multiset(),
    ensures
        a.contains(x) <==> b.contains(x),
{
    a.to_multiset_ensures();
    b.to_multiset_ensures();
    assert(a.to_multiset().count(x) == b.to_multiset().count(x));
    assert(a.contains(x) <==> a.to_multiset().count(x) > 0);
    assert(b.contains(x) <==> b.to_multiset().count(x) > 0);
}

/// A list of distinct indices below `n` has at most `n` entries.
pub proof fn lemma_distinct_bound(q: Seq<usize>, n: int)
    requires
        0 <= n,
        q.no_duplicates(),
        forall|k: int| 0 <= k < q.len() ==> #[trigger] q[k] < n,
    ensures
        q.len() <= n,
{
    let f = |k: int| q[k] as int;
    assert forall|i: int, j: int| 0 <= i < j < q.len() implies #[trigger] f(i) != #[trigger] f(j) by {
        assert(q[i] != q[j]);
    }
    crate::ordering::permutation::lemma_injective_bound(q.len() as int, n, f);
}

/// A list of fewer than `n` indices misses some index below `n`.
pub proof fn lemma_missing_index(q: Seq<usize>, n: int)
    requires
        q.len() < n,
        n <= usize::MAX,
    ensures
        exists|v: int| 0 <= v < n && !#[trigger] q.contains(v as usize),
{
    if forall|v: int| 0 <= v < n ==> #[trigger] q.contains(v as usize) {
        let f = |v: int| choose|k: int| 0 <= k < q.len() && q[k] == v as usize;
        assert forall|v: int| 0 <= v < n implies 0 <= #[trigger] f(v) < q.len() by {
            assert(q.contains(v as usize));
        }
        assert forall|i: int, j: int| 0 <= i < j < n implies #[trigger] f(i) != #[trigger] f(j) by {
            assert(q.contains(i as usize));
            assert(q.contains(j as usize));
        }
        crate::ordering::permutation::lemma_injective_bound(n, q.len() as int, f);
    }
}

} // verus!

verus! {

/// Insert `x` into a strictly increasing list, keeping it strictly
/// increasing (no change if `x` is already present).
#[verifier::spinoff_prover]
pub fn sorted_insert(v: &mut Vec<usize>, x: usize)
    requires
        strictly_sorted(old(v)@),
    ensures
        strictly_sorted(final(v)@),
        forall|y: usize| final(v)@.contains(y) <==> (old(v)@.contains(y) || y == x),
{
    let len = v.len();
    match search_run(v, 0, len, x) {
        Ok(_) => {},
        Err(p) => {
            let ghost before = v@;
            v.insert(p, x);
            proof {
                assert(v@ =~= before.subrange(0, p as int).push(x) + before.subrange(p as int, before.len() as int));
                assert forall|y: usize| v@.contains(y) <==> (before.contains(y) || y == x) by {
                    if v@.contains(y) {
                        let k = choose|k: int| 0 <= k < v@.len() && v@[k] == y;
                        if k < p {
                            assert(before[k] == y);
                        } else if k > p {
                            assert(before[k - 1] == y);
                        }
                    }
                    if before.contains(y) {
                        let k = choose|k: int| 0 <= k < before.len() && before[k] == y;
                        if k < p {
                            assert(v@[k] == y);
                        } else {
                            assert(v@[k + 1] == y);
                        }
                    }
                    if y == x {
                        assert(v@[p as int] == y);
                    }
                }
                assert forall|a: int, b: int| 0 <= a < b < v@.len() implies v@[a] < v@[b] by {
                    if b < p {
                    } else if a < p && b == p {
                    } else if a < p && b > p {
                        assert(before[a] < before[b - 1]);
                    } else if a == p {
                        assert(v@[b] == before[b - 1]);
                    } else {
                        assert(before[a - 1] < before[b - 1]);
                    }
                }
            }
        },
    }
}

/// Remove `x` from a strictly increasing list, if present.
#[verifier::spinoff_prover]
pub fn sorted_remove(v: &mut Vec<usize>, x: usize)
    requires
        strictly_sorted(old(v)@),
    ensures
        strictly_sorted(final(v)@),
        forall|y: usize| final(v)@.contains(y) <==> (old(v)@.contains(y) && y != x),
{
    let len = v.len();
    match search_run(v, 0, len, x) {
        Ok(p) => {
            let ghost before = v@;
            v.remove(p);
            proof {
                assert forall|y: usize| v@.contains(y) <==> (before.contains(y) && y != x) by {
                    if v@.contains(y) {
                        let k = choose|k: int| 0 <= k < v@.len() && v@[k] == y;
                        if k < p {
                            assert(before[k] == y);
                            assert(before[k] < before[p as int]);
                        } else {
                            assert(before[k + 1] == y);
                            assert(before[p as int] < before[k + 1]);
                        }
                    }
                    if before.contains(y) && y != x {
                        let k = choose|k: int| 0 <= k < before.len() && before[k] == y;
                        if k < p {
                            assert(v@[k] == y);
                        } else {
                            assert(k != p);
                            assert(v@[k - 1] == y);
                        }
                    }
                }
                assert forall|a: int, b: int| 0 <= a < b < v@.len() implies v@[a] < v@[b] by {
                    if b < p {
                    } else if a < p {
                        assert(before[a] < before[b + 1]);
                    } else {
                        assert(before[a + 1] < before[b + 1]);
                    }
                }
            }
        },
        Err(_) => {},
    }
}

} // verus!

verus! {

/// Copy an index slice into a new vector.
pub fn copy_indices(s: &[usize]) -> (r: Vec<usize>)
    ensures
        r@ == s@,
{
    let mut r: Vec<usize> = Vec::new();
    let mut i: usize = 0;
    while i < s.len()
        invariant
            0 <= i <= s@.len(),
            r@ == s@.take(i as int),
        decreases s@.len() - i,
    {
        r.push(s[i]);
        proof {
            assert(r@ =~= s@.take(i + 1));
        }
        i = i + 1;
    }
    proof {
        assert(s@.take(s@.len() as int) =~= s@);
    }
    r
}

} // verus!
