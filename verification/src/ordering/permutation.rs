//! Reordering permutations: `perm[new] = old`.
use vstd::prelude::*;
use crate::error::SparseError;
use crate::scalar::{SparseScalar, is_zero_value};
use crate::sym::SymCsrMatrix;

verus! {

/// `s` is a permutation of `0..s.len()`.
pub open spec fn is_perm(s: Seq<usize>) -> bool {
    &&& forall|i: int| 0 <= i < s.len() ==> #[trigger] s[i] < s.len()
    &&& forall|i: int, j: int| 0 <= i < j < s.len() ==> #[trigger] s[i] != #[trigger] s[j]
}

/// Position `k` of `s` is rejected by `Permutation::new`: out of range, or
/// a repeat of an earlier entry.
pub open spec fn perm_entry_bad(s: Seq<usize>, k: int) -> bool {
    &&& 0 <= k < s.len()
    &&& (s[k] >= s.len() || exists|j: int| 0 <= j < k && s[j] == s[k])
}

/// The error `Permutation::new` reports for a rejected position `k`.
pub open spec fn perm_entry_error(s: Seq<usize>, k: int) -> SparseError {
    SparseError::DimensionMismatch { expected: s.len() as usize, got: s[k] }
}

/// The position of `old` in the permutation `s`: its new index.
pub open spec fn new_index_of(s: Seq<usize>, old: int) -> int {
    choose|i: int| 0 <= i < s.len() && s[i] == old
}

/// `v` reordered by `s`: entry `i` is `v[s[i]]`.
pub open spec fn permuted<T>(s: Seq<usize>, v: Seq<T>) -> Seq<T> {
    Seq::new(s.len(), |i: int| v[s[i] as int])
}

/// `v` reordered by the inverse of `s`: entry `s[i]` is `v[i]`.
pub open spec fn inverse_permuted<T>(s: Seq<usize>, v: Seq<T>) -> Seq<T> {
    Seq::new(s.len(), |j: int| v[new_index_of(s, j)])
}

/// A permutation hits every index exactly once.
pub proof fn lemma_perm_onto(s: Seq<usize>, old: int)
    requires
        is_perm(s),
        0 <= old < s.len(),
    ensures
        0 <= new_index_of(s, old) < s.len(),
        s[new_index_of(s, old)] == old,
{
    lemma_perm_surjective(s, s.len() as int, old);
}

/// Every value below `m` occurs among the first ... entries: by counting,
/// a permutation of length `n` takes every value of `0..n`.
proof fn lemma_perm_surjective(s: Seq<usize>, m: int, old: int)
    requires
        is_perm(s),
        m == s.len(),
        0 <= old < m,
    ensures
        exists|i: int| 0 <= i < s.len() && s[i] == old,
{
    if !(exists|i: int| 0 <= i < s.len() && s[i] == old) {
        // `s` maps `0..m` injectively into `0..m` minus `old`: impossible.
        let f = |i: int| if s[i] < old { s[i] as int } else { s[i] - 1 };
        assert forall|i: int| 0 <= i < m implies 0 <= #[trigger] f(i) < m - 1 by {
            assert(s[i] != old);
        }
        lemma_pigeonhole(m, f);
        let (i, j) = choose|i: int, j: int| 0 <= i < j < m && #[trigger] f(i) == #[trigger] f(j);
        assert(s[i] != s[j]);
    }
}

/// Pigeonhole: a map from `0..n` into `0..n - 1` takes some value twice.
proof fn lemma_pigeonhole(n: int, f: spec_fn(int) -> int)
    requires
        n >= 1,
        forall|i: int| 0 <= i < n ==> 0 <= #[trigger] f(i) < n - 1,
    ensures
        exists|i: int, j: int| 0 <= i < j < n && #[trigger] f(i) == #[trigger] f(j),
    decreases n,
{
    if n == 1 {
        let x = f(0);
        assert(0 <= x < n - 1);
    } else if !(exists|i: int, j: int| 0 <= i < j < n && #[trigger] f(i) == #[trigger] f(j)) {
        let last = f(n - 1);
        let g = |i: int| if f(i) == n - 2 { last } else { f(i) };
        assert forall|i: int| 0 <= i < n - 1 implies 0 <= #[trigger] g(i) < n - 2 by {
            assert(f(i) != f(n - 1));
        }
        lemma_pigeonhole(n - 1, g);
        let (i, j) = choose|i: int, j: int| 0 <= i < j < n - 1 && #[trigger] g(i) == #[trigger] g(j);
        assert(f(i) != f(j));
        assert(f(i) != f(n - 1));
        assert(f(j) != f(n - 1));
    }
}

/// An injective map from `0..m` into `0..n` needs `m <= n`.
pub proof fn lemma_injective_bound(m: int, n: int, f: spec_fn(int) -> int)
    requires
        0 <= n,
        forall|i: int| 0 <= i < m ==> 0 <= #[trigger] f(i) < n,
        forall|i: int, j: int| 0 <= i < j < m ==> #[trigger] f(i) != #[trigger] f(j),
    ensures
        m <= n,
{
    if m > n {
        lemma_pigeonhole(n + 1, f);
        let (i, j) = choose|i: int, j: int| 0 <= i < j < n + 1 && #[trigger] f(i) == #[trigger] f(j);
        assert(f(i) != f(j));
    }
}

/// Undoing a reordering gives back the original vector.
pub proof fn lemma_inverse_permuted_undoes<T>(s: Seq<usize>, v: Seq<T>)
    requires
        is_perm(s),
        v.len() == s.len(),
    ensures
        inverse_permuted(s, permuted(s, v)) == v,
        permuted(s, inverse_permuted(s, v)) == v,
{
    let w = permuted(s, v);
    assert forall|j: int| 0 <= j < s.len() implies #[trigger] inverse_permuted(s, w)[j] == v[j] by {
        lemma_perm_onto(s, j);
    }
    assert(inverse_permuted(s, w) =~= v);
    let u = inverse_permuted(s, v);
    assert forall|i: int| 0 <= i < s.len() implies #[trigger] permuted(s, u)[i] == v[i] by {
        let j = s[i] as int;
        lemma_perm_onto(s, j);
        let k = new_index_of(s, j);
        if k != i {
            if k < i {
                assert(s[k] != s[i]);
            } else {
                assert(s[i] != s[k]);
            }
        }
    }
    assert(permuted(s, u) =~= v);
}

/// A reordering permutation: `perm[new_index] = old_index`.  Every index
/// of `0..len` appears exactly once.
#[derive(Debug, PartialEq, Eq)]
pub struct Permutation {
    perm: Vec<usize>,
}

impl Clone for Permutation {
    fn clone(&self) -> (r: Self)
        ensures
            r@ == self@,
    {
        proof {
            use_type_invariant(self);
        }
        let perm = self.perm.clone();
        proof {
            assert(perm@ =~= self.perm@);
        }
        Permutation { perm }
    }
}

impl View for Permutation {
    type V = Seq<usize>;

    closed spec fn view(&self) -> Seq<usize> {
        self.perm@
    }
}

impl Permutation {
    /// The entries form a permutation.
    #[verifier::type_invariant]
    pub closed spec fn well_formed(&self) -> bool {
        is_perm(self.perm@)
    }

    /// The view of a well-formed permutation is a permutation.
    pub proof fn lemma_well_formed(&self)
        requires
            self.well_formed(),
        ensures
            is_perm(self@),
    {
    }

    /// Build from a raw vector.
    ///
    /// Error: `DimensionMismatch` if `perm` is not a permutation of
    /// `0..perm.len()`, with `expected` the length and `got` the entry at
    /// the first rejected position (one out of range, or one repeated).
    pub fn new(perm: Vec<usize>) -> (r: Result<Self, SparseError>)
        ensures
            r is Ok <==> is_perm(perm@),
            r matches Ok(p) ==> p@ == perm@,
            r matches Err(e) ==> exists|k: int| {
                &&& #[trigger] perm_entry_bad(perm@, k)
                &&& forall|j: int| 0 <= j < k ==> !perm_entry_bad(perm@, j)
                &&& e == perm_entry_error(perm@, k)
            },
    {
        let n = perm.len();
        let mut seen: Vec<bool> = Vec::new();
        let mut t: usize = 0;
        while t < n
            invariant
                0 <= t <= n,
                seen@.len() == t,
                forall|q: int| 0 <= q < t ==> !#[trigger] seen@[q],
            decreases n - t,
        {
            seen.push(false);
            t = t + 1;
        }
        let mut k: usize = 0;
        while k < n
            invariant
                n == perm@.len(),
                seen@.len() == n,
                0 <= k <= n,
                forall|v: int| 0 <= v < n ==> (#[trigger] seen@[v] <==> exists|j: int| 0 <= j < k && perm@[j] == v),
                forall|j: int| 0 <= j < k ==> !#[trigger] perm_entry_bad(perm@, j),
            decreases n - k,
        {
            let p = perm[k];
            if p >= n {
                proof {
                    assert(perm_entry_bad(perm@, k as int));
                    assert(!is_perm(perm@)) by {
                        assert(perm@[k as int] >= n);
                    }
                }
                return Err(SparseError::DimensionMismatch { expected: n, got: p });
            }
            if seen[p] {
                proof {
                    assert(perm_entry_bad(perm@, k as int));
                    let j = choose|j: int| 0 <= j < k && perm@[j] == p;
                    assert(!is_perm(perm@)) by {
                        assert(perm@[j] == perm@[k as int]);
                    }
                }
                return Err(SparseError::DimensionMismatch { expected: n, got: p });
            }
            proof {
                assert(!perm_entry_bad(perm@, k as int));
            }
            seen.set(p, true);
            k = k + 1;
        }
        proof {
            assert forall|i: int, j: int| 0 <= i < j < n implies #[trigger] perm@[i] != #[trigger] perm@[j] by {
                assert(!perm_entry_bad(perm@, j));
            }
            assert forall|i: int| 0 <= i < n implies #[trigger] perm@[i] < n by {
                assert(!perm_entry_bad(perm@, i));
            }
        }
        Ok(Permutation { perm })
    }

    /// Identity permutation of size `n`.
    pub fn identity(n: usize) -> (r: Self)
        ensures
            r@ == Seq::new(n as nat, |i: int| i as usize),
    {
        let mut perm: Vec<usize> = Vec::new();
        let mut i: usize = 0;
        while i < n
            invariant
                0 <= i <= n,
                perm@ == Seq::new(i as nat, |k: int| k as usize),
            decreases n - i,
        {
            perm.push(i);
            proof {
                assert(perm@ =~= Seq::new((i + 1) as nat, |k: int| k as usize));
            }
            i = i + 1;
        }
        Permutation { perm }
    }

    /// Length of the permutation.
    pub fn len(&self) -> (r: usize)
        ensures
            r == self@.len(),
            is_perm(self@),
    {
        proof {
            use_type_invariant(self);
        }
        self.perm.len()
    }

    /// `true` if the permutation has length 0.
    pub fn is_empty(&self) -> (r: bool)
        ensures
            r <==> self@.len() == 0,
    {
        self.perm.len() == 0
    }

    /// The old index that maps to `new`.
    pub fn old_index(&self, new: usize) -> (r: usize)
        requires
            new < self@.len(),
        ensures
            r == self@[new as int],
            r < self@.len(),
    {
        proof {
            use_type_invariant(self);
        }
        self.perm[new]
    }

    /// Raw slice: `perm[new] = old`.
    pub fn as_slice(&self) -> (r: &[usize])
        ensures
            r@ == self@,
            is_perm(self@),
    {
        proof {
            use_type_invariant(self);
        }
        self.perm.as_slice()
    }

    /// The inverse permutation: `inv[old] = new`.
    pub fn inverse(&self) -> (r: Self)
        ensures
            r@.len() == self@.len(),
            forall|i: int| 0 <= i < self@.len() ==> #[trigger] r@[self@[i] as int] == i,
            forall|j: int| 0 <= j < self@.len() ==> #[trigger] self@[r@[j] as int] == j,
    {
        proof {
            use_type_invariant(self);
        }
        let n = self.perm.len();
        let mut inv: Vec<usize> = Vec::new();
        let mut t: usize = 0;
        while t < n
            invariant
                0 <= t <= n,
                inv@.len() == t,
            decreases n - t,
        {
            inv.push(0);
            t = t + 1;
        }
        let mut i: usize = 0;
        while i < n
            invariant
                n == self.perm@.len(),
                is_perm(self.perm@),
                inv@.len() == n,
                0 <= i <= n,
                forall|k: int| 0 <= k < i ==> #[trigger] inv@[self.perm@[k] as int] == k,
            decreases n - i,
        {
            let old = self.perm[i];
            let ghost before = inv@;
            inv.set(old, i);
            proof {
                assert forall|k: int| 0 <= k < i + 1 implies #[trigger] inv@[self.perm@[k] as int] == k by {
                    if k < i {
                        assert(self.perm@[k] != self.perm@[i as int]);
                        assert(inv@[self.perm@[k] as int] == before[self.perm@[k] as int]);
                    }
                }
            }
            i = i + 1;
        }
        let ghost s = self.perm@;
        proof {
            assert forall|j: int| 0 <= j < n implies #[trigger] s[inv@[j] as int] == j by {
                lemma_perm_onto(s, j);
                let k = new_index_of(s, j);
                assert(inv@[s[k] as int] == k);
            }
            assert forall|j: int| 0 <= j < n implies #[trigger] inv@[j] < n by {
                lemma_perm_onto(s, j);
                let k = new_index_of(s, j);
                assert(inv@[s[k] as int] == k);
            }
            assert forall|a: int, b: int| 0 <= a < b < n implies #[trigger] inv@[a] != #[trigger] inv@[b] by {
                assert(s[inv@[a] as int] == a);
                assert(s[inv@[b] as int] == b);
            }
        }
        Permutation { perm: inv }
    }

    /// `true` if this is the identity permutation.
    pub fn is_identity(&self) -> (r: bool)
        ensures
            r <==> forall|i: int| 0 <= i < self@.len() ==> #[trigger] self@[i] == i,
    {
        let n = self.perm.len();
        let mut i: usize = 0;
        while i < n
            invariant
                n == self.perm@.len(),
                0 <= i <= n,
                forall|k: int| 0 <= k < i ==> #[trigger] self.perm@[k] == k,
            decreases n - i,
        {
            if self.perm[i] != i {
                proof {
                    assert(self@[i as int] != i);
                }
                return false;
            }
            i = i + 1;
        }
        true
    }

    /// Apply the permutation to a slice: `out[i] = v[perm[i]]`.
    pub fn apply_to_slice<T: Copy>(&self, v: &[T]) -> (r: Vec<T>)
        requires
            v@.len() == self@.len(),
        ensures
            r@ == permuted(self@, v@),
    {
        proof {
            use_type_invariant(self);
        }
        let n = self.perm.len();
        let mut out: Vec<T> = Vec::new();
        let mut i: usize = 0;
        while i < n
            invariant
                n == self.perm@.len(),
                is_perm(self.perm@),
                v@.len() == n,
                0 <= i <= n,
                out@ == permuted(self.perm@, v@).take(i as int),
            decreases n - i,
        {
            let old = self.perm[i];
            out.push(v[old]);
            proof {
                assert(out@ =~= permuted(self.perm@, v@).take(i + 1));
            }
            i = i + 1;
        }
        proof {
            assert(permuted(self.perm@, v@).take(n as int) =~= permuted(self.perm@, v@));
        }
        out
    }

    /// Apply the inverse permutation to a slice: `out[perm[i]] = v[i]`.
    pub fn apply_inverse_to_slice<T: Copy + Default>(&self, v: &[T]) -> (r: Vec<T>)
        requires
            v@.len() == self@.len(),
        ensures
            r@ == inverse_permuted(self@, v@),
            forall|i: int| 0 <= i < self@.len() ==> #[trigger] r@[self@[i] as int] == v@[i],
    {
        proof {
            use_type_invariant(self);
        }
        let n = self.perm.len();
        let mut out: Vec<T> = Vec::new();
        let mut t: usize = 0;
        while t < n
            invariant
                0 <= t <= n,
                out@.len() == t,
            decreases n - t,
        {
            out.push(T::default());
            t = t + 1;
        }
        let mut i: usize = 0;
        while i < n
            invariant
                n == self.perm@.len(),
                is_perm(self.perm@),
                v@.len() == n,
                out@.len() == n,
                0 <= i <= n,
                forall|k: int| 0 <= k < i ==> #[trigger] out@[self.perm@[k] as int] == v@[k],
            decreases n - i,
        {
            let old = self.perm[i];
            let ghost before = out@;
            out.set(old, v[i]);
            proof {
                assert forall|k: int| 0 <= k < i + 1 implies #[trigger] out@[self.perm@[k] as int] == v@[k] by {
                    if k < i {
                        assert(self.perm@[k] != self.perm@[i as int]);
                        assert(out@[self.perm@[k] as int] == before[self.perm@[k] as int]);
                    }
                }
            }
            i = i + 1;
        }
        let ghost s = self.perm@;
        proof {
            assert forall|j: int| 0 <= j < n implies #[trigger] out@[j] == inverse_permuted(s, v@)[j] by {
                lemma_perm_onto(s, j);
                let k = new_index_of(s, j);
                assert(out@[s[k] as int] == v@[k]);
            }
            assert(out@ =~= inverse_permuted(s, v@));
        }
        out
    }
}

} // verus!

verus! {

/// No two positions of `m` hold the same index.
pub open spec fn injective_map(m: Seq<usize>) -> bool {
    forall|t1: int, t2: int| 0 <= t1 < t2 < m.len() ==> #[trigger] m[t1] != #[trigger] m[t2]
}

/// Among the first `i` positions of `m`, `t` is the last one holding `u`.
pub open spec fn last_write(m: Seq<usize>, i: int, u: int, t: int) -> bool {
    &&& 0 <= t < i
    &&& m[t] == u
    &&& forall|t2: int| t < t2 < i ==> m[t2] != u
}

/// The last of the first `i` positions of `m` that holds `u`.
pub open spec fn last_writer(m: Seq<usize>, i: int, u: int) -> int {
    choose|t: int| #[trigger] last_write(m, i, u, t)
}

/// The pair `(x, y)` ordered so that the first component is the smaller.
pub open spec fn sorted_pair(x: int, y: int) -> (int, int) {
    if x <= y {
        (x, y)
    } else {
        (y, x)
    }
}

/// `w` is `v` added to a zero value.
pub open spec fn zero_plus<T: SparseScalar>(v: T, w: T) -> bool {
    exists|z: T| is_zero_value(z) && #[trigger] call_ensures(T::plus, (z, v), w)
}

/// `kp` is `P k Pᵀ` for the permutation `p`: entry `(i, j)` of its upper
/// triangle is stored exactly when entry `(p[i], p[j])` of `k` is, its value
/// added once to a zero.
pub open spec fn permuted_sym<T: SparseScalar>(p: Seq<usize>, k: &SymCsrMatrix<T>, kp: &SymCsrMatrix<T>) -> bool {
    &&& kp.wf()
    &&& kp.n == k.n
    &&& kp.values@.len() == k.values@.len()
    &&& forall|i: int, j: int| 0 <= i <= j < k.n ==> {
        let (a, b) = #[trigger] source_of(p, i, j);
        &&& kp.stored(i, j) <==> k.stored(a, b)
        &&& kp.stored(i, j) ==> zero_plus(k.value_at(a, b), kp.value_at(i, j))
    }
}

/// As `permuted_sym`, with `map` taking each storage index of `k` to the
/// storage index of its entry in `kp`.
pub open spec fn permuted_with_map<T: SparseScalar>(p: Seq<usize>, k: &SymCsrMatrix<T>, kp: &SymCsrMatrix<T>, map: Seq<usize>) -> bool {
    &&& kp.wf()
    &&& kp.n == k.n
    &&& kp.values@.len() == k.values@.len()
    &&& map.len() == k.values@.len()
    &&& forall|t: int| 0 <= t < map.len() ==> #[trigger] map[t] < kp.values@.len()
    &&& injective_map(map)
    &&& forall|i: int, j: int| 0 <= i <= j < k.n ==> {
        let (a, b) = #[trigger] source_of(p, i, j);
        &&& kp.stored(i, j) <==> k.stored(a, b)
        &&& kp.stored(i, j) ==> {
            &&& zero_plus(k.value_at(a, b), kp.value_at(i, j))
            &&& map[k.slot(a, b)] == kp.slot(i, j)
        }
    }
}

/// Entry `(i, j)` of the refreshed `kp` is stored exactly when it is in
/// `ks`, with the value of entry `(p[i], p[j])` of `k`, which `ks` holds
/// added once to a zero.
pub open spec fn refreshed_entry<T: SparseScalar>(
    p: Seq<usize>,
    k: &SymCsrMatrix<T>,
    kp: &SymCsrMatrix<T>,
    ks: &SymCsrMatrix<T>,
    i: int,
    j: int,
) -> bool {
    let (a, b) = source_of(p, i, j);
    &&& kp.stored(i, j) <==> ks.stored(i, j)
    &&& kp.stored(i, j) ==> kp.value_at(i, j) == k.value_at(a, b) && zero_plus(kp.value_at(i, j), ks.value_at(i, j))
}

/// Refreshing through the storage map of `permute_sym_with_map` gives what
/// `permute_sym` builds: if `(kp0, map)` was built from `k0`, `k` has the
/// pattern of `k0`, `kp` is `kp0` with each value of `k` written through
/// `map`, and `ks` is `permute_sym` of `k`, then `kp` and `ks` store the same
/// entries, `kp` holds the values of `k` themselves and `ks` each of them
/// added once to a zero.
pub proof fn lemma_refresh_matches_permute<T: SparseScalar>(
    p: Seq<usize>,
    k0: &SymCsrMatrix<T>,
    kp0: &SymCsrMatrix<T>,
    map: Seq<usize>,
    k: &SymCsrMatrix<T>,
    kp: &SymCsrMatrix<T>,
    ks: &SymCsrMatrix<T>,
)
    requires
        k0.wf(),
        k.wf(),
        k.same_pattern(k0),
        permuted_with_map(p, k0, kp0, map),
        kp.same_pattern(kp0),
        forall|t: int| 0 <= t < map.len() ==> #[trigger] kp.values@[map[t] as int] == k.values@[t],
        permuted_sym(p, k, ks),
    ensures
        kp.wf(),
        forall|i: int, j: int| 0 <= i <= j < k.n ==> refreshed_entry(p, k, kp, ks, i, j),
{
    kp0.lemma_same_pattern_slot_all(*kp);
    k0.lemma_same_pattern_slot_all(*k);
    assert forall|i: int, j: int| 0 <= i <= j < k.n implies #[trigger] refreshed_entry(p, k, kp, ks, i, j) by {
        let (a, b) = source_of(p, i, j);
        assert(0 <= i < kp0.n);
        assert(kp0.stored(i, j) <==> k0.stored(a, b));
        assert(ks.stored(i, j) <==> k.stored(a, b));
        assert(kp.stored(i, j) <==> kp0.stored(i, j));
        if kp.stored(i, j) {
            assert(0 <= a < k0.n);
            assert(k.stored(a, b) <==> k0.stored(a, b));
            let t = k0.slot(a, b);
            k0.lemma_slot_is(a, b, t);
            k0.lemma_row_bounds(a);
            assert(map[k0.slot(a, b)] == kp0.slot(i, j));
            assert(kp.slot(i, j) == kp0.slot(i, j));
            assert(k.slot(a, b) == t);
            assert(kp.values@[map[t] as int] == k.values@[t]);
            assert(kp.value_at(i, j) == k.value_at(a, b));
            assert(zero_plus(k.value_at(a, b), ks.value_at(i, j)));
        }
    }
}

/// `s` and `inv` are mutually inverse permutations of `0..n`.
pub open spec fn inverse_pair(s: Seq<usize>, inv: Seq<usize>, n: int) -> bool {
    &&& s.len() == n
    &&& inv.len() == n
    &&& forall|i: int| 0 <= i < n ==> #[trigger] s[i] < n && inv[s[i] as int] == i
    &&& forall|j: int| 0 <= j < n ==> #[trigger] inv[j] < n && s[inv[j] as int] == j
}

/// Old entry `(a, b)` of the upper triangle lands at this new entry.
pub open spec fn moved_to(inv: Seq<usize>, a: int, b: int) -> (int, int) {
    sorted_pair(inv[a] as int, inv[b] as int)
}

/// New entry `(i, j)`, `i <= j`, comes from this old upper-triangle entry.
pub open spec fn source_of(s: Seq<usize>, i: int, j: int) -> (int, int) {
    sorted_pair(s[i] as int, s[j] as int)
}

/// Distinct stored entries of `k` land on distinct new entries.
proof fn lemma_moved_injective<T>(k: &SymCsrMatrix<T>, inv: Seq<usize>, s: Seq<usize>, a1: int, s1: int, a2: int, s2: int)
    requires
        k.wf(),
        inverse_pair(s, inv, k.n as int),
        0 <= a1 < k.n,
        0 <= a2 < k.n,
        k.start(a1) <= s1 < k.end(a1),
        k.start(a2) <= s2 < k.end(a2),
        moved_to(inv, a1, k.col_idx@[s1] as int) == moved_to(inv, a2, k.col_idx@[s2] as int),
    ensures
        s1 == s2,
        a1 == a2,
{
    k.lemma_row_bounds(a1);
    k.lemma_row_bounds(a2);
    assert(crate::sym::upper_row_ok(k.row_ptr@, k.col_idx@, k.n as int, a1));
    assert(crate::sym::upper_row_ok(k.row_ptr@, k.col_idx@, k.n as int, a2));
    let b1 = k.col_idx@[s1] as int;
    let b2 = k.col_idx@[s2] as int;
    assert(a1 <= b1 < k.n);
    assert(a2 <= b2 < k.n);
    assert(s[inv[a1] as int] == a1);
    assert(s[inv[b1] as int] == b1);
    assert(s[inv[a2] as int] == a2);
    assert(s[inv[b2] as int] == b2);
    assert(a1 == a2 && b1 == b2);
    assert(k.is_slot(a1, b1, s1));
    assert(k.is_slot(a1, b1, s2));
    k.lemma_slot_unique(a1, b1, s1, s2);
}

impl Permutation {
    /// Upper-triangle pattern of the permuted matrix: row `r` lists the
    /// columns `c` of the new entries `(r, c)`, with repeats.
    fn permuted_pattern<T: SparseScalar>(&self, inv: &Vec<usize>, k: &SymCsrMatrix<T>) -> (pattern: Vec<Vec<usize>>)
        requires
            k.wf(),
            inverse_pair(self@, inv@, k.n as int),
        ensures
            pattern@.len() == k.n,
            forall|r: int, c: usize| 0 <= r < k.n && #[trigger] pattern@[r]@.contains(c) ==> {
                &&& r <= c < k.n
                &&& k.stored(source_of(self@, r, c as int).0, source_of(self@, r, c as int).1)
            },
            forall|a: int, t: int| 0 <= a < k.n && k.start(a) <= t < k.end(a) ==> {
                let (r, c) = #[trigger] moved_to(inv@, a, k.col_idx@[t] as int);
                pattern@[r]@.contains(c as usize)
            },
    {
        let n = k.n;
        let ghost s = self@;
        let mut pattern: Vec<Vec<usize>> = Vec::new();
        let mut t: usize = 0;
        while t < n
            invariant
                0 <= t <= n,
                pattern@.len() == t,
                forall|q: int| 0 <= q < t ==> #[trigger] pattern@[q]@.len() == 0,
            decreases n - t,
        {
            pattern.push(Vec::new());
            t = t + 1;
        }
        let mut a: usize = 0;
        while a < n
            invariant
                n == k.n,
                k.wf(),
                s == self@,
                inverse_pair(s, inv@, n as int),
                0 <= a <= n,
                pattern@.len() == n,
                forall|r: int, c: usize| 0 <= r < n && #[trigger] pattern@[r]@.contains(c) ==> {
                    &&& r <= c < n
                    &&& k.stored(source_of(s, r, c as int).0, source_of(s, r, c as int).1)
                },
                forall|a2: int, t2: int| 0 <= a2 < a && k.start(a2) <= t2 < k.end(a2) ==> {
                    let (r, c) = #[trigger] moved_to(inv@, a2, k.col_idx@[t2] as int);
                    pattern@[r]@.contains(c as usize)
                },
            decreases n - a,
        {
            proof {
                k.lemma_row_bounds(a as int);
            }
            let start = k.row_ptr[a];
            let end = k.row_ptr[a + 1];
            let mut idx = start;
            while idx < end
                invariant
                    n == k.n,
                    k.wf(),
                    s == self@,
                    inverse_pair(s, inv@, n as int),
                    0 <= a < n,
                    start == k.start(a as int),
                    end == k.end(a as int),
                    end <= k.col_idx@.len(),
                    start <= idx <= end,
                    pattern@.len() == n,
                    forall|r: int, c: usize| 0 <= r < n && #[trigger] pattern@[r]@.contains(c) ==> {
                        &&& r <= c < n
                        &&& k.stored(source_of(s, r, c as int).0, source_of(s, r, c as int).1)
                    },
                    forall|a2: int, t2: int| 0 <= a2 < a && k.start(a2) <= t2 < k.end(a2) ==> {
                        let (r, c) = #[trigger] moved_to(inv@, a2, k.col_idx@[t2] as int);
                        pattern@[r]@.contains(c as usize)
                    },
                    forall|t2: int| start <= t2 < idx ==> {
                        let (r, c) = #[trigger] moved_to(inv@, a as int, k.col_idx@[t2] as int);
                        pattern@[r]@.contains(c as usize)
                    },
                decreases end - idx,
            {
                proof {
                    assert(crate::sym::upper_row_ok(k.row_ptr@, k.col_idx@, n as int, a as int));
                }
                let b = k.col_idx[idx];
                let ni = inv[a];
                let nj = inv[b];
                let (r, c) = if ni <= nj { (ni, nj) } else { (nj, ni) };
                let ghost before = pattern@;
                pattern[r].push(c);
                proof {
                    assert((r as int, c as int) == moved_to(inv@, a as int, b as int));
                    assert(k.is_slot(a as int, b as int, idx as int));
                    assert(source_of(s, r as int, c as int) == (a as int, b as int));
                    crate::sym::lemma_pattern_push(before, pattern@, r as int, c);
                }
                idx = idx + 1;
            }
            a = a + 1;
        }
        pattern
    }
}

} // verus!

verus! {

impl Permutation {
    /// Permute a symmetric matrix, `K_perm[i, j] = K[perm[i], perm[j]]`,
    /// and return the map from storage indices of `k` to storage indices of
    /// the permuted matrix.
    ///
    /// Each stored value is accumulated once into a zero-valued entry of the
    /// permuted pattern.  Error: `DimensionMismatch` if the lengths differ.
    pub fn permute_sym_with_map<T: SparseScalar>(&self, k: &SymCsrMatrix<T>) -> (r: Result<(SymCsrMatrix<T>, Vec<usize>), SparseError>)
        requires
            k.wf(),
        ensures
            self@.len() != k.n ==> r == Err::<(SymCsrMatrix<T>, Vec<usize>), SparseError>(
                SparseError::DimensionMismatch { expected: k.n, got: self@.len() as usize },
            ),
            self@.len() == k.n ==> r is Ok,
            r matches Ok((kp, map)) ==> permuted_with_map(self@, k, &kp, map@),
    {
        let n = k.n;
        if self.perm.len() != n {
            return Err(SparseError::DimensionMismatch { expected: n, got: self.perm.len() });
        }
        proof {
            use_type_invariant(self);
        }
        let inv_p = self.inverse();
        proof {
            use_type_invariant(&inv_p);
        }
        let inv = inv_p.perm;
        let ghost s = self@;
        proof {
            assert(inverse_pair(s, inv@, n as int));
        }
        let pattern = self.permuted_pattern(&inv, k);
        proof {
            assert forall|r: int, q: int| !#[trigger] crate::sym::upper_entry_bad(n, pattern@, r, q) by {
                if 0 <= r < pattern@.len() && 0 <= q < pattern@[r]@.len() {
                    assert(pattern@[r]@.contains(pattern@[r]@[q]));
                }
            }
        }
        let mut kp = match SymCsrMatrix::from_pattern(n, &pattern) {
            Ok(m) => m,
            Err(e) => {
                proof {
                    assert(false);
                }
                return Err(e);
            },
        };
        let ghost kp0 = kp;
        // every stored entry of `k` has its target in the new pattern
        proof {
            assert forall|a: int, t: int| 0 <= a < n && k.start(a) <= t < k.end(a) implies
                #[trigger] kp0.stored(moved_to(inv@, a, k.col_idx@[t] as int).0, moved_to(inv@, a, k.col_idx@[t] as int).1) by {
                let (r, c) = moved_to(inv@, a, k.col_idx@[t] as int);
                assert(pattern@[r]@.contains(c as usize));
                k.lemma_row_bounds(a);
                assert(crate::sym::upper_row_ok(k.row_ptr@, k.col_idx@, n as int, a));
            }
        }
        proof {
            assert forall|a2: int, t2: int| 0 <= a2 < n && k.start(a2) <= t2 < k.end(a2) implies {
                let (r, c) = #[trigger] moved_to(inv@, a2, k.col_idx@[t2] as int);
                is_zero_value(kp.values@[kp0.slot(r, c)])
            } by {
                let (r, c) = moved_to(inv@, a2, k.col_idx@[t2] as int);
                assert(kp0.stored(r, c));
                let t = kp0.slot(r, c);
                assert(kp0.is_slot(r, c, t));
                kp0.lemma_row_bounds(r);
            }
        }
        let nnz = k.values.len();
        let mut map: Vec<usize> = Vec::new();
        let mut q: usize = 0;
        while q < nnz
            invariant
                0 <= q <= nnz,
                map@.len() == q,
            decreases nnz - q,
        {
            map.push(0);
            q = q + 1;
        }
        let mut a: usize = 0;
        while a < n
            invariant
                n == k.n,
                k.wf(),
                nnz == k.values@.len(),
                s == self@,
                inverse_pair(s, inv@, n as int),
                kp0.wf(),
                kp0.n == n,
                kp0.all_zero(),
                kp.wf(),
                kp.same_pattern(&kp0),
                map@.len() == nnz,
                0 <= a <= n,
                forall|a2: int, t2: int| 0 <= a2 < n && k.start(a2) <= t2 < k.end(a2) ==>
                    #[trigger] kp0.stored(moved_to(inv@, a2, k.col_idx@[t2] as int).0, moved_to(inv@, a2, k.col_idx@[t2] as int).1),
                forall|a2: int, t2: int| 0 <= a2 < n && k.start(a2) <= t2 < k.end(a2) ==> {
                    let (r, c) = #[trigger] moved_to(inv@, a2, k.col_idx@[t2] as int);
                    if a2 < a {
                        &&& map@[t2] == kp0.slot(r, c)
                        &&& zero_plus(k.values@[t2], kp.values@[kp0.slot(r, c)])
                    } else {
                        is_zero_value(kp.values@[kp0.slot(r, c)])
                    }
                },
            decreases n - a,
        {
            proof {
                k.lemma_row_bounds(a as int);
            }
            let start = k.row_ptr[a];
            let end = k.row_ptr[a + 1];
            let mut idx = start;
            while idx < end
                invariant
                    n == k.n,
                    k.wf(),
                    nnz == k.values@.len(),
                    s == self@,
                    inverse_pair(s, inv@, n as int),
                    kp0.wf(),
                    kp0.n == n,
                    kp.wf(),
                    kp.same_pattern(&kp0),
                    map@.len() == nnz,
                    0 <= a < n,
                    start == k.start(a as int),
                    end == k.end(a as int),
                    end <= nnz,
                    start <= idx <= end,
                    forall|a2: int, t2: int| 0 <= a2 < n && k.start(a2) <= t2 < k.end(a2) ==>
                        #[trigger] kp0.stored(moved_to(inv@, a2, k.col_idx@[t2] as int).0, moved_to(inv@, a2, k.col_idx@[t2] as int).1),
                    forall|a2: int, t2: int| 0 <= a2 < n && k.start(a2) <= t2 < k.end(a2) ==> {
                        let (r, c) = #[trigger] moved_to(inv@, a2, k.col_idx@[t2] as int);
                        if a2 < a || (a2 == a && t2 < idx) {
                            &&& map@[t2] == kp0.slot(r, c)
                            &&& zero_plus(k.values@[t2], kp.values@[kp0.slot(r, c)])
                        } else {
                            is_zero_value(kp.values@[kp0.slot(r, c)])
                        }
                    },
                decreases end - idx,
            {
                proof {
                    assert(crate::sym::upper_row_ok(k.row_ptr@, k.col_idx@, n as int, a as int));
                    k.lemma_row_bounds(a as int);
                }
                let b = k.col_idx[idx];
                let val = k.values[idx];
                let ni = inv[a];
                let nj = inv[b];
                let (r, c) = if ni <= nj { (ni, nj) } else { (nj, ni) };
                let ghost rc = moved_to(inv@, a as int, b as int);
                let ghost pre = kp;
                proof {
                    assert(rc == (r as int, c as int));
                    assert(kp0.stored(rc.0, rc.1));
                    kp0.lemma_same_pattern_slot(pre, r as int, c as int);
                }
                let t = match kp.add_value_and_return_index(r, c, val) {
                    Ok(t) => t,
                    Err(e) => {
                        proof {
                            assert(false);
                        }
                        return Err(e);
                    },
                };
                let ghost map_before = map@;
                map.set(idx, t);
                proof {
                    let t0 = kp0.slot(r as int, c as int);
                    assert(t == t0);
                    assert(call_ensures(T::plus, (pre.values@[t0], val), kp.values@[t0]));
                    assert(is_zero_value(pre.values@[t0]));
                    assert(zero_plus(val, kp.values@[t0]));
                    assert forall|a2: int, t2: int| 0 <= a2 < n && k.start(a2) <= t2 < k.end(a2) implies {
                        let (r2, c2) = #[trigger] moved_to(inv@, a2, k.col_idx@[t2] as int);
                        if a2 < a || (a2 == a && t2 < idx + 1) {
                            &&& map@[t2] == kp0.slot(r2, c2)
                            &&& zero_plus(k.values@[t2], kp.values@[kp0.slot(r2, c2)])
                        } else {
                            is_zero_value(kp.values@[kp0.slot(r2, c2)])
                        }
                    } by {
                        let (r2, c2) = moved_to(inv@, a2, k.col_idx@[t2] as int);
                        if t2 != idx {
                            if a2 < a {
                                k.lemma_rows_disjoint(a2, a as int);
                            } else if a2 > a {
                                k.lemma_rows_disjoint(a as int, a2);
                            }
                            assert(map@[t2] == map_before[t2]);
                            if moved_to(inv@, a2, k.col_idx@[t2] as int) == rc {
                                lemma_moved_injective(k, inv@, s, a2, t2, a as int, idx as int);
                            }
                            assert(kp0.stored(r2, c2));
                            assert(r2 < n) by {
                                assert(inv@[a2] < n);
                                assert(inv@[k.col_idx@[t2] as int] < n) by {
                                    assert(crate::sym::upper_row_ok(k.row_ptr@, k.col_idx@, n as int, a2));
                                }
                            }
                            if kp0.slot(r2, c2) == t0 {
                                kp0.lemma_slot_injective(r2, c2, r as int, c as int);
                            }
                            assert(kp.values@[kp0.slot(r2, c2)] == pre.values@[kp0.slot(r2, c2)]);
                        } else {
                            assert(a2 == a) by {
                                if a2 < a {
                                    k.lemma_rows_disjoint(a2, a as int);
                                } else if a2 > a {
                                    k.lemma_rows_disjoint(a as int, a2);
                                }
                            }
                        }
                    }
                }
                idx = idx + 1;
            }
            a = a + 1;
        }
        proof {
            assert forall|i: int, j: int| 0 <= i <= j < n implies {
                let (a, b) = #[trigger] source_of(s, i, j);
                &&& kp.stored(i, j) <==> k.stored(a, b)
                &&& kp.stored(i, j) ==> {
                    &&& zero_plus(k.value_at(a, b), kp.value_at(i, j))
                    &&& map@[k.slot(a, b)] == kp.slot(i, j)
                }
            } by {
                let (a, b) = source_of(s, i, j);
                assert(inv@[s[i] as int] == i);
                assert(inv@[s[j] as int] == j);
                kp0.lemma_same_pattern_slot(kp, i, j);
                if k.stored(a, b) {
                    let t = k.slot(a, b);
                    assert(k.is_slot(a, b, t));
                    assert(moved_to(inv@, a, k.col_idx@[t] as int) == (i, j));
                    assert(kp0.stored(i, j));
                    k.lemma_slot_is(a, b, t);
                }
                if kp.stored(i, j) {
                    if i == j {
                        k.lemma_row_bounds(a);
                        assert(k.is_slot(a, a, k.start(a)));
                    } else {
                        assert(pattern@[i]@.contains(j as usize));
                    }
                    let t = k.slot(a, b);
                    assert(k.is_slot(a, b, t));
                    k.lemma_slot_is(a, b, t);
                    assert(moved_to(inv@, a, k.col_idx@[t] as int) == (i, j));
                }
            }
                    kp0.lemma_same_pattern_slot_all(kp);
            // the storage map is injective and onto: both matrices store the
            // same number of entries
            let f1 = |t: int| map@[t] as int;
            assert forall|t: int| 0 <= t < nnz implies 0 <= #[trigger] f1(t) < kp.values@.len() by {
                k.lemma_row_of(t);
                let a2 = k.row_of(t);
                let (r2, c2) = moved_to(inv@, a2, k.col_idx@[t] as int);
                assert(kp0.stored(r2, c2));
                let u = kp0.slot(r2, c2);
                assert(kp0.is_slot(r2, c2, u));
                assert(inv@[a2] < n);
                assert(crate::sym::upper_row_ok(k.row_ptr@, k.col_idx@, n as int, a2));
                kp0.lemma_row_bounds(r2);
            }
            assert forall|t1: int, t2: int| 0 <= t1 < t2 < nnz implies #[trigger] f1(t1) != #[trigger] f1(t2) by {
                k.lemma_row_of(t1);
                k.lemma_row_of(t2);
                let a1 = k.row_of(t1);
                let a2 = k.row_of(t2);
                let (r1, c1) = moved_to(inv@, a1, k.col_idx@[t1] as int);
                let (r2, c2) = moved_to(inv@, a2, k.col_idx@[t2] as int);
                assert(crate::sym::upper_row_ok(k.row_ptr@, k.col_idx@, n as int, a1));
                assert(crate::sym::upper_row_ok(k.row_ptr@, k.col_idx@, n as int, a2));
                assert(inv@[a1] < n && inv@[a2] < n);
                if f1(t1) == f1(t2) {
                    kp0.lemma_slot_injective(r1, c1, r2, c2);
                    lemma_moved_injective(k, inv@, s, a1, t1, a2, t2);
                }
            }
            lemma_injective_bound(nnz as int, kp.values@.len() as int, f1);
            assert forall|t1: int, t2: int| 0 <= t1 < t2 < map@.len() implies #[trigger] map@[t1] != #[trigger] map@[t2] by {
                assert(f1(t1) != f1(t2));
            }
            assert forall|t: int| 0 <= t < map@.len() implies #[trigger] map@[t] < kp.values@.len() by {
                assert(0 <= f1(t) < kp.values@.len());
            }
            let f2 = |u: int| {
                let (a, b) = source_of(s, kp0.row_of(u), kp0.col_idx@[u] as int);
                k.slot(a, b)
            };
            assert forall|u: int| 0 <= u < kp.values@.len() implies 0 <= #[trigger] f2(u) < nnz by {
                kp0.lemma_row_of(u);
                let i = kp0.row_of(u);
                let j = kp0.col_idx@[u] as int;
                assert(crate::sym::upper_row_ok(kp0.row_ptr@, kp0.col_idx@, n as int, i));
                assert(kp0.stored(i, j));
                let (a, b) = source_of(s, i, j);
                assert(k.stored(a, b)) by {
                    assert(source_of(s, i, j) == source_of(s, i, j));
                }
                let t = k.slot(a, b);
                assert(k.is_slot(a, b, t));
                k.lemma_row_bounds(a);
            }
            assert forall|u1: int, u2: int| 0 <= u1 < u2 < kp.values@.len() implies #[trigger] f2(u1) != #[trigger] f2(u2) by {
                kp0.lemma_row_of(u1);
                kp0.lemma_row_of(u2);
                let i1 = kp0.row_of(u1);
                let j1 = kp0.col_idx@[u1] as int;
                let i2 = kp0.row_of(u2);
                let j2 = kp0.col_idx@[u2] as int;
                assert(crate::sym::upper_row_ok(kp0.row_ptr@, kp0.col_idx@, n as int, i1));
                assert(crate::sym::upper_row_ok(kp0.row_ptr@, kp0.col_idx@, n as int, i2));
                let (a1, b1) = source_of(s, i1, j1);
                let (a2, b2) = source_of(s, i2, j2);
                assert(kp0.stored(i1, j1));
                assert(kp0.stored(i2, j2));
                assert(k.stored(a1, b1)) by {
                    assert(source_of(s, i1, j1) == source_of(s, i1, j1));
                }
                assert(k.stored(a2, b2)) by {
                    assert(source_of(s, i2, j2) == source_of(s, i2, j2));
                }
                if f2(u1) == f2(u2) {
                    k.lemma_slot_injective(a1, b1, a2, b2);
                    assert(inv@[s[i1] as int] == i1);
                    assert(inv@[s[j1] as int] == j1);
                    assert(inv@[s[i2] as int] == i2);
                    assert(inv@[s[j2] as int] == j2);
                    assert(i1 == i2 && j1 == j2);
                    kp0.lemma_slot_is(i1, j1, u1);
                    kp0.lemma_slot_is(i1, j1, u2);
                }
            }
            lemma_injective_bound(kp.values@.len() as int, nnz as int, f2);
        }
        Ok((kp, map))
    }
}

} // verus!

verus! {

impl Permutation {
    /// Permute a symmetric matrix: `K_perm[i, j] = K[perm[i], perm[j]]`.
    /// Error: `DimensionMismatch` if the lengths differ.
    pub fn permute_sym<T: SparseScalar>(&self, k: &SymCsrMatrix<T>) -> (r: Result<SymCsrMatrix<T>, SparseError>)
        requires
            k.wf(),
        ensures
            self@.len() != k.n ==> r == Err::<SymCsrMatrix<T>, SparseError>(
                SparseError::DimensionMismatch { expected: k.n, got: self@.len() as usize },
            ),
            self@.len() == k.n ==> r is Ok,
            r matches Ok(kp) ==> permuted_sym(self@, k, &kp),
    {
        match self.permute_sym_with_map(k) {
            Ok((kp, _map)) => Ok(kp),
            Err(e) => Err(e),
        }
    }

    /// Copy the values of `k` into `k_perm` through a storage map from
    /// `permute_sym_with_map`: `k_perm.values[index_map[t]] = k.values[t]`,
    /// in order of `t`.
    pub fn permute_sym_into<T: SparseScalar>(&self, k: &SymCsrMatrix<T>, k_perm: &mut SymCsrMatrix<T>, index_map: &[usize])
        requires
            k.values@.len() == index_map@.len(),
            k.values@.len() == old(k_perm).values@.len(),
            forall|t: int| 0 <= t < index_map@.len() ==> #[trigger] index_map@[t] < old(k_perm).values@.len(),
        ensures
            final(k_perm).n == old(k_perm).n,
            final(k_perm).row_ptr == old(k_perm).row_ptr,
            final(k_perm).col_idx == old(k_perm).col_idx,
            final(k_perm).values@.len() == old(k_perm).values@.len(),
            forall|u: int| 0 <= u < old(k_perm).values@.len() ==> #[trigger] final(k_perm).values@[u] == if exists|t: int|
                #[trigger] last_write(index_map@, index_map@.len() as int, u, t) {
                k.values@[last_writer(index_map@, index_map@.len() as int, u)]
            } else {
                old(k_perm).values@[u]
            },
            injective_map(index_map@) ==> forall|t: int| 0 <= t < index_map@.len() ==>
                #[trigger] final(k_perm).values@[index_map@[t] as int] == k.values@[t],
    {
        let len = k.values.len();
        let ghost m = index_map@;
        let mut i: usize = 0;
        while i < len
            invariant
                len == k.values@.len(),
                len == m.len(),
                m == index_map@,
                k_perm.values@.len() == old(k_perm).values@.len(),
                k_perm.n == old(k_perm).n,
                k_perm.row_ptr == old(k_perm).row_ptr,
                k_perm.col_idx == old(k_perm).col_idx,
                forall|t: int| 0 <= t < m.len() ==> #[trigger] m[t] < old(k_perm).values@.len(),
                0 <= i <= len,
                forall|u: int| 0 <= u < old(k_perm).values@.len() ==> #[trigger] k_perm.values@[u] == if exists|t: int|
                    #[trigger] last_write(m, i as int, u, t) {
                    k.values@[last_writer(m, i as int, u)]
                } else {
                    old(k_perm).values@[u]
                },
            decreases len - i,
        {
            let u0 = index_map[i];
            let v = k.values[i];
            let ghost before = k_perm.values@;
            k_perm.values.set(u0, v);
            proof {
                assert forall|u: int| 0 <= u < old(k_perm).values@.len() implies #[trigger] k_perm.values@[u] == if exists|t: int|
                    #[trigger] last_write(m, i + 1, u, t) {
                    k.values@[last_writer(m, i + 1, u)]
                } else {
                    old(k_perm).values@[u]
                } by {
                    if u == u0 {
                        assert(last_write(m, i + 1, u, i as int));
                        let w = last_writer(m, i + 1, u);
                        assert(last_write(m, i + 1, u, w));
                        if w < i {
                            assert(m[i as int] != u);
                        }
                    } else {
                        assert(k_perm.values@[u] == before[u]);
                        if exists|t: int| #[trigger] last_write(m, i as int, u, t) {
                            let w0 = last_writer(m, i as int, u);
                            assert(last_write(m, i as int, u, w0));
                            assert(last_write(m, i + 1, u, w0));
                            let w1 = last_writer(m, i + 1, u);
                            assert(last_write(m, i + 1, u, w1));
                            if w1 != w0 {
                                if w1 < w0 {
                                    assert(m[w0] != u);
                                } else {
                                    assert(w1 < i);
                                    assert(m[w1] != u);
                                }
                            }
                            assert(last_write(m, i as int, u, w1));
                        } else {
                            if exists|t: int| #[trigger] last_write(m, i + 1, u, t) {
                                let w1 = last_writer(m, i + 1, u);
                                assert(last_write(m, i + 1, u, w1));
                                assert(last_write(m, i as int, u, w1));
                            }
                        }
                    }
                }
            }
            i = i + 1;
        }
        proof {
            if injective_map(m) {
                assert forall|t: int| 0 <= t < m.len() implies #[trigger] k_perm.values@[m[t] as int] == k.values@[t] by {
                    let u = m[t] as int;
                    assert(last_write(m, len as int, u, t)) by {
                        assert forall|t2: int| t < t2 < len implies m[t2] != u by {
                            assert(m[t] != m[t2]);
                        }
                    }
                    let w = last_writer(m, len as int, u);
                    assert(last_write(m, len as int, u, w));
                    if w != t {
                        if w < t {
                            assert(m[w] != m[t]);
                        } else {
                            assert(m[t] != m[w]);
                        }
                    }
                }
            }
        }
    }
}


/// Inverting twice gives back the permutation: if `q` is the inverse of
/// `p` and `r` the inverse of `q`, then `r == p`.
pub proof fn lemma_inverse_involution(p: Seq<usize>, q: Seq<usize>, r: Seq<usize>)
    requires
        is_perm(p),
        q.len() == p.len(),
        forall|i: int| 0 <= i < p.len() ==> #[trigger] q[p[i] as int] == i,
        forall|j: int| 0 <= j < p.len() ==> #[trigger] p[q[j] as int] == j,
        r.len() == q.len(),
        forall|i: int| 0 <= i < q.len() ==> #[trigger] r[q[i] as int] == i,
        forall|j: int| 0 <= j < q.len() ==> #[trigger] q[r[j] as int] == j,
    ensures
        r == p,
{
    assert forall|j: int| 0 <= j < p.len() implies r[j] == p[j] by {
        assert(q[p[j] as int] == j);
        assert(p[j] < p.len());
        assert(r[q[p[j] as int] as int] == p[j]);
    }
    assert(r =~= p);
}

} // verus!
