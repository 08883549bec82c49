//! Line-compressed index storage shared by the row-major (CSR) and the
//! column-major (CSC) formats.
//!
//! A matrix with `nout` outer lines (rows of a CSR matrix, columns of a CSC
//! matrix) keeps, for line `j`, the inner indices `idx[ptr[j]..ptr[j + 1]]`,
//! strictly increasing and below `nin`.
use vstd::prelude::*;
use crate::rows::{strictly_sorted, normalize_indices, search_run};

verus! {

// -----------------------------------------------------------------
// Model
// -----------------------------------------------------------------

/// Inner indices of line `j`.
pub open spec fn line(ptr: Seq<usize>, idx: Seq<usize>, j: int) -> Seq<usize> {
    idx.subrange(ptr[j] as int, ptr[j + 1] as int)
}

/// The inner indices of line `j` are strictly increasing.
pub open spec fn line_sorted(ptr: Seq<usize>, idx: Seq<usize>, j: int) -> bool {
    forall|a: int, b: int| ptr[j] <= a < b < ptr[j + 1] ==> #[trigger] idx[a] < #[trigger] idx[b]
}

/// `ptr` and `idx` describe `nout` well-formed lines of inner dimension
/// `nin`.
pub open spec fn lines_ok(ptr: Seq<usize>, idx: Seq<usize>, nout: int, nin: int) -> bool {
    &&& 0 <= nout
    &&& ptr.len() == nout + 1
    &&& ptr[0] == 0
    &&& ptr[nout] == idx.len()
    &&& forall|a: int, b: int| 0 <= a <= b <= nout ==> #[trigger] ptr[a] <= #[trigger] ptr[b]
    &&& forall|j: int| 0 <= j < nout ==> #[trigger] line_sorted(ptr, idx, j)
    &&& forall|k: int| 0 <= k < idx.len() ==> #[trigger] idx[k] < nin
}

/// Storage index `k` of line `j` holds inner index `i`.
pub open spec fn is_line_slot(ptr: Seq<usize>, idx: Seq<usize>, j: int, i: int, k: int) -> bool {
    &&& ptr[j] <= k < ptr[j + 1]
    &&& idx[k] == i
}

/// Line `j` stores inner index `i`.
pub open spec fn line_has(ptr: Seq<usize>, idx: Seq<usize>, j: int, i: int) -> bool {
    exists|k: int| #[trigger] is_line_slot(ptr, idx, j, i, k)
}

/// The storage index of inner index `i` in line `j`.
pub open spec fn line_slot(ptr: Seq<usize>, idx: Seq<usize>, j: int, i: int) -> int {
    choose|k: int| #[trigger] is_line_slot(ptr, idx, j, i, k)
}

/// The line whose storage range holds index `t`.
pub open spec fn line_of(ptr: Seq<usize>, nout: int, t: int) -> int {
    choose|j: int| 0 <= j < nout && #[trigger] ptr[j] <= t < ptr[j + 1]
}

// -----------------------------------------------------------------
// Lemmas
// -----------------------------------------------------------------

/// The range of a line lies within the storage.
pub proof fn lemma_line_bounds(ptr: Seq<usize>, idx: Seq<usize>, nout: int, nin: int, j: int)
    requires
        lines_ok(ptr, idx, nout, nin),
        0 <= j < nout,
    ensures
        0 <= ptr[j] <= ptr[j + 1] <= idx.len(),
{
    assert(ptr[0] <= ptr[j]);
    assert(ptr[j] <= ptr[j + 1]);
    assert(ptr[j + 1] <= ptr[nout]);
}

/// Within a line, an inner index has one storage index.
pub proof fn lemma_line_slot_unique(ptr: Seq<usize>, idx: Seq<usize>, nout: int, nin: int, j: int, i: int, k1: int, k2: int)
    requires
        lines_ok(ptr, idx, nout, nin),
        0 <= j < nout,
        is_line_slot(ptr, idx, j, i, k1),
        is_line_slot(ptr, idx, j, i, k2),
    ensures
        k1 == k2,
{
    assert(line_sorted(ptr, idx, j));
    if k1 < k2 {
        assert(idx[k1] < idx[k2]);
    } else if k2 < k1 {
        assert(idx[k2] < idx[k1]);
    }
}

/// A storage index holding `i` in line `j` is its slot.
pub proof fn lemma_line_slot_is(ptr: Seq<usize>, idx: Seq<usize>, nout: int, nin: int, j: int, i: int, k: int)
    requires
        lines_ok(ptr, idx, nout, nin),
        0 <= j < nout,
        is_line_slot(ptr, idx, j, i, k),
    ensures
        line_has(ptr, idx, j, i),
        line_slot(ptr, idx, j, i) == k,
{
    let s = line_slot(ptr, idx, j, i);
    lemma_line_slot_unique(ptr, idx, nout, nin, j, i, s, k);
}

/// Lines occupy consecutive, disjoint storage ranges.
pub proof fn lemma_lines_disjoint(ptr: Seq<usize>, idx: Seq<usize>, nout: int, nin: int, j1: int, j2: int)
    requires
        lines_ok(ptr, idx, nout, nin),
        0 <= j1 < j2 < nout,
    ensures
        ptr[j1 + 1] <= ptr[j2],
{
    assert(ptr[j1 + 1] <= ptr[j2]);
}

proof fn lemma_line_search(ptr: Seq<usize>, idx: Seq<usize>, nout: int, nin: int, t: int, a: int)
    requires
        lines_ok(ptr, idx, nout, nin),
        0 <= t < idx.len(),
        0 <= a <= nout,
        ptr[a] <= t,
    ensures
        exists|b: int| 0 <= b < nout && #[trigger] ptr[b] <= t < ptr[b + 1],
    decreases nout - a,
{
    if a < nout {
        if t < ptr[a + 1] {
            assert(0 <= a < nout && ptr[a] <= t < ptr[a + 1]);
        } else {
            lemma_line_search(ptr, idx, nout, nin, t, a + 1);
        }
    }
}

/// Every storage index lies in the range of some line, given only the
/// shape of the line pointers.
pub proof fn lemma_line_search_pub(ptr: Seq<usize>, idx: Seq<usize>, nout: int, t: int)
    requires
        0 <= nout,
        ptr.len() == nout + 1,
        ptr[0] == 0,
        ptr[nout] == idx.len(),
        0 <= t < idx.len(),
    ensures
        exists|b: int| 0 <= b < nout && #[trigger] ptr[b] <= t < ptr[b + 1],
{
    lemma_ptr_search(ptr, nout, t, 0);
}

proof fn lemma_ptr_search(ptr: Seq<usize>, nout: int, t: int, a: int)
    requires
        ptr.len() == nout + 1,
        0 <= t < ptr[nout],
        0 <= a <= nout,
        ptr[a] <= t,
    ensures
        exists|b: int| 0 <= b < nout && #[trigger] ptr[b] <= t < ptr[b + 1],
    decreases nout - a,
{
    if a < nout {
        if t < ptr[a + 1] {
            assert(0 <= a < nout && ptr[a] <= t < ptr[a + 1]);
        } else {
            lemma_ptr_search(ptr, nout, t, a + 1);
        }
    }
}

/// Every storage index lies in exactly one line: `line_of`.
pub proof fn lemma_line_of(ptr: Seq<usize>, idx: Seq<usize>, nout: int, nin: int, t: int)
    requires
        lines_ok(ptr, idx, nout, nin),
        0 <= t < idx.len(),
    ensures
        0 <= line_of(ptr, nout, t) < nout,
        ptr[line_of(ptr, nout, t)] <= t < ptr[line_of(ptr, nout, t) + 1],
        is_line_slot(ptr, idx, line_of(ptr, nout, t), idx[t] as int, t),
{
    lemma_line_search(ptr, idx, nout, nin, t, 0);
}

/// The line of a storage index is the line whose range holds it.
pub proof fn lemma_line_of_is(ptr: Seq<usize>, idx: Seq<usize>, nout: int, nin: int, t: int, j: int)
    requires
        lines_ok(ptr, idx, nout, nin),
        0 <= j < nout,
        ptr[j] <= t < ptr[j + 1],
    ensures
        line_of(ptr, nout, t) == j,
{
    lemma_line_bounds(ptr, idx, nout, nin, j);
    lemma_line_of(ptr, idx, nout, nin, t);
    let a = line_of(ptr, nout, t);
    if a < j {
        lemma_lines_disjoint(ptr, idx, nout, nin, a, j);
    } else if a > j {
        lemma_lines_disjoint(ptr, idx, nout, nin, j, a);
    }
}

/// Distinct stored entries occupy distinct storage indices.
pub proof fn lemma_line_slot_injective(ptr: Seq<usize>, idx: Seq<usize>, nout: int, nin: int, j1: int, i1: int, j2: int, i2: int)
    requires
        lines_ok(ptr, idx, nout, nin),
        0 <= j1 < nout,
        0 <= j2 < nout,
        line_has(ptr, idx, j1, i1),
        line_has(ptr, idx, j2, i2),
        line_slot(ptr, idx, j1, i1) == line_slot(ptr, idx, j2, i2),
    ensures
        j1 == j2,
        i1 == i2,
{
    let t = line_slot(ptr, idx, j1, i1);
    assert(is_line_slot(ptr, idx, j1, i1, t));
    assert(is_line_slot(ptr, idx, j2, i2, t));
    if j1 < j2 {
        lemma_lines_disjoint(ptr, idx, nout, nin, j1, j2);
    } else if j2 < j1 {
        lemma_lines_disjoint(ptr, idx, nout, nin, j2, j1);
    }
}

/// `line_has` is membership in the line.
pub proof fn lemma_line_has_contains(ptr: Seq<usize>, idx: Seq<usize>, nout: int, nin: int, j: int, i: usize)
    requires
        lines_ok(ptr, idx, nout, nin),
        0 <= j < nout,
    ensures
        line_has(ptr, idx, j, i as int) <==> line(ptr, idx, j).contains(i),
{
    lemma_line_bounds(ptr, idx, nout, nin, j);
    let l = line(ptr, idx, j);
    if line_has(ptr, idx, j, i as int) {
        let k = choose|k: int| #[trigger] is_line_slot(ptr, idx, j, i as int, k);
        assert(l[k - ptr[j]] == i);
    }
    if l.contains(i) {
        let q = choose|q: int| 0 <= q < l.len() && l[q] == i;
        assert(is_line_slot(ptr, idx, j, i as int, q + ptr[j]));
    }
}

/// Line storage is determined by what it stores: two well-formed line
/// storages with the same entries in every line have the same pointers
/// and the same inner indices.
pub proof fn lemma_lines_canonical(p1: Seq<usize>, x1: Seq<usize>, p2: Seq<usize>, x2: Seq<usize>, nout: int, nin: int)
    requires
        lines_ok(p1, x1, nout, nin),
        lines_ok(p2, x2, nout, nin),
        forall|j: int, i: int| 0 <= j < nout ==> (#[trigger] line_has(p1, x1, j, i) <==> line_has(p2, x2, j, i)),
    ensures
        p1 == p2,
        x1 == x2,
{
    assert forall|j: int| 0 <= j < nout implies #[trigger] line(p1, x1, j) == line(p2, x2, j) by {
        lemma_line_bounds(p1, x1, nout, nin, j);
        lemma_line_bounds(p2, x2, nout, nin, j);
        let l1 = line(p1, x1, j);
        let l2 = line(p2, x2, j);
        assert(strictly_sorted(l1)) by {
            assert(line_sorted(p1, x1, j));
            assert forall|a: int, b: int| 0 <= a < b < l1.len() implies l1[a] < l1[b] by {
                assert(x1[p1[j] + a] < x1[p1[j] + b]);
            }
        }
        assert(strictly_sorted(l2)) by {
            assert(line_sorted(p2, x2, j));
            assert forall|a: int, b: int| 0 <= a < b < l2.len() implies l2[a] < l2[b] by {
                assert(x2[p2[j] + a] < x2[p2[j] + b]);
            }
        }
        assert forall|v: usize| l1.contains(v) <==> l2.contains(v) by {
            lemma_line_has_contains(p1, x1, nout, nin, j, v);
            lemma_line_has_contains(p2, x2, nout, nin, j, v);
            assert(line_has(p1, x1, j, v as int) <==> line_has(p2, x2, j, v as int));
        }
        crate::rows::lemma_sorted_same_values_equal(l1, l2);
    }
    lemma_ptr_prefix_equal(p1, x1, p2, x2, nout, nin, nout);
    assert(p1 =~= p2);
    assert forall|k: int| 0 <= k < x1.len() implies x1[k] == x2[k] by {
        lemma_line_search_pub(p1, x1, nout, k);
        let j = choose|j: int| 0 <= j < nout && #[trigger] p1[j] <= k < p1[j + 1];
        assert(line(p1, x1, j) == line(p2, x2, j));
        assert(line(p1, x1, j)[k - p1[j]] == x1[k]);
        assert(line(p2, x2, j)[k - p2[j]] == x2[k]);
    }
    assert(x1 =~= x2);
}

/// Equal lines give equal line pointers, line by line.
proof fn lemma_ptr_prefix_equal(p1: Seq<usize>, x1: Seq<usize>, p2: Seq<usize>, x2: Seq<usize>, nout: int, nin: int, m: int)
    requires
        lines_ok(p1, x1, nout, nin),
        lines_ok(p2, x2, nout, nin),
        0 <= m <= nout,
        forall|j: int| 0 <= j < nout ==> #[trigger] line(p1, x1, j) == line(p2, x2, j),
    ensures
        forall|j: int| 0 <= j <= m ==> p1[j] == p2[j],
    decreases m,
{
    if m > 0 {
        lemma_ptr_prefix_equal(p1, x1, p2, x2, nout, nin, m - 1);
        lemma_line_bounds(p1, x1, nout, nin, m - 1);
        lemma_line_bounds(p2, x2, nout, nin, m - 1);
        assert(line(p1, x1, m - 1).len() == line(p2, x2, m - 1).len());
    }
}

// -----------------------------------------------------------------
// Executable helpers
// -----------------------------------------------------------------

/// Storage index of inner index `i` in line `j`, if stored.
pub fn find_in_line(ptr: &Vec<usize>, idx: &Vec<usize>, j: usize, i: usize) -> (r: Option<usize>)
    requires
        j + 1 < ptr@.len(),
        ptr@[j as int] <= ptr@[j + 1] <= idx@.len(),
        line_sorted(ptr@, idx@, j as int),
    ensures
        match r {
            Some(k) => is_line_slot(ptr@, idx@, j as int, i as int, k as int),
            None => !line_has(ptr@, idx@, j as int, i as int),
        },
{
    let plen = ptr.len();
    assert(j + 1 < plen);
    let start = ptr[j];
    let end = ptr[j + 1];
    match search_run(idx, start, end, i) {
        Ok(k) => Some(k),
        Err(_) => {
            proof {
                if line_has(ptr@, idx@, j as int, i as int) {
                    let k = choose|k: int| #[trigger] is_line_slot(ptr@, idx@, j as int, i as int, k);
                    assert(idx@[k] != i);
                }
            }
            None
        },
    }
}

/// Entry `k` of line `j` of a pattern is not below the inner dimension.
pub open spec fn pattern_entry_bad(nin: usize, pattern: Seq<Vec<usize>>, j: int, k: int) -> bool {
    &&& 0 <= j < pattern.len()
    &&& 0 <= k < pattern[j]@.len()
    &&& pattern[j]@[k] >= nin
}

/// `(j, k)` is the first out-of-range entry, lines in order and entries in
/// order within a line.
pub open spec fn first_pattern_bad(nin: usize, pattern: Seq<Vec<usize>>, j: int, k: int) -> bool {
    &&& pattern_entry_bad(nin, pattern, j, k)
    &&& forall|j2: int, k2: int| (j2 < j || (j2 == j && k2 < k)) ==> !#[trigger] pattern_entry_bad(nin, pattern, j2, k2)
}

/// Compress a per-line list of inner indices (repeats and any order
/// accepted) into line storage.
///
/// Error: the first inner index `>= nin`, lines in order.
pub fn compress_lines(nin: usize, pattern: &[Vec<usize>]) -> (r: Result<(Vec<usize>, Vec<usize>), usize>)
    ensures
        (exists|j: int, k: int| #[trigger] pattern_entry_bad(nin, pattern@, j, k)) <==> r is Err,
        r matches Err(v) ==> exists|j: int, k: int| #[trigger] first_pattern_bad(nin, pattern@, j, k) && v == pattern@[j]@[k],
        r matches Ok((ptr, idx)) ==> {
            &&& lines_ok(ptr@, idx@, pattern@.len() as int, nin as int)
            &&& forall|j: int, i: usize| 0 <= j < pattern@.len() ==> (#[trigger] line_has(ptr@, idx@, j, i as int) <==> pattern@[j]@.contains(i))
        },
{
    let nout = pattern.len();
    let mut ptr: Vec<usize> = Vec::new();
    let mut idx: Vec<usize> = Vec::new();
    ptr.push(0);
    let mut j: usize = 0;
    while j < nout
        invariant
            nout == pattern@.len(),
            0 <= j <= nout,
            ptr@.len() == j + 1,
            ptr@[0] == 0,
            ptr@[j as int] == idx@.len(),
            forall|a: int, b: int| 0 <= a <= b <= j ==> #[trigger] ptr@[a] <= #[trigger] ptr@[b],
            forall|q: int| 0 <= q < j ==> #[trigger] line_sorted(ptr@, idx@, q),
            forall|k: int| 0 <= k < idx@.len() ==> #[trigger] idx@[k] < nin,
            forall|q: int, i: usize| 0 <= q < j ==> (#[trigger] line_has(ptr@, idx@, q, i as int) <==> pattern@[q]@.contains(i)),
            forall|q: int, k: int| q < j ==> !#[trigger] pattern_entry_bad(nin, pattern@, q, k),
        decreases nout - j,
    {
        let inner = &pattern[j];
        let mut k: usize = 0;
        while k < inner.len()
            invariant
                nout == pattern@.len(),
                j < nout,
                inner == pattern@[j as int],
                0 <= k <= inner@.len(),
                forall|q: int, kk: int| q < j ==> !#[trigger] pattern_entry_bad(nin, pattern@, q, kk),
                forall|kk: int| 0 <= kk < k ==> !#[trigger] pattern_entry_bad(nin, pattern@, j as int, kk),
            decreases inner@.len() - k,
        {
            if inner[k] >= nin {
                proof {
                    assert(pattern_entry_bad(nin, pattern@, j as int, k as int));
                    assert(first_pattern_bad(nin, pattern@, j as int, k as int));
                }
                return Err(inner[k]);
            }
            k = k + 1;
        }
        let mut normalized = normalize_indices(inner, None);
        let ghost old_idx = idx@;
        let ghost old_ptr = ptr@;
        let ghost v = normalized@;
        proof {
            assert forall|q: int| 0 <= q < v.len() implies #[trigger] v[q] < nin by {
                assert(v.contains(v[q]));
                let kk = choose|kk: int| 0 <= kk < inner@.len() && inner@[kk] == v[q];
                assert(!pattern_entry_bad(nin, pattern@, j as int, kk));
            }
        }
        idx.append(&mut normalized);
        let len = idx.len();
        ptr.push(len);
        proof {
            let p = ptr@;
            let x = idx@;
            assert(x =~= old_idx + v);
            assert forall|a: int, b: int| 0 <= a <= b <= j + 1 implies #[trigger] p[a] <= #[trigger] p[b] by {
                if b <= j {
                    assert(old_ptr[a] <= old_ptr[b]);
                } else if a <= j {
                    assert(old_ptr[a] <= old_ptr[j as int]);
                }
            }
            assert forall|k: int| 0 <= k < x.len() implies #[trigger] x[k] < nin by {
                if k < old_idx.len() {
                    assert(x[k] == old_idx[k]);
                } else {
                    assert(x[k] == v[k - old_idx.len()]);
                }
            }
            assert forall|q: int| 0 <= q < j + 1 implies #[trigger] line_sorted(p, x, q) by {
                if q < j {
                    assert(line_sorted(old_ptr, old_idx, q));
                    assert(old_ptr[q + 1] <= old_ptr[j as int]);
                    assert forall|a: int, b: int| p[q] <= a < b < p[q + 1] implies #[trigger] x[a] < #[trigger] x[b] by {
                        assert(x[a] == old_idx[a]);
                        assert(x[b] == old_idx[b]);
                    }
                } else {
                    assert forall|a: int, b: int| p[q] <= a < b < p[q + 1] implies #[trigger] x[a] < #[trigger] x[b] by {
                        assert(x[a] == v[a - old_idx.len()]);
                        assert(x[b] == v[b - old_idx.len()]);
                    }
                }
            }
            assert forall|q: int, i: usize| 0 <= q < j + 1 implies (#[trigger] line_has(p, x, q, i as int) <==> pattern@[q]@.contains(i)) by {
                if q < j {
                    assert(old_ptr[q + 1] <= old_ptr[j as int]);
                    assert(line_has(old_ptr, old_idx, q, i as int) <==> pattern@[q]@.contains(i));
                    if line_has(p, x, q, i as int) {
                        let kk = choose|kk: int| #[trigger] is_line_slot(p, x, q, i as int, kk);
                        assert(is_line_slot(old_ptr, old_idx, q, i as int, kk));
                    }
                    if line_has(old_ptr, old_idx, q, i as int) {
                        let kk = choose|kk: int| #[trigger] is_line_slot(old_ptr, old_idx, q, i as int, kk);
                        assert(is_line_slot(p, x, q, i as int, kk));
                    }
                } else {
                    if line_has(p, x, q, i as int) {
                        let kk = choose|kk: int| #[trigger] is_line_slot(p, x, q, i as int, kk);
                        assert(v[kk - old_idx.len()] == i);
                        assert(v.contains(i));
                    }
                    if v.contains(i) {
                        let kk = choose|kk: int| 0 <= kk < v.len() && v[kk] == i;
                        assert(is_line_slot(p, x, q, i as int, kk + old_idx.len()));
                    }
                }
            }
        }
        j = j + 1;
    }
    proof {
        assert(!exists|q: int, k: int| #[trigger] pattern_entry_bad(nin, pattern@, q, k));
    }
    Ok((ptr, idx))
}

} // verus!
