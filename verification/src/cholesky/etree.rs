//! The elimination tree of a symmetric pattern, as a property of a parent
//! array: each column's parent is the first later column that its subtree
//! reaches through an upper-triangle entry of `K`.
use vstd::prelude::*;
use crate::csc::CscMatrix;

verus! {

/// Following parents from `d` in the forest `parent` on `n` nodes reaches
/// `q` (zero or more steps).
pub open spec fn in_subtree(parent: Seq<usize>, n: int, d: int, q: int) -> bool
    decreases n - d,
{
    if d == q {
        true
    } else if 0 <= d < n && d < parent[d] < n {
        in_subtree(parent, n, parent[d] as int, q)
    } else {
        false
    }
}

/// Row `d` of column `e` lies strictly above the diagonal and is stored.
pub open spec fn upper_entry<T>(k: &CscMatrix<T>, d: int, e: int) -> bool {
    &&& 0 <= d < e
    &&& k.col_rows(e).contains(d as usize)
}

/// Some node of the subtree of `q` has an upper-triangle entry in column
/// `e`.
pub open spec fn subtree_touches<T>(k: &CscMatrix<T>, parent: Seq<usize>, n: int, q: int, e: int) -> bool {
    exists|d: int| #[trigger] in_subtree(parent, n, d, q) && upper_entry(k, d, e)
}

/// The parent of `q` is the first column `e > q` below `before` that the
/// subtree of `q` touches; a node without one (parent `n`, or a parent not
/// yet fixed) touches no column in `q + 1 .. before`.
pub open spec fn first_touch<T>(k: &CscMatrix<T>, parent: Seq<usize>, n: int, before: int, q: int) -> bool {
    if parent[q] < before {
        &&& subtree_touches(k, parent, n, q, parent[q] as int)
        &&& forall|e: int| q < e < parent[q] ==> !#[trigger] subtree_touches(k, parent, n, q, e)
    } else {
        forall|e: int| q < e < before ==> !#[trigger] subtree_touches(k, parent, n, q, e)
    }
}

/// `parent` is the elimination tree of `k`: every column's parent is the
/// first later column that its subtree touches, and a root touches none.
pub open spec fn is_etree<T>(k: &CscMatrix<T>, parent: Seq<usize>, n: int) -> bool {
    forall|q: int| 0 <= q < n ==> #[trigger] first_touch(k, parent, n, n, q)
}

/// A subtree only holds nodes at or below its root.
pub proof fn lemma_subtree_le(parent: Seq<usize>, n: int, d: int, q: int)
    requires
        in_subtree(parent, n, d, q),
    ensures
        d <= q,
    decreases n - d,
{
    if d != q {
        lemma_subtree_le(parent, n, parent[d] as int, q);
    }
}

/// A node is in the subtree of its parent.
pub proof fn lemma_subtree_step(parent: Seq<usize>, n: int, d: int)
    requires
        0 <= d < n,
        d < parent[d] < n,
    ensures
        in_subtree(parent, n, d, parent[d] as int),
{
    assert(in_subtree(parent, n, parent[d] as int, parent[d] as int));
}

/// Subtrees nest.
pub proof fn lemma_subtree_trans(parent: Seq<usize>, n: int, a: int, b: int, c: int)
    requires
        in_subtree(parent, n, a, b),
        in_subtree(parent, n, b, c),
    ensures
        in_subtree(parent, n, a, c),
    decreases n - a,
{
    if a != b {
        lemma_subtree_trans(parent, n, parent[a] as int, b, c);
    }
}

/// The ancestors of a node form a chain.
pub proof fn lemma_subtree_chain(parent: Seq<usize>, n: int, d: int, a: int, b: int)
    requires
        in_subtree(parent, n, d, a),
        in_subtree(parent, n, d, b),
    ensures
        in_subtree(parent, n, a, b) || in_subtree(parent, n, b, a),
    decreases n - d,
{
    if d != a && d != b {
        lemma_subtree_chain(parent, n, parent[d] as int, a, b);
    }
}

/// Hanging the root `r` under `j` keeps every subtree relation.
pub proof fn lemma_attach_keeps(parent: Seq<usize>, n: int, r: int, j: int, x: int, y: int)
    requires
        0 <= r < j < n,
        parent.len() == n,
        parent[r] == n,
        in_subtree(parent, n, x, y),
    ensures
        in_subtree(parent.update(r, j as usize), n, x, y),
    decreases n - x,
{
    if x != y {
        lemma_attach_keeps(parent, n, r, j, parent[x] as int, y);
    }
}

/// Hanging the root `r` under `j` adds nothing to the subtrees of the
/// nodes below `j`.
pub proof fn lemma_attach_frame(parent: Seq<usize>, n: int, r: int, j: int, d: int, q: int)
    requires
        0 <= r < j < n,
        parent.len() == n,
        parent[r] == n,
        q < j,
        in_subtree(parent.update(r, j as usize), n, d, q),
    ensures
        in_subtree(parent, n, d, q),
    decreases n - d,
{
    let p2 = parent.update(r, j as usize);
    if d != q {
        if d == r {
            lemma_subtree_le(p2, n, j, q);
        } else {
            lemma_attach_frame(parent, n, r, j, p2[d] as int, q);
        }
    }
}

/// Hanging the root `r` under `j` leaves what the subtrees of the nodes
/// below `j` touch.
pub proof fn lemma_attach_touches<T>(k: &CscMatrix<T>, parent: Seq<usize>, n: int, r: int, j: int, q: int, e: int)
    requires
        0 <= r < j < n,
        parent.len() == n,
        parent[r] == n,
        q < j,
    ensures
        subtree_touches(k, parent.update(r, j as usize), n, q, e) == subtree_touches(k, parent, n, q, e),
{
    let p2 = parent.update(r, j as usize);
    if subtree_touches(k, p2, n, q, e) {
        let d = choose|d: int| #[trigger] in_subtree(p2, n, d, q) && upper_entry(k, d, e);
        lemma_attach_frame(parent, n, r, j, d, q);
    }
    if subtree_touches(k, parent, n, q, e) {
        let d = choose|d: int| #[trigger] in_subtree(parent, n, d, q) && upper_entry(k, d, e);
        lemma_attach_keeps(parent, n, r, j, d, q);
    }
}

/// A node other than `c` in the subtree of `c` lies in the subtree of a
/// child of `c`.
pub proof fn lemma_subtree_child(parent: Seq<usize>, n: int, d: int, c: int)
    requires
        in_subtree(parent, n, d, c),
        d != c,
    ensures
        exists|ch: int| 0 <= ch < n && #[trigger] parent[ch] == c && in_subtree(parent, n, d, ch),
    decreases n - d,
{
    if parent[d] == c {
        assert(in_subtree(parent, n, d, d));
    } else {
        lemma_subtree_child(parent, n, parent[d] as int, c);
        let ch = choose|ch: int| 0 <= ch < n && #[trigger] parent[ch] == c && in_subtree(parent, n, parent[d] as int, ch);
        assert(in_subtree(parent, n, d, ch));
    }
}

/// `u` and `v` are joined in the graph of `k`: entry `(u, v)` or `(v, u)`
/// is stored.
pub open spec fn linked<T>(k: &CscMatrix<T>, u: int, v: int) -> bool {
    ||| (0 <= u && 0 <= v < k.ncols && k.col_rows(v).contains(u as usize))
    ||| (0 <= v && 0 <= u < k.ncols && k.col_rows(u).contains(v as usize))
}

/// Step `t` of the walk `w` follows an edge of the graph of `k`.
pub open spec fn walk_step<T>(k: &CscMatrix<T>, w: Seq<int>, t: int) -> bool {
    linked(k, w[t], w[t + 1])
}

/// `w` is a walk in the graph of `k` from `a` to `b`.
pub open spec fn is_walk<T>(k: &CscMatrix<T>, w: Seq<int>, a: int, b: int) -> bool {
    &&& w.len() >= 1
    &&& w[0] == a
    &&& w[w.len() - 1] == b
    &&& forall|t: int| 0 <= t < w.len() - 1 ==> #[trigger] walk_step(k, w, t)
}

/// `w` is a walk from `i` to `j` of at least one edge whose inner nodes all
/// lie below `j`: the paths of the fill-path theorem.
pub open spec fn fill_walk<T>(k: &CscMatrix<T>, w: Seq<int>, i: int, j: int) -> bool {
    &&& is_walk(k, w, i, j)
    &&& w.len() >= 2
    &&& forall|t: int| 0 < t < w.len() - 1 ==> 0 <= #[trigger] w[t] < j
}

/// An entry above the diagonal puts its row in the subtree of its column.
pub proof fn lemma_edge_descends<T>(k: &CscMatrix<T>, parent: Seq<usize>, n: int, u: int, v: int)
    requires
        k.ncols == n,
        k.symmetric_pattern(),
        parent.len() == n,
        forall|q: int| 0 <= q < n ==> #[trigger] parent[q] == n || (q < parent[q] < n),
        is_etree(k, parent, n),
        0 <= u < v < n,
        linked(k, u, v),
    ensures
        in_subtree(parent, n, u, v),
{
    assert(k.col_rows(v).contains(u as usize) <==> k.col_rows(u).contains(v as usize));
    assert(upper_entry(k, u, v));
    lemma_climb(k, parent, n, u, v, u);
}

/// Climbing from `x`, an ancestor of `u` below `v`, reaches `v`.
proof fn lemma_climb<T>(k: &CscMatrix<T>, parent: Seq<usize>, n: int, u: int, v: int, x: int)
    requires
        parent.len() == n,
        forall|q: int| 0 <= q < n ==> #[trigger] parent[q] == n || (q < parent[q] < n),
        is_etree(k, parent, n),
        0 <= u <= x < v < n,
        upper_entry(k, u, v),
        in_subtree(parent, n, u, x),
    ensures
        in_subtree(parent, n, u, v),
    decreases v - x,
{
    assert(first_touch(k, parent, n, n, x));
    assert(subtree_touches(k, parent, n, x, v));
    if parent[x] == v {
        lemma_subtree_step(parent, n, x);
        lemma_subtree_trans(parent, n, u, x, v);
    } else {
        lemma_subtree_step(parent, n, x);
        lemma_subtree_trans(parent, n, u, x, parent[x] as int);
        lemma_climb(k, parent, n, u, v, parent[x] as int);
    }
}

/// A walk that ends at `c` and never goes above `c` stays in the subtree
/// of `c`: every node from index `t` on is a descendant of `c`.
pub proof fn lemma_walk_in_subtree<T>(k: &CscMatrix<T>, parent: Seq<usize>, n: int, w: Seq<int>, c: int, t: int)
    requires
        k.ncols == n,
        k.symmetric_pattern(),
        parent.len() == n,
        forall|q: int| 0 <= q < n ==> #[trigger] parent[q] == n || (q < parent[q] < n),
        is_etree(k, parent, n),
        0 <= c < n,
        is_walk(k, w, w[0], c),
        forall|x: int| 0 <= x < w.len() ==> 0 <= #[trigger] w[x] <= c,
        0 <= t < w.len(),
    ensures
        in_subtree(parent, n, w[t], c),
    decreases w.len() - t,
{
    if t < w.len() - 1 {
        lemma_walk_in_subtree(k, parent, n, w, c, t + 1);
        assert(walk_step(k, w, t));
        let a = w[t];
        let b = w[t + 1];
        if a < b {
            lemma_edge_descends(k, parent, n, a, b);
            lemma_subtree_trans(parent, n, a, b, c);
        } else if b < a {
            assert(linked(k, b, a));
            lemma_edge_descends(k, parent, n, b, a);
            lemma_subtree_chain(parent, n, b, a, c);
            if in_subtree(parent, n, c, a) {
                lemma_subtree_le(parent, n, c, a);
            }
        }
    }
}

/// Every descendant `a` of `b` is joined to `b` by a walk whose nodes,
/// but the last, lie below `b`.
pub proof fn lemma_subtree_walk<T>(k: &CscMatrix<T>, parent: Seq<usize>, n: int, a: int, b: int) -> (w: Seq<int>)
    requires
        k.ncols == n,
        parent.len() == n,
        forall|q: int| 0 <= q < n ==> #[trigger] parent[q] == n || (q < parent[q] < n),
        is_etree(k, parent, n),
        0 <= a,
        0 <= b < n,
        in_subtree(parent, n, a, b),
    ensures
        is_walk(k, w, a, b),
        forall|x: int| 0 <= x < w.len() - 1 ==> 0 <= #[trigger] w[x] < b,
    decreases b, b - a,
{
    lemma_subtree_le(parent, n, a, b);
    if a == b {
        seq![a]
    } else {
        let p = parent[a] as int;
        assert(in_subtree(parent, n, p, b));
        lemma_subtree_le(parent, n, p, b);
        assert(first_touch(k, parent, n, n, a));
        let a2 = choose|d: int| #[trigger] in_subtree(parent, n, d, a) && upper_entry(k, d, p);
        lemma_subtree_le(parent, n, a2, a);
        let w1 = lemma_subtree_walk(k, parent, n, a2, a);
        let w2 = lemma_subtree_walk(k, parent, n, p, b);
        let r1 = w1.reverse();
        let w = r1 + w2;
        assert(linked(k, a2, p));
        assert forall|t: int| 0 <= t < w.len() - 1 implies #[trigger] walk_step(k, w, t) by {
            if t < r1.len() - 1 {
                let s = w1.len() - 2 - t;
                assert(walk_step(k, w1, s));
                assert(w[t] == w1[s + 1] && w[t + 1] == w1[s]);
            } else if t == r1.len() - 1 {
                assert(w[t] == a2 && w[t + 1] == p);
            } else {
                let s = t - r1.len();
                assert(walk_step(k, w2, s));
                assert(w[t] == w2[s] && w[t + 1] == w2[s + 1]);
            }
        }
        assert forall|x: int| 0 <= x < w.len() - 1 implies 0 <= #[trigger] w[x] < b by {
            if x < r1.len() {
                assert(w[x] == w1[w1.len() - 1 - x]);
                if w1.len() - 1 - x < w1.len() - 1 {
                    assert(0 <= w1[w1.len() - 1 - x] < a);
                }
            } else {
                assert(w[x] == w2[x - r1.len()]);
            }
        }
        w
    }
}

} // verus!
