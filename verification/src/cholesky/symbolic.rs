//! Symbolic Cholesky factorization: elimination tree and the sparsity
//! pattern of the factor `L`, from the pattern of `K` alone.
use vstd::prelude::*;
use crate::csc::CscMatrix;
use crate::error::SolverError;
use crate::rows::{strictly_sorted, normalize_indices};
use crate::cholesky::etree::{
    in_subtree, upper_entry, subtree_touches, first_touch, is_etree, lemma_subtree_le, lemma_subtree_step,
    lemma_subtree_trans, lemma_subtree_chain, lemma_attach_keeps, lemma_attach_touches, lemma_subtree_child, linked, walk_step, is_walk, fill_walk,
    lemma_subtree_walk, lemma_walk_in_subtree,
};

verus! {

/// `parent` is an elimination forest on `n` nodes: every node is a root
/// (`parent[c] == n`) or has a parent above it.
pub open spec fn forest_ok(parent: Seq<usize>, n: int) -> bool {
    &&& parent.len() == n
    &&& forall|c: int| 0 <= c < n ==> #[trigger] parent[c] == n || (c < parent[c] < n)
}

/// `children[p]` lists, in ascending order, the nodes whose parent is `p`.
pub open spec fn children_ok(children: Seq<Vec<usize>>, parent: Seq<usize>, n: int) -> bool {
    &&& children.len() == n
    &&& forall|p: int| 0 <= p < n ==> strictly_sorted(#[trigger] children[p]@)
    &&& forall|p: int, d: usize| 0 <= p < n ==> (#[trigger] children[p]@.contains(d) <==> (d < n && parent[d as int] == p))
}

/// Rows `i > j` stored in column `j` of `K`.
pub open spec fn below_diag<T>(k: &CscMatrix<T>, j: int, i: usize) -> bool {
    &&& k.col_rows(j).contains(i)
    &&& i > j
}

/// The off-diagonal rows of the columns `0..m` of `L`: column `j` holds
/// the rows below the diagonal of column `j` of `K`, and the rows above `j`
/// of every child column.
pub open spec fn reach_sets<T>(k: &CscMatrix<T>, parent: Seq<usize>, m: int) -> Seq<Set<usize>>
    decreases m,
{
    if m <= 0 {
        Seq::empty()
    } else {
        let prev = reach_sets(k, parent, m - 1);
        prev.push(Set::new(|i: usize| below_diag(k, m - 1, i)
            || exists|c: int| 0 <= c < m - 1 && parent[c] == m - 1 && #[trigger] prev[c].contains(i) && i > m - 1))
    }
}

/// The symbolic factor: elimination tree and the column pattern of `L`.
#[derive(Debug, Clone)]
pub struct SymbolicCholesky {
    /// Elimination tree: `parent[j]` is the parent of column `j`, or `n`
    /// for a root.
    pub parent: Vec<usize>,
    /// Column pointers of `L` (diagonal included).
    pub col_ptr: Vec<usize>,
    /// Row indices of `L`, ascending within each column, diagonal first.
    pub row_idx: Vec<usize>,
    /// Dimension of the matrix.
    pub n: usize,
    /// `children[p]`: the columns whose parent is `p`, ascending.
    pub children: Vec<Vec<usize>>,
}

impl SymbolicCholesky {
    /// Rows of column `j` of `L`.
    pub open spec fn col(&self, j: int) -> Seq<usize> {
        self.row_idx@.subrange(self.col_ptr@[j] as int, self.col_ptr@[j + 1] as int)
    }

    /// Well-formedness: a forest with its children lists, and columns that
    /// start with their diagonal and then hold strictly increasing rows
    /// below it.
    pub open spec fn wf(&self) -> bool {
        &&& forest_ok(self.parent@, self.n as int)
        &&& children_ok(self.children@, self.parent@, self.n as int)
        &&& self.col_ptr@.len() == self.n + 1
        &&& self.col_ptr@[0] == 0
        &&& self.col_ptr@[self.n as int] == self.row_idx@.len()
        &&& forall|a: int, b: int| 0 <= a <= b <= self.n ==> #[trigger] self.col_ptr@[a] <= #[trigger] self.col_ptr@[b]
        &&& forall|j: int| 0 <= j < self.n ==> {
            let col = #[trigger] self.col(j);
            &&& col.len() >= 1
            &&& col[0] == j
            &&& strictly_sorted(col)
            &&& forall|t: int| 0 <= t < col.len() ==> col[t] < self.n
        }
    }

    /// The columns of a well-formed factor are well-formed lines.
    pub proof fn lemma_lines(&self)
        requires
            self.wf(),
        ensures
            crate::compressed::lines_ok(self.col_ptr@, self.row_idx@, self.n as int, self.n as int),
    {
        let cp = self.col_ptr@;
        let ri = self.row_idx@;
        assert forall|j: int| 0 <= j < self.n implies #[trigger] crate::compressed::line_sorted(cp, ri, j) by {
            let col = self.col(j);
            assert(strictly_sorted(col));
            assert(cp[0] <= cp[j] && cp[j] <= cp[j + 1] && cp[j + 1] <= cp[self.n as int]);
            assert forall|a: int, b: int| cp[j] <= a < b < cp[j + 1] implies #[trigger] ri[a] < #[trigger] ri[b] by {
                assert(col[a - cp[j]] < col[b - cp[j]]);
            }
        }
        assert forall|k: int| 0 <= k < ri.len() implies #[trigger] ri[k] < self.n by {
            crate::compressed::lemma_line_search_pub(cp, ri, self.n as int, k);
            let j = choose|j: int| 0 <= j < self.n && #[trigger] cp[j] <= k < cp[j + 1];
            let col = self.col(j);
            assert(col[k - cp[j]] == ri[k]);
        }
    }

    /// Number of non-zeros in `L` (including the diagonal).
    pub fn nnz_l(&self) -> (r: usize)
        ensures
            r == self.row_idx@.len(),
    {
        self.row_idx.len()
    }
}

/// Compute the elimination tree from the upper triangle of `k` (Liu's
/// algorithm with ancestor path compression): the parent of each column
/// is the first later column that its subtree reaches through an
/// upper-triangle entry of `k`.
pub fn elimination_tree<T>(k: &CscMatrix<T>) -> (parent: Vec<usize>)
    requires
        k.wf(),
        k.nrows == k.ncols,
    ensures
        forest_ok(parent@, k.ncols as int),
        is_etree(k, parent@, k.ncols as int),
{
    let n = k.ncols;
    let mut parent: Vec<usize> = Vec::new();
    let mut ancestor: Vec<usize> = Vec::new();
    let mut t: usize = 0;
    while t < n
        invariant
            0 <= t <= n,
            parent@.len() == t,
            ancestor@.len() == t,
            forall|q: int| 0 <= q < t ==> #[trigger] parent@[q] == n,
            forall|q: int| 0 <= q < t ==> #[trigger] ancestor@[q] == q,
        decreases n - t,
    {
        parent.push(n);
        ancestor.push(t);
        t = t + 1;
    }
    let mut j: usize = 0;
    while j < n
        invariant
            n == k.ncols,
            k.wf(),
            k.nrows == n,
            0 <= j <= n,
            parent@.len() == n,
            ancestor@.len() == n,
            forall|q: int| 0 <= q < n ==> #[trigger] parent@[q] == n || (q < parent@[q] < j),
            forall|q: int| 0 <= q < n ==> #[trigger] ancestor@[q] == q || (q < ancestor@[q] < j),
            forall|q: int| 0 <= q < n ==> (#[trigger] ancestor@[q] == q <==> parent@[q] == n),
            forall|x: int| 0 <= x < n && #[trigger] ancestor@[x] != x ==> in_subtree(parent@, n as int, x, ancestor@[x] as int),
            forall|q: int| 0 <= q < j ==> #[trigger] first_touch(k, parent@, n as int, j as int, q),
        decreases n - j,
    {
        assert(k.col_ptr@[j as int] <= k.col_ptr@[j + 1] <= k.col_ptr@[n as int]);
        let start = k.col_ptr[j];
        let end = k.col_ptr[j + 1];
        let ghost p0 = parent@;
        let mut idx = start;
        while idx < end
            invariant
                n == k.ncols,
                k.wf(),
                k.nrows == n,
                0 <= j < n,
                start == k.col_ptr@[j as int],
                end == k.col_ptr@[j + 1],
                end <= k.row_idx@.len(),
                start <= idx <= end,
                parent@.len() == n,
                ancestor@.len() == n,
                p0.len() == n,
                forall|q: int| 0 <= q < n ==> #[trigger] p0[q] == n || (q < p0[q] < j),
                forall|q: int| 0 <= q < n ==> #[trigger] parent@[q] == n || (q < parent@[q] <= j),
                forall|q: int| 0 <= q < n ==> #[trigger] ancestor@[q] == q || (q < ancestor@[q] <= j),
                forall|q: int| 0 <= q < n ==> (#[trigger] ancestor@[q] == q <==> parent@[q] == n),
                forall|x: int| 0 <= x < n && #[trigger] ancestor@[x] != x ==> in_subtree(parent@, n as int, x, ancestor@[x] as int),
                forall|q: int| 0 <= q < n ==> #[trigger] parent@[q] == p0[q] || (p0[q] == n && parent@[q] == j && q < j),
                forall|q: int| 0 <= q < j ==> #[trigger] first_touch(k, parent@, n as int, j as int, q),
                forall|q: int| 0 <= q < n && p0[q] == n && #[trigger] parent@[q] == j ==> subtree_touches(k, parent@, n as int, q, j as int),
                forall|t: int| start <= t < idx && #[trigger] k.row_idx@[t] < j ==> in_subtree(parent@, n as int, k.row_idx@[t] as int, j as int),
            decreases end - idx,
        {
            let i = k.row_idx[idx];
            if i < j {
                proof {
                    assert(k.col_rows(j as int)[idx - start] == i);
                    assert(upper_entry(k, i as int, j as int));
                }
                let mut r = i;
                while ancestor[r] != j
                    invariant
                        n == k.ncols,
                        0 <= j < n,
                        i < j,
                        r < j,
                        upper_entry(k, i as int, j as int),
                        parent@.len() == n,
                        ancestor@.len() == n,
                        p0.len() == n,
                        forall|q: int| 0 <= q < n ==> #[trigger] p0[q] == n || (q < p0[q] < j),
                        forall|q: int| 0 <= q < n ==> #[trigger] parent@[q] == n || (q < parent@[q] <= j),
                        forall|q: int| 0 <= q < n ==> #[trigger] ancestor@[q] == q || (q < ancestor@[q] <= j),
                        forall|q: int| 0 <= q < n ==> (#[trigger] ancestor@[q] == q <==> parent@[q] == n),
                        forall|x: int| 0 <= x < n && #[trigger] ancestor@[x] != x && ancestor@[x] != j
                            ==> in_subtree(parent@, n as int, x, ancestor@[x] as int),
                        forall|x: int| 0 <= x < n && x != j && #[trigger] ancestor@[x] == j
                            ==> in_subtree(parent@, n as int, x, j as int) || (x < r && in_subtree(parent@, n as int, x, r as int)),
                        in_subtree(parent@, n as int, i as int, r as int),
                        forall|q: int| 0 <= q < n ==> #[trigger] parent@[q] == p0[q] || (p0[q] == n && parent@[q] == j && q < j),
                        forall|q: int| 0 <= q < j ==> #[trigger] first_touch(k, parent@, n as int, j as int, q),
                        forall|q: int| 0 <= q < n && p0[q] == n && #[trigger] parent@[q] == j ==> subtree_touches(k, parent@, n as int, q, j as int),
                        forall|t: int| start <= t < idx && #[trigger] k.row_idx@[t] < j ==> in_subtree(parent@, n as int, k.row_idx@[t] as int, j as int),
                    decreases (if ancestor@[r as int] == j { 0 } else { 2 * (j - r) + 1 }),
                {
                    let next = ancestor[r];
                    if next == r {
                        // `r` is a root: hang it under `j`
                        let ghost pb = parent@;
                        let ghost ab = ancestor@;
                        proof {
                            lemma_attach_all(k, pb, n as int, r as int, j as int);
                        }
                        ancestor.set(r, j);
                        parent.set(r, j);
                        proof {
                            let pn = parent@;
                            assert(pn == pb.update(r as int, j));
                            lemma_subtree_step(pn, n as int, r as int);
                            lemma_attach_keeps(pb, n as int, r as int, j as int, i as int, r as int);
                            assert(in_subtree(pn, n as int, i as int, r as int) && upper_entry(k, i as int, j as int));
                            assert forall|x: int| 0 <= x < n && #[trigger] ancestor@[x] != x && ancestor@[x] != j
                                implies in_subtree(parent@, n as int, x, ancestor@[x] as int) by {
                                lemma_attach_keeps(pb, n as int, r as int, j as int, x, ab[x] as int);
                            }
                            assert forall|x: int| 0 <= x < n && x != j && #[trigger] ancestor@[x] == j
                                implies in_subtree(parent@, n as int, x, j as int) || (x < r && in_subtree(parent@, n as int, x, r as int)) by {
                                if x != r {
                                    if in_subtree(pb, n as int, x, j as int) {
                                        lemma_attach_keeps(pb, n as int, r as int, j as int, x, j as int);
                                    } else {
                                        lemma_attach_keeps(pb, n as int, r as int, j as int, x, r as int);
                                    }
                                }
                            }
                            assert forall|q: int| 0 <= q < n && p0[q] == n && #[trigger] parent@[q] == j
                                implies subtree_touches(k, parent@, n as int, q, j as int) by {
                                if q != r {
                                    lemma_attach_touches(k, pb, n as int, r as int, j as int, q, j as int);
                                }
                            }
                            assert forall|t: int| start <= t < idx && #[trigger] k.row_idx@[t] < j
                                implies in_subtree(parent@, n as int, k.row_idx@[t] as int, j as int) by {
                                lemma_attach_keeps(pb, n as int, r as int, j as int, k.row_idx@[t] as int, j as int);
                            }
                        }
                    } else {
                        let ghost pb = parent@;
                        proof {
                            assert(in_subtree(pb, n as int, r as int, next as int));
                            lemma_subtree_trans(pb, n as int, i as int, r as int, next as int);
                        }
                        ancestor.set(r, j);
                        proof {
                            assert forall|x: int| 0 <= x < n && x != j && #[trigger] ancestor@[x] == j
                                implies in_subtree(parent@, n as int, x, j as int) || (x < next && in_subtree(parent@, n as int, x, next as int)) by {
                                if x != r && !in_subtree(pb, n as int, x, j as int) {
                                    lemma_subtree_trans(pb, n as int, x, r as int, next as int);
                                }
                            }
                        }
                        r = next;
                    }
                }
                proof {
                    assert(in_subtree(parent@, n as int, r as int, j as int));
                    lemma_subtree_trans(parent@, n as int, i as int, r as int, j as int);
                    assert forall|x: int| 0 <= x < n && #[trigger] ancestor@[x] != x
                        implies in_subtree(parent@, n as int, x, ancestor@[x] as int) by {
                        if ancestor@[x] == j && x != j && !in_subtree(parent@, n as int, x, j as int) {
                            lemma_subtree_trans(parent@, n as int, x, r as int, j as int);
                        }
                    }
                }
            }
            idx = idx + 1;
        }
        proof {
            lemma_column_done(k, p0, parent@, n as int, j as int);
        }
        j = j + 1;
    }
    proof {
        assert forall|q: int| 0 <= q < n implies #[trigger] parent@[q] == n || (q < parent@[q] < n) by {}
    }
    parent
}

/// Hanging the root `r` under `j` keeps what the first-touch facts of the
/// columns below `j` say.
proof fn lemma_attach_all<T>(k: &CscMatrix<T>, pb: Seq<usize>, n: int, r: int, j: int)
    requires
        0 <= r < j < n,
        pb.len() == n,
        pb[r] == n,
        forall|q: int| 0 <= q < n ==> #[trigger] pb[q] == n || (q < pb[q] <= j),
        forall|q: int| 0 <= q < j ==> #[trigger] first_touch(k, pb, n, j, q),
    ensures
        forall|q: int| 0 <= q < j ==> #[trigger] first_touch(k, pb.update(r, j as usize), n, j, q),
{
    let pn = pb.update(r, j as usize);
    assert forall|q: int| 0 <= q < j implies #[trigger] first_touch(k, pn, n, j, q) by {
        assert forall|e: int| subtree_touches(k, pn, n, q, e) == subtree_touches(k, pb, n, q, e) by {
            lemma_attach_touches(k, pb, n, r, j, q, e);
        }
        assert(first_touch(k, pb, n, j, q));
    }
}

/// After column `j`: the roots its upper entries reached hang under `j`,
/// the others touch no column up to `j`.
proof fn lemma_column_done<T>(k: &CscMatrix<T>, p0: Seq<usize>, p: Seq<usize>, n: int, j: int)
    requires
        k.wf(),
        k.nrows == n,
        k.ncols == n,
        0 <= j < n,
        p.len() == n,
        p0.len() == n,
        forall|q: int| 0 <= q < n ==> #[trigger] p0[q] == n || (q < p0[q] < j),
        forall|q: int| 0 <= q < n ==> #[trigger] p[q] == n || (q < p[q] <= j),
        forall|q: int| 0 <= q < n ==> #[trigger] p[q] == p0[q] || (p0[q] == n && p[q] == j && q < j),
        forall|q: int| 0 <= q < j ==> #[trigger] first_touch(k, p, n, j, q),
        forall|q: int| 0 <= q < n && p0[q] == n && #[trigger] p[q] == j ==> subtree_touches(k, p, n, q, j),
        forall|t: int| k.col_ptr@[j] <= t < k.col_ptr@[j + 1] && #[trigger] k.row_idx@[t] < j
            ==> in_subtree(p, n, k.row_idx@[t] as int, j),
    ensures
        forall|q: int| 0 <= q < j + 1 ==> #[trigger] first_touch(k, p, n, j + 1, q),
{
    assert forall|q: int| 0 <= q < j + 1 implies #[trigger] first_touch(k, p, n, j + 1, q) by {
        if q < j {
            assert(first_touch(k, p, n, j, q));
            if p[q] == n {
                if subtree_touches(k, p, n, q, j) {
                    let d = choose|d: int| #[trigger] in_subtree(p, n, d, q) && upper_entry(k, d, j);
                    let col = k.col_rows(j);
                    let x = choose|x: int| 0 <= x < col.len() && col[x] == d as usize;
                    let t = k.col_ptr@[j] + x;
                    assert(k.row_idx@[t] == d);
                    assert(in_subtree(p, n, d, j));
                    lemma_subtree_chain(p, n, d, q, j);
                    if in_subtree(p, n, j, q) {
                        lemma_subtree_le(p, n, j, q);
                    }
                }
            } else if p[q] == j {
                assert(p0[q] == n);
            }
        } else {
            assert(p[j] == p0[j]);
        }
    }
}

} // verus!

verus! {

/// Columns below `m` keep their reach sets as more columns are added.
proof fn lemma_reach_prefix<T>(k: &CscMatrix<T>, parent: Seq<usize>, m: int, m2: int)
    requires
        0 <= m <= m2,
    ensures
        reach_sets(k, parent, m).len() == m,
        reach_sets(k, parent, m2).len() == m2,
        forall|q: int| 0 <= q < m ==> #[trigger] reach_sets(k, parent, m2)[q] == reach_sets(k, parent, m)[q],
    decreases m2,
{
    if m2 > 0 {
        if m < m2 {
            lemma_reach_prefix(k, parent, m, m2 - 1);
        } else {
            lemma_reach_prefix(k, parent, m - 1, m2 - 1);
        }
    }
}

/// Children lists of the elimination forest: `children[p]` holds, in
/// ascending order, every `c` with `parent[c] == p`.
pub fn build_children(parent: &[usize], n: usize) -> (children: Vec<Vec<usize>>)
    requires
        parent@.len() == n,
    ensures
        children_ok(children@, parent@, n as int),
{
    let mut children: Vec<Vec<usize>> = Vec::new();
    let mut t: usize = 0;
    while t < n
        invariant
            0 <= t <= n,
            children@.len() == t,
            forall|q: int| 0 <= q < t ==> #[trigger] children@[q]@.len() == 0,
        decreases n - t,
    {
        children.push(Vec::new());
        t = t + 1;
    }
    let mut c: usize = 0;
    while c < n
        invariant
            parent@.len() == n,
            0 <= c <= n,
            children@.len() == n,
            forall|p: int| 0 <= p < n ==> strictly_sorted(#[trigger] children@[p]@),
            forall|p: int, x: int| 0 <= p < n && 0 <= x < children@[p]@.len() ==> #[trigger] children@[p]@[x] < c,
            forall|p: int, d: usize| 0 <= p < n ==> (#[trigger] children@[p]@.contains(d) <==> (d < c && parent@[d as int] == p)),
        decreases n - c,
    {
        let p = parent[c];
        if p < n {
            let ghost before = children@;
            children[p].push(c);
            proof {
                crate::sym::lemma_pattern_push(before, children@, p as int, c);
                assert forall|q: int| 0 <= q < n implies strictly_sorted(#[trigger] children@[q]@) by {
                    if q == p {
                        assert forall|a: int, b: int| 0 <= a < b < children@[q]@.len() implies children@[q]@[a] < children@[q]@[b] by {
                            if b == before[q]@.len() {
                                assert(before[q]@[a] < c);
                            } else {
                                assert(before[q]@[a] < before[q]@[b]);
                            }
                        }
                    } else {
                        assert(children@[q] == before[q]);
                    }
                }
                assert forall|q: int, x: int| 0 <= q < n && 0 <= x < children@[q]@.len() implies #[trigger] children@[q]@[x] < c + 1 by {
                    if q == p {
                        if x < before[q]@.len() {
                            assert(before[q]@[x] < c);
                        }
                    } else {
                        assert(children@[q] == before[q]);
                    }
                }
            }
        }
        c = c + 1;
    }
    children
}

/// Column pattern of `L` by propagation along the elimination forest:
/// column `j` holds `j`, the rows below the diagonal of column `j` of `K`,
/// and the rows above `j` of each child column.
pub fn fill_pattern<T>(k: &CscMatrix<T>, parent: &[usize], children: &[Vec<usize>]) -> (r: (Vec<usize>, Vec<usize>))
    requires
        k.wf(),
        k.nrows == k.ncols,
        forest_ok(parent@, k.ncols as int),
        children_ok(children@, parent@, k.ncols as int),
    ensures
        ({
            let (col_ptr, row_idx) = r;
            let n = k.ncols as int;
            &&& col_ptr@.len() == n + 1
            &&& col_ptr@[0] == 0
            &&& col_ptr@[n] == row_idx@.len()
            &&& forall|a: int, b: int| 0 <= a <= b <= n ==> #[trigger] col_ptr@[a] <= #[trigger] col_ptr@[b]
            &&& forall|j: int| 0 <= j < n ==> {
                let col = #[trigger] row_idx@.subrange(col_ptr@[j] as int, col_ptr@[j + 1] as int);
                &&& col.len() >= 1
                &&& col[0] == j
                &&& strictly_sorted(col)
                &&& forall|t: int| 0 <= t < col.len() ==> col[t] < n
                &&& forall|i: usize| col.contains(i) <==> (i == j || reach_sets(k, parent@, n)[j].contains(i))
            }
        }),
{
    let n = k.ncols;
    let ghost par = parent@;
    let mut reach: Vec<Vec<usize>> = Vec::new();
    let mut t: usize = 0;
    while t < n
        invariant
            0 <= t <= n,
            reach@.len() == t,
        decreases n - t,
    {
        reach.push(Vec::new());
        t = t + 1;
    }
    proof {
        lemma_reach_prefix(k, par, 0, 0);
    }
    let mut j: usize = 0;
    while j < n
        invariant
            n == k.ncols,
            k.wf(),
            k.nrows == n,
            par == parent@,
            forest_ok(par, n as int),
            children_ok(children@, par, n as int),
            0 <= j <= n,
            reach@.len() == n,
            reach_sets(k, par, j as int).len() == j,
            forall|q: int| 0 <= q < j ==> strictly_sorted(#[trigger] reach@[q]@),
            forall|q: int, x: int| 0 <= q < j && 0 <= x < reach@[q]@.len() ==> q < #[trigger] reach@[q]@[x] < n,
            forall|q: int, i: usize| 0 <= q < j ==> (#[trigger] reach@[q]@.contains(i) <==> reach_sets(k, par, j as int)[q].contains(i)),
        decreases n - j,
    {
        let ghost prev = reach_sets(k, par, j as int);
        let mut list: Vec<usize> = Vec::new();
        assert(k.col_ptr@[j as int] <= k.col_ptr@[j + 1] <= k.col_ptr@[n as int]);
        let start = k.col_ptr[j];
        let end = k.col_ptr[j + 1];
        let mut idx = start;
        while idx < end
            invariant
                n == k.ncols,
                k.wf(),
                k.nrows == n,
                0 <= j < n,
                start == k.col_ptr@[j as int],
                end == k.col_ptr@[j + 1],
                end <= k.row_idx@.len(),
                start <= idx <= end,
                forall|x: int| 0 <= x < list@.len() ==> j < #[trigger] list@[x] < n,
                forall|i: usize| #[trigger] list@.contains(i) <==> (i > j && exists|t2: int| start <= t2 < idx && k.row_idx@[t2] == i),
            decreases end - idx,
        {
            let i = k.row_idx[idx];
            proof {
                assert(k.col_rows(j as int)[idx - start] == i);
                assert(i < n);
            }
            let ghost l0 = list@;
            if i > j {
                list.push(i);
            }
            proof {
                assert forall|y: usize| #[trigger] list@.contains(y) <==> (y > j && exists|t2: int| start <= t2 < idx + 1 && k.row_idx@[t2] == y) by {
                    crate::rows::lemma_push_contains(l0, i, y);
                    if y > j && (exists|t2: int| start <= t2 < idx + 1 && k.row_idx@[t2] == y) {
                        let t2 = choose|t2: int| start <= t2 < idx + 1 && k.row_idx@[t2] == y;
                        if t2 < idx {
                            assert(l0.contains(y));
                        }
                    }
                }
            }
            idx = idx + 1;
        }
        proof {
            assert forall|i: usize| #[trigger] list@.contains(i) <==> below_diag(k, j as int, i) by {
                if below_diag(k, j as int, i) {
                    let x = choose|x: int| 0 <= x < k.col_rows(j as int).len() && k.col_rows(j as int)[x] == i;
                    assert(k.row_idx@[start + x] == i);
                }
                if list@.contains(i) {
                    let t2 = choose|t2: int| start <= t2 < idx && k.row_idx@[t2] == i;
                    assert(k.col_rows(j as int)[t2 - start] == i);
                }
            }
        }
        let nch = children[j].len();
        let mut ci: usize = 0;
        while ci < nch
            invariant
                n == k.ncols,
                0 <= j < n,
                par == parent@,
                forest_ok(par, n as int),
                children_ok(children@, par, n as int),
                nch == children@[j as int]@.len(),
                0 <= ci <= nch,
                reach@.len() == n,
                prev == reach_sets(k, par, j as int),
                prev.len() == j,
                forall|q: int, x: int| 0 <= q < j && 0 <= x < reach@[q]@.len() ==> q < #[trigger] reach@[q]@[x] < n,
                forall|q: int, i: usize| 0 <= q < j ==> (#[trigger] reach@[q]@.contains(i) <==> prev[q].contains(i)),
                forall|x: int| 0 <= x < list@.len() ==> j < #[trigger] list@[x] < n,
                forall|i: usize| #[trigger] list@.contains(i) <==> (below_diag(k, j as int, i) || exists|c: int|
                    0 <= c < j && par[c] == j && children@[j as int]@.take(ci as int).contains(c as usize)
                    && #[trigger] prev[c].contains(i) && i > j),
            decreases nch - ci,
        {
            let c = children[j][ci];
            proof {
                assert(children@[j as int]@.contains(c));
                assert(par[c as int] == j);
                assert(c < j);
            }
            let rlen = reach[c].len();
            let ghost lbefore = list@;
            let mut t: usize = 0;
            while t < rlen
                invariant
                    n == k.ncols,
                    0 <= j < n,
                    c < j,
                    reach@.len() == n,
                    rlen == reach@[c as int]@.len(),
                    0 <= t <= rlen,
                    forall|q: int, x: int| 0 <= q < j && 0 <= x < reach@[q]@.len() ==> q < #[trigger] reach@[q]@[x] < n,
                    forall|x: int| 0 <= x < list@.len() ==> j < #[trigger] list@[x] < n,
                    forall|i: usize| #[trigger] list@.contains(i) <==> (lbefore.contains(i) || (i > j
                        && reach@[c as int]@.take(t as int).contains(i))),
                decreases rlen - t,
            {
                let r = reach[c][t];
                proof {
                    assert(c < reach@[c as int]@[t as int] < n);
                }
                let ghost l0 = list@;
                if r > j {
                    list.push(r);
                }
                proof {
                    assert forall|i: usize| #[trigger] list@.contains(i) <==> (lbefore.contains(i) || (i > j
                        && reach@[c as int]@.take(t + 1).contains(i))) by {
                        crate::rows::lemma_push_contains(l0, r, i);
                        crate::rows::lemma_push_contains(reach@[c as int]@.take(t as int), r, i);
                        assert(reach@[c as int]@.take(t + 1) =~= reach@[c as int]@.take(t as int).push(r));
                    }
                }
                t = t + 1;
            }
            proof {
                assert(reach@[c as int]@.take(rlen as int) =~= reach@[c as int]@);
                assert(children@[j as int]@.take(ci + 1) =~= children@[j as int]@.take(ci as int).push(c));
                assert forall|i: usize| #[trigger] list@.contains(i) <==> (below_diag(k, j as int, i) || exists|c2: int|
                    0 <= c2 < j && par[c2] == j && children@[j as int]@.take(ci + 1).contains(c2 as usize)
                    && #[trigger] prev[c2].contains(i) && i > j) by {
                    if lbefore.contains(i) && !below_diag(k, j as int, i) {
                        let c2 = choose|c2: int| 0 <= c2 < j && par[c2] == j && children@[j as int]@.take(ci as int).contains(c2 as usize)
                            && #[trigger] prev[c2].contains(i) && i > j;
                        crate::rows::lemma_push_contains(children@[j as int]@.take(ci as int), c, c2 as usize);
                    }
                    if i > j && reach@[c as int]@.contains(i) {
                        crate::rows::lemma_push_contains(children@[j as int]@.take(ci as int), c, c);
                        assert(prev[c as int].contains(i));
                    }
                    if exists|c2: int| 0 <= c2 < j && par[c2] == j && children@[j as int]@.take(ci + 1).contains(c2 as usize)
                        && #[trigger] prev[c2].contains(i) && i > j {
                        let c2 = choose|c2: int| 0 <= c2 < j && par[c2] == j && children@[j as int]@.take(ci + 1).contains(c2 as usize)
                            && #[trigger] prev[c2].contains(i) && i > j;
                        crate::rows::lemma_push_contains(children@[j as int]@.take(ci as int), c, c2 as usize);
                        if c2 == c {
                            assert(reach@[c as int]@.contains(i));
                        }
                    }
                }
            }
            ci = ci + 1;
        }
        let sorted_list = normalize_indices(&list, None);
        let ghost r0 = reach@;
        reach.set(j, sorted_list);
        proof {
            assert(children@[j as int]@.take(nch as int) =~= children@[j as int]@);
            lemma_reach_prefix(k, par, j as int, j + 1);
            let nxt = reach_sets(k, par, j + 1);
            assert(nxt == prev.push(Set::new(|i: usize| below_diag(k, j as int, i)
                || exists|c: int| 0 <= c < j && par[c] == j && #[trigger] prev[c].contains(i) && i > j)));
            assert forall|q: int, i: usize| 0 <= q < j + 1 implies (#[trigger] reach@[q]@.contains(i) <==> nxt[q].contains(i)) by {
                if q < j {
                    assert(reach@[q] == r0[q]);
                } else {
                    assert(reach@[q]@.contains(i) <==> list@.contains(i));
                    if exists|c: int| 0 <= c < j && par[c] == j && #[trigger] prev[c].contains(i) && i > j {
                        let c = choose|c: int| 0 <= c < j && par[c] == j && #[trigger] prev[c].contains(i) && i > j;
                        assert(children@[j as int]@.contains(c as usize));
                    }
                }
            }
            assert forall|q: int, x: int| 0 <= q < j + 1 && 0 <= x < reach@[q]@.len() implies q < #[trigger] reach@[q]@[x] < n by {
                if q < j {
                    assert(reach@[q] == r0[q]);
                } else {
                    assert(reach@[q]@.contains(reach@[q]@[x]));
                    assert(list@.contains(reach@[q]@[x]));
                }
            }
            assert forall|q: int| 0 <= q < j + 1 implies strictly_sorted(#[trigger] reach@[q]@) by {
                if q < j {
                    assert(reach@[q] == r0[q]);
                }
            }
        }
        j = j + 1;
    }
    // lay the columns out: diagonal first, then the sorted reach
    let mut col_ptr: Vec<usize> = Vec::new();
    let mut row_idx: Vec<usize> = Vec::new();
    col_ptr.push(0);
    let mut j: usize = 0;
    while j < n
        invariant
            n == k.ncols,
            0 <= j <= n,
            reach@.len() == n,
            reach_sets(k, par, n as int).len() == n,
            forall|q: int| 0 <= q < n ==> strictly_sorted(#[trigger] reach@[q]@),
            forall|q: int, x: int| 0 <= q < n && 0 <= x < reach@[q]@.len() ==> q < #[trigger] reach@[q]@[x] < n,
            forall|q: int, i: usize| 0 <= q < n ==> (#[trigger] reach@[q]@.contains(i) <==> reach_sets(k, par, n as int)[q].contains(i)),
            col_ptr@.len() == j + 1,
            col_ptr@[0] == 0,
            col_ptr@[j as int] == row_idx@.len(),
            forall|a: int, b: int| 0 <= a <= b <= j ==> #[trigger] col_ptr@[a] <= #[trigger] col_ptr@[b],
            forall|q: int| 0 <= q < j ==> #[trigger] row_idx@.subrange(col_ptr@[q] as int, col_ptr@[q + 1] as int)
                == seq![q as usize] + reach@[q]@,
        decreases n - j,
    {
        let ghost ri0 = row_idx@;
        let ghost cp0 = col_ptr@;
        row_idx.push(j);
        let rlen = reach[j].len();
        let mut t: usize = 0;
        while t < rlen
            invariant
                0 <= j < n,
                reach@.len() == n,
                rlen == reach@[j as int]@.len(),
                0 <= t <= rlen,
                row_idx@ == ri0 + seq![j] + reach@[j as int]@.take(t as int),
            decreases rlen - t,
        {
            row_idx.push(reach[j][t]);
            proof {
                assert(row_idx@ =~= ri0 + seq![j] + reach@[j as int]@.take(t + 1));
            }
            t = t + 1;
        }
        let len = row_idx.len();
        col_ptr.push(len);
        proof {
            assert(reach@[j as int]@.take(rlen as int) =~= reach@[j as int]@);
            assert forall|q: int| 0 <= q < j + 1 implies #[trigger] row_idx@.subrange(col_ptr@[q] as int, col_ptr@[q + 1] as int)
                == seq![q as usize] + reach@[q]@ by {
                if q < j {
                    assert(cp0[q + 1] <= cp0[j as int]);
                    assert(row_idx@.subrange(col_ptr@[q] as int, col_ptr@[q + 1] as int) =~= ri0.subrange(cp0[q] as int, cp0[q + 1] as int));
                } else {
                    assert(row_idx@.subrange(col_ptr@[q] as int, col_ptr@[q + 1] as int) =~= seq![q as usize] + reach@[q]@);
                }
            }
            assert forall|a: int, b: int| 0 <= a <= b <= j + 1 implies #[trigger] col_ptr@[a] <= #[trigger] col_ptr@[b] by {
                if b <= j {
                    assert(cp0[a] <= cp0[b]);
                } else if a <= j {
                    assert(cp0[a] <= cp0[j as int]);
                }
            }
        }
        j = j + 1;
    }
    proof {
        assert forall|q: int| 0 <= q < n implies {
            let col = #[trigger] row_idx@.subrange(col_ptr@[q] as int, col_ptr@[q + 1] as int);
            &&& col.len() >= 1
            &&& col[0] == q
            &&& strictly_sorted(col)
            &&& forall|t: int| 0 <= t < col.len() ==> col[t] < n
            &&& forall|i: usize| col.contains(i) <==> (i == q || reach_sets(k, par, n as int)[q].contains(i))
        } by {
            let col = row_idx@.subrange(col_ptr@[q] as int, col_ptr@[q + 1] as int);
            let rq = reach@[q]@;
            assert(col == seq![q as usize] + rq);
            assert forall|a: int, b: int| 0 <= a < b < col.len() implies col[a] < col[b] by {
                if a == 0 {
                    assert(q < rq[b - 1]);
                } else {
                    assert(rq[a - 1] < rq[b - 1]);
                }
            }
            assert forall|t: int| 0 <= t < col.len() implies col[t] < n by {
                if t > 0 {
                    assert(rq[t - 1] < n);
                }
            }
            assert forall|i: usize| col.contains(i) <==> (i == q || reach_sets(k, par, n as int)[q].contains(i)) by {
                if col.contains(i) {
                    let x = choose|x: int| 0 <= x < col.len() && col[x] == i;
                    if x > 0 {
                        assert(rq.contains(i));
                    }
                }
                if i == q {
                    assert(col[0] == i);
                }
                if rq.contains(i) {
                    let x = choose|x: int| 0 <= x < rq.len() && rq[x] == i;
                    assert(col[x + 1] == i);
                }
            }
        }
    }
    (col_ptr, row_idx)
}

/// Symbolic Cholesky factorization of the full (both triangles) matrix `k`:
/// elimination tree, children lists, and the pattern of `L`.
pub fn analyze<T>(k_csc: &CscMatrix<T>) -> (r: Result<SymbolicCholesky, SolverError<T>>)
    requires
        k_csc.wf(),
        k_csc.nrows == k_csc.ncols,
    ensures
        r matches Ok(s) && {
            &&& s.wf()
            &&& s.n == k_csc.ncols
            &&& forall|j: int, i: usize| 0 <= j < s.n ==> (#[trigger] s.col(j).contains(i) <==> (
                i == j || reach_sets(k_csc, s.parent@, s.n as int)[j].contains(i)))
            &&& is_etree(k_csc, s.parent@, s.n as int)
            &&& k_csc.symmetric_pattern() ==> forall|j: int| 0 <= j < s.n ==> {
                &&& (#[trigger] s.parent@[j] == s.n <==> s.col(j).len() == 1)
                &&& (s.parent@[j] < s.n ==> s.col(j)[1] == s.parent@[j])
            }
            &&& k_csc.symmetric_pattern() ==> forall|i: int, j: int| 0 <= j < i < s.n ==>
                (#[trigger] s.col(j).contains(i as usize) <==> exists|w: Seq<int>| fill_walk(k_csc, w, i, j))
        },
{
    let n = k_csc.ncols;
    let parent = elimination_tree(k_csc);
    let children = build_children(&parent, n);
    let (col_ptr, row_idx) = fill_pattern(k_csc, &parent, &children);
    let s = SymbolicCholesky { parent, col_ptr, row_idx, n, children };
    proof {
        assert forall|j: int| 0 <= j < n implies #[trigger] s.col(j) == row_idx@.subrange(col_ptr@[j] as int, col_ptr@[j + 1] as int) by {}
        if k_csc.symmetric_pattern() {
            assert forall|j: int| 0 <= j < n implies {
                &&& (#[trigger] s.parent@[j] == s.n <==> s.col(j).len() == 1)
                &&& (s.parent@[j] < s.n ==> s.col(j)[1] == s.parent@[j])
            } by {
                lemma_etree_first_row(k_csc, s.parent@, n as int, j, s.col(j));
            }
            assert forall|i: int, j: int| 0 <= j < i < n implies
                (#[trigger] s.col(j).contains(i as usize) <==> exists|w: Seq<int>| fill_walk(k_csc, w, i, j)) by {
                lemma_fill_path(k_csc, s.parent@, n as int, i, j, s.col(j));
            }
        }
    }
    Ok(s)
}


/// Column `c` of `L` below the diagonal holds exactly the rows `i > c`
/// stored below the diagonal in some column of the subtree of `c`.
pub proof fn lemma_reach_sets_subtree<T>(k: &CscMatrix<T>, parent: Seq<usize>, n: int, m: int, c: int, i: usize)
    requires
        forest_ok(parent, n),
        0 <= c < m <= n,
    ensures
        reach_sets(k, parent, m)[c].contains(i) <==> (i > c && exists|d: int| #[trigger] in_subtree(parent, n, d, c) && below_diag(k, d, i)),
    decreases m,
{
    lemma_reach_prefix(k, parent, m - 1, m);
    if c < m - 1 {
        lemma_reach_sets_subtree(k, parent, n, m - 1, c, i);
    } else {
        let prev = reach_sets(k, parent, m - 1);
        assert(reach_sets(k, parent, m)[c] == Set::new(|x: usize| below_diag(k, c, x)
            || exists|ch: int| 0 <= ch < c && parent[ch] == c && #[trigger] prev[ch].contains(x) && x > c));
        if reach_sets(k, parent, m)[c].contains(i) {
            if below_diag(k, c, i) {
                assert(in_subtree(parent, n, c, c));
            } else {
                let ch = choose|ch: int| 0 <= ch < c && parent[ch] == c && #[trigger] prev[ch].contains(i) && i > c;
                lemma_reach_sets_subtree(k, parent, n, m - 1, ch, i);
                let d = choose|d: int| #[trigger] in_subtree(parent, n, d, ch) && below_diag(k, d, i);
                lemma_subtree_step(parent, n, ch);
                lemma_subtree_trans(parent, n, d, ch, c);
            }
        }
        if i > c && exists|d: int| #[trigger] in_subtree(parent, n, d, c) && below_diag(k, d, i) {
            let d = choose|d: int| #[trigger] in_subtree(parent, n, d, c) && below_diag(k, d, i);
            if d != c {
                lemma_subtree_child(parent, n, d, c);
                let ch = choose|ch: int| 0 <= ch < n && #[trigger] parent[ch] == c && in_subtree(parent, n, d, ch);
                lemma_reach_sets_subtree(k, parent, n, m - 1, ch, i);
                assert(prev[ch].contains(i));
            }
        }
    }
}

/// On a symmetric pattern, the parent of each column of the elimination
/// tree is its first row below the diagonal in `L`: a root has only its
/// diagonal.
pub proof fn lemma_etree_first_row<T>(k: &CscMatrix<T>, parent: Seq<usize>, n: int, c: int, col: Seq<usize>)
    requires
        k.wf(),
        k.nrows == n,
        k.ncols == n,
        k.symmetric_pattern(),
        forest_ok(parent, n),
        is_etree(k, parent, n),
        0 <= c < n,
        col.len() >= 1,
        col[0] == c,
        strictly_sorted(col),
        forall|i: usize| col.contains(i) <==> (i == c || reach_sets(k, parent, n)[c].contains(i)),
    ensures
        parent[c] == n <==> col.len() == 1,
        parent[c] < n ==> col[1] == parent[c],
{
    assert(first_touch(k, parent, n, n, c));
    // a row of the reach of `c` is a column its subtree touches
    assert forall|e: usize| #[trigger] reach_sets(k, parent, n)[c].contains(e) <==> (c < e < n && subtree_touches(k, parent, n, c, e as int)) by {
        lemma_reach_sets_subtree(k, parent, n, n, c, e);
        if reach_sets(k, parent, n)[c].contains(e) {
            let d = choose|d: int| #[trigger] in_subtree(parent, n, d, c) && below_diag(k, d, e);
            lemma_subtree_le(parent, n, d, c);
            let xe = choose|xe: int| 0 <= xe < k.col_rows(d).len() && k.col_rows(d)[xe] == e;
            assert(k.col_rows(d)[xe] < n);
            assert(k.col_rows(d).contains((e as int) as usize) <==> k.col_rows(e as int).contains(d as usize));
            assert(k.col_rows(e as int).contains(d as usize));
            assert(upper_entry(k, d, e as int));
        }
        if c < e < n && subtree_touches(k, parent, n, c, e as int) {
            let d = choose|d: int| #[trigger] in_subtree(parent, n, d, c) && upper_entry(k, d, e as int);
            assert(0 <= d < n);
            assert(k.col_rows(d).contains((e as int) as usize) <==> k.col_rows(e as int).contains(d as usize));
            assert(k.col_rows(d).contains(e));
            assert(below_diag(k, d, e));
        }
    }
    if col.len() > 1 {
        let x1 = col[1];
        assert(col.contains(x1));
        assert(x1 > c);
        assert(reach_sets(k, parent, n)[c].contains(x1));
        if parent[c] < n {
            let p = parent[c];
            assert(reach_sets(k, parent, n)[c].contains(p));
            assert(col.contains(p));
            let xp = choose|xp: int| 0 <= xp < col.len() && col[xp] == p;
            if xp == 0 {
                assert(false);
            }
            if x1 < p {
                assert(!subtree_touches(k, parent, n, c, x1 as int));
            }
        }
    } else {
        if parent[c] < n {
            let p = parent[c];
            assert(reach_sets(k, parent, n)[c].contains(p));
            assert(col.contains(p));
            assert(col[0] == p);
        }
    }
}


/// Fill-path theorem: on a symmetric pattern, row `i > j` is in column `j`
/// of `L` exactly when a walk in the graph of `K` joins `i` to `j` through
/// nodes below `j` only.
pub proof fn lemma_fill_path<T>(k: &CscMatrix<T>, parent: Seq<usize>, n: int, i: int, j: int, col: Seq<usize>)
    requires
        k.wf(),
        k.nrows == n,
        k.ncols == n,
        k.symmetric_pattern(),
        forest_ok(parent, n),
        is_etree(k, parent, n),
        0 <= j < i < n,
        forall|x: usize| col.contains(x) <==> (x == j || reach_sets(k, parent, n)[j].contains(x)),
    ensures
        col.contains(i as usize) <==> exists|w: Seq<int>| fill_walk(k, w, i, j),
{
    let iu = i as usize;
    lemma_reach_sets_subtree(k, parent, n, n, j, iu);
    if col.contains(iu) {
        let d = choose|d: int| #[trigger] in_subtree(parent, n, d, j) && below_diag(k, d, iu);
        lemma_subtree_le(parent, n, d, j);
        assert(0 <= d);
        let w = lemma_subtree_walk(k, parent, n, d, j);
        let full = seq![i] + w;
        assert(linked(k, i, d));
        assert forall|t: int| 0 <= t < full.len() - 1 implies #[trigger] walk_step(k, full, t) by {
            if t > 0 {
                assert(walk_step(k, w, t - 1));
                assert(full[t] == w[t - 1] && full[t + 1] == w[t]);
            }
        }
        assert forall|t: int| 0 < t < full.len() - 1 implies 0 <= #[trigger] full[t] < j by {
            assert(full[t] == w[t - 1]);
        }
        assert(fill_walk(k, full, i, j));
    }
    if exists|w: Seq<int>| fill_walk(k, w, i, j) {
        let w = choose|w: Seq<int>| fill_walk(k, w, i, j);
        let d = w[1];
        assert(walk_step(k, w, 0));
        assert(linked(k, i, d));
        if w.len() == 2 {
            assert(in_subtree(parent, n, j, j));
            assert(k.col_rows(j).contains((i as int) as usize) <==> k.col_rows(i).contains(j as usize));
            assert(below_diag(k, j, iu));
        } else {
            let sub = w.subrange(1, w.len() as int);
            assert forall|t: int| 0 <= t < sub.len() - 1 implies #[trigger] walk_step(k, sub, t) by {
                assert(walk_step(k, w, t + 1));
            }
            assert forall|x: int| 0 <= x < sub.len() implies 0 <= #[trigger] sub[x] <= j by {
                assert(sub[x] == w[x + 1]);
            }
            assert(is_walk(k, sub, sub[0], j));
            lemma_walk_in_subtree(k, parent, n, sub, j, 0);
            assert(0 <= d < j);
            assert(k.col_rows(d).contains((i as int) as usize) <==> k.col_rows(i).contains(d as usize));
            assert(below_diag(k, d, iu));
        }
    }
}

} // verus!
