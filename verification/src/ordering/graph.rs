//! Adjacency graph of a symmetric sparsity pattern.
use vstd::prelude::*;
use crate::rows::{strictly_sorted, normalize_indices};
use crate::scalar::SparseScalar;
use crate::sym::{SymCsrMatrix, upper_row_ok};

verus! {

/// Nodes `i` and `j` are joined by an edge of the pattern of `k`: an
/// off-diagonal entry in either triangle.
pub open spec fn edge<T>(k: &SymCsrMatrix<T>, i: int, j: int) -> bool {
    &&& i != j
    &&& (k.stored(i, j) || k.stored(j, i))
}

/// Undirected graph of the sparsity pattern of a symmetric matrix.
///
/// Nodes are `0..n`; the neighbours of node `i` are stored, in ascending
/// order, at `neighbours[adj_ptr[i]..adj_ptr[i + 1]]`.  The diagonal is not
/// an edge.
#[derive(Debug, Clone)]
pub struct Graph {
    /// Flat neighbour array (all adjacency lists concatenated).
    pub neighbours: Vec<usize>,
    /// `adj_ptr[i]..adj_ptr[i+1]` is the neighbour range of node `i`.
    pub adj_ptr: Vec<usize>,
    /// Number of nodes.
    pub n: usize,
}

impl Graph {
    /// Well-formedness: pointer array of `n + 1` non-decreasing entries
    /// covering the neighbour array; each list strictly increasing, with
    /// entries below `n`.
    pub open spec fn wf(&self) -> bool {
        &&& self.adj_ptr@.len() == self.n + 1
        &&& self.adj_ptr@[0] == 0
        &&& self.adj_ptr@[self.n as int] == self.neighbours@.len()
        &&& forall|a: int, b: int| 0 <= a <= b <= self.n ==> #[trigger] self.adj_ptr@[a] <= #[trigger] self.adj_ptr@[b]
        &&& forall|i: int| 0 <= i < self.n ==> strictly_sorted(#[trigger] self.adj(i))
        &&& forall|i: int, k: int| 0 <= i < self.n && 0 <= k < self.adj(i).len() ==> #[trigger] self.adj(i)[k] < self.n
    }

    /// Neighbour list of node `i`.
    pub open spec fn adj(&self, i: int) -> Seq<usize> {
        self.neighbours@.subrange(self.adj_ptr@[i] as int, self.adj_ptr@[i + 1] as int)
    }

    /// Build the graph of the pattern of `k`: `j` is a neighbour of `i`
    /// exactly when `(i, j)`, `i != j`, is stored in either triangle.
    pub fn from_sym<T: SparseScalar>(k: &SymCsrMatrix<T>) -> (g: Self)
        requires
            k.wf(),
        ensures
            g.wf(),
            g.n == k.n,
            forall|i: int, j: usize| 0 <= i < k.n ==> (#[trigger] g.adj(i).contains(j) <==> edge(k, i, j as int)),
    {
        let n = k.n;
        let mut lists: Vec<Vec<usize>> = Vec::new();
        let mut t: usize = 0;
        while t < n
            invariant
                0 <= t <= n,
                lists@.len() == t,
                forall|q: int| 0 <= q < t ==> #[trigger] lists@[q]@.len() == 0,
            decreases n - t,
        {
            lists.push(Vec::new());
            t = t + 1;
        }
        let mut row: usize = 0;
        while row < n
            invariant
                n == k.n,
                k.wf(),
                0 <= row <= n,
                lists@.len() == n,
                forall|i: int, j: usize| 0 <= i < n && #[trigger] lists@[i]@.contains(j) ==> j < n && edge(k, i, j as int),
                forall|i: int, j: int| 0 <= i < row && i < j < n && #[trigger] k.stored(i, j) ==>
                    lists@[i]@.contains(j as usize) && lists@[j]@.contains(i as usize),
            decreases n - row,
        {
            proof {
                k.lemma_row_bounds(row as int);
                assert(upper_row_ok(k.row_ptr@, k.col_idx@, n as int, row as int));
            }
            let start = k.row_ptr[row];
            let end = k.row_ptr[row + 1];
            let mut idx = start;
            while idx < end
                invariant
                    n == k.n,
                    k.wf(),
                    0 <= row < n,
                    start == k.start(row as int),
                    end == k.end(row as int),
                    end <= k.col_idx@.len(),
                    start <= idx <= end,
                    upper_row_ok(k.row_ptr@, k.col_idx@, n as int, row as int),
                    lists@.len() == n,
                    forall|i: int, j: usize| 0 <= i < n && #[trigger] lists@[i]@.contains(j) ==> j < n && edge(k, i, j as int),
                    forall|i: int, j: int| 0 <= i < row && i < j < n && #[trigger] k.stored(i, j) ==>
                        lists@[i]@.contains(j as usize) && lists@[j]@.contains(i as usize),
                    forall|t2: int| start <= t2 < idx && k.col_idx@[t2] != row ==>
                        #[trigger] lists@[row as int]@.contains(k.col_idx@[t2]) && lists@[k.col_idx@[t2] as int]@.contains(row),
                decreases end - idx,
            {
                let col = k.col_idx[idx];
                if col != row {
                    proof {
                        assert(k.is_slot(row as int, col as int, idx as int));
                        assert(k.stored(row as int, col as int));
                    }
                    let ghost b0 = lists@;
                    lists[row].push(col);
                    proof {
                        crate::sym::lemma_pattern_push(b0, lists@, row as int, col);
                    }
                    let ghost b1 = lists@;
                    lists[col].push(row);
                    proof {
                        crate::sym::lemma_pattern_push(b1, lists@, col as int, row);
                        assert forall|t2: int| start <= t2 < idx + 1 && k.col_idx@[t2] != row implies
                            #[trigger] lists@[row as int]@.contains(k.col_idx@[t2]) && lists@[k.col_idx@[t2] as int]@.contains(row) by {
                            if t2 < idx {
                                assert(b0[row as int]@.contains(k.col_idx@[t2]));
                                assert(b0[k.col_idx@[t2] as int]@.contains(row));
                            }
                        }
                    }
                }
                idx = idx + 1;
            }
            proof {
                assert forall|i: int, j: int| 0 <= i < row + 1 && i < j < n && #[trigger] k.stored(i, j) implies
                    lists@[i]@.contains(j as usize) && lists@[j]@.contains(i as usize) by {
                    if i == row {
                        let t2 = choose|t2: int| #[trigger] k.is_slot(i, j, t2);
                        assert(k.col_idx@[t2] == j);
                        assert(start <= t2 < end);
                        assert(k.col_idx@[t2] != row);
                        assert(lists@[row as int]@.contains(k.col_idx@[t2]));
                        assert(lists@[k.col_idx@[t2] as int]@.contains(row));
                    }
                }
            }
            row = row + 1;
        }
        let mut neighbours: Vec<usize> = Vec::new();
        let mut adj_ptr: Vec<usize> = Vec::new();
        adj_ptr.push(0);
        let mut i: usize = 0;
        while i < n
            invariant
                n == k.n,
                k.wf(),
                0 <= i <= n,
                lists@.len() == n,
                forall|i2: int, j: usize| 0 <= i2 < n && #[trigger] lists@[i2]@.contains(j) ==> j < n && edge(k, i2, j as int),
                forall|i2: int, j: int| 0 <= i2 < n && i2 < j < n && #[trigger] k.stored(i2, j) ==>
                    lists@[i2]@.contains(j as usize) && lists@[j]@.contains(i2 as usize),
                adj_ptr@.len() == i + 1,
                adj_ptr@[0] == 0,
                adj_ptr@[i as int] == neighbours@.len(),
                forall|a: int, b: int| 0 <= a <= b <= i ==> #[trigger] adj_ptr@[a] <= #[trigger] adj_ptr@[b],
                forall|q: int| 0 <= q < i ==> {
                    let s = #[trigger] neighbours@.subrange(adj_ptr@[q] as int, adj_ptr@[q + 1] as int);
                    &&& strictly_sorted(s)
                    &&& forall|j: usize| s.contains(j) <==> lists@[q]@.contains(j)
                },
            decreases n - i,
        {
            let mut list = normalize_indices(&lists[i], None);
            let ghost l = list@;
            let ghost old_nb = neighbours@;
            let ghost old_ap = adj_ptr@;
            neighbours.append(&mut list);
            let len = neighbours.len();
            adj_ptr.push(len);
            proof {
                assert(neighbours@ =~= old_nb + l);
                assert forall|q: int| 0 <= q < i + 1 implies {
                    let s = #[trigger] neighbours@.subrange(adj_ptr@[q] as int, adj_ptr@[q + 1] as int);
                    &&& strictly_sorted(s)
                    &&& forall|j: usize| s.contains(j) <==> lists@[q]@.contains(j)
                } by {
                    if q < i {
                        assert(old_ap[q + 1] <= old_ap[i as int]);
                        assert(neighbours@.subrange(adj_ptr@[q] as int, adj_ptr@[q + 1] as int)
                            =~= old_nb.subrange(old_ap[q] as int, old_ap[q + 1] as int));
                    } else {
                        assert(neighbours@.subrange(adj_ptr@[q] as int, adj_ptr@[q + 1] as int) =~= l);
                    }
                }
                assert forall|a: int, b: int| 0 <= a <= b <= i + 1 implies #[trigger] adj_ptr@[a] <= #[trigger] adj_ptr@[b] by {
                    if b <= i {
                        assert(old_ap[a] <= old_ap[b]);
                    } else if a <= i {
                        assert(old_ap[a] <= old_ap[i as int]);
                    }
                }
            }
            i = i + 1;
        }
        let g = Graph { neighbours, adj_ptr, n };
        proof {
            assert forall|i2: int| 0 <= i2 < n implies strictly_sorted(#[trigger] g.adj(i2)) by {
                assert(g.adj(i2) == neighbours@.subrange(adj_ptr@[i2] as int, adj_ptr@[i2 + 1] as int));
            }
            assert forall|i2: int, k2: int| 0 <= i2 < n && 0 <= k2 < g.adj(i2).len() implies #[trigger] g.adj(i2)[k2] < n by {
                let s = neighbours@.subrange(adj_ptr@[i2] as int, adj_ptr@[i2 + 1] as int);
                assert(g.adj(i2) == s);
                assert(s.contains(s[k2]));
                assert(lists@[i2]@.contains(s[k2]));
            }
            assert forall|i2: int, j: usize| 0 <= i2 < n implies (#[trigger] g.adj(i2).contains(j) <==> edge(k, i2, j as int)) by {
                let s = neighbours@.subrange(adj_ptr@[i2] as int, adj_ptr@[i2 + 1] as int);
                assert(g.adj(i2) == s);
                if edge(k, i2, j as int) {
                    if k.stored(i2, j as int) {
                        let t2 = choose|t2: int| #[trigger] k.is_slot(i2, j as int, t2);
                        k.lemma_row_bounds(i2);
                        assert(upper_row_ok(k.row_ptr@, k.col_idx@, n as int, i2));
                        assert(lists@[i2]@.contains(j));
                    } else {
                        let t2 = choose|t2: int| #[trigger] k.is_slot(j as int, i2, t2);
                        k.lemma_row_bounds(j as int);
                        assert(upper_row_ok(k.row_ptr@, k.col_idx@, n as int, j as int));
                        assert(lists@[i2]@.contains(j));
                    }
                }
            }
        }
        g
    }
}

} // verus!

verus! {

/// `(node, degree)` pairs in (degree, node) order.
pub open spec fn pair_lt(a: (usize, usize), b: (usize, usize)) -> bool {
    a.1 < b.1 || (a.1 == b.1 && a.0 < b.0)
}

impl Graph {
    /// Degree of node `i` (number of off-diagonal neighbours).
    pub fn degree(&self, i: usize) -> (r: usize)
        requires
            self.wf(),
            i < self.n,
        ensures
            r == self.adj(i as int).len(),
    {
        assert(self.adj_ptr@[i as int] <= self.adj_ptr@[i + 1]);
        self.adj_ptr[i + 1] - self.adj_ptr[i]
    }

    /// Neighbours of node `i`, in ascending index order.
    pub fn neighbours(&self, i: usize) -> (r: &[usize])
        requires
            self.wf(),
            i < self.n,
        ensures
            r@ == self.adj(i as int),
    {
        assert(self.adj_ptr@[i as int] <= self.adj_ptr@[i + 1] <= self.adj_ptr@[self.n as int]);
        let start = self.adj_ptr[i];
        let end = self.adj_ptr[i + 1];
        &self.neighbours.as_slice()[start..end]
    }

    /// The pairs `(i, degree(i))` of all nodes, by ascending degree; nodes
    /// of equal degree in ascending index order.
    pub fn nodes_by_degree(&self) -> (r: Vec<(usize, usize)>)
        requires
            self.wf(),
        ensures
            r@.len() == self.n,
            r@.to_multiset() == Seq::new(self.n as nat, |i: int| (i as usize, self.adj(i).len() as usize)).to_multiset(),
            forall|a: int, b: int| 0 <= a < b < r@.len() ==> pair_lt(#[trigger] r@[a], #[trigger] r@[b]),
            forall|k: int| 0 <= k < r@.len() ==> #[trigger] r@[k].0 < self.n && r@[k].1 == self.adj(r@[k].0 as int).len(),
    {
        let n = self.n;
        let ghost init = Seq::new(n as nat, |i: int| (i as usize, self.adj(i).len() as usize));
        let mut v: Vec<(usize, usize)> = Vec::new();
        let mut t: usize = 0;
        while t < n
            invariant
                n == self.n,
                init == Seq::new(n as nat, |q: int| (q as usize, self.adj(q).len() as usize)),
                self.wf(),
                0 <= t <= n,
                v@ == init.take(t as int),
            decreases n - t,
        {
            let d = self.degree(t);
            v.push((t, d));
            proof {
                assert(init[t as int] == (t, d));
                assert(v@ =~= init.take(t + 1));
            }
            t = t + 1;
        }
        proof {
            assert(init.take(n as int) =~= init);
        }
        if n == 0 {
            return v;
        }
        let mut i: usize = 1;
        while i < n
            invariant
                n == self.n,
                init == Seq::new(n as nat, |q: int| (q as usize, self.adj(q).len() as usize)),
                1 <= i <= n,
                v@.len() == n,
                v@.to_multiset() == init.to_multiset(),
                forall|a: int, b: int| 0 <= a < b < i ==> pair_lt(#[trigger] v@[a], #[trigger] v@[b]),
                forall|p: int| 0 <= p < i ==> #[trigger] v@[p].0 < i,
                forall|p: int| i <= p < n ==> #[trigger] v@[p] == init[p],
                forall|p: int| 0 <= p < n ==> #[trigger] v@[p].0 < n && v@[p].1 == self.adj(v@[p].0 as int).len(),
            decreases n - i,
        {
            let mut j: usize = i;
            let ghost x = v@[i as int];
            assert(x == init[i as int]);
            assert(init[i as int].0 == i);
            while j > 0 && v[j - 1].1 > v[j].1
                invariant
                    n == self.n,
                    init == Seq::new(n as nat, |q: int| (q as usize, self.adj(q).len() as usize)),
                init == Seq::new(n as nat, |q: int| (q as usize, self.adj(q).len() as usize)),
                    1 <= i < n,
                    0 <= j <= i,
                    v@.len() == n,
                    v@.to_multiset() == init.to_multiset(),
                    v@[j as int] == x,
                    x.0 == i,
                    forall|a: int, b: int| 0 <= a < b < j ==> pair_lt(#[trigger] v@[a], #[trigger] v@[b]),
                    forall|a: int, b: int| j < a < b <= i ==> pair_lt(#[trigger] v@[a], #[trigger] v@[b]),
                    forall|a: int, b: int| 0 <= a < j && j < b <= i ==> pair_lt(#[trigger] v@[a], #[trigger] v@[b]),
                    forall|b: int| j < b <= i ==> #[trigger] v@[b].1 > x.1,
                    forall|p: int| 0 <= p <= i && p != j ==> #[trigger] v@[p].0 < i,
                    forall|p: int| i < p < n ==> #[trigger] v@[p] == init[p],
                    forall|p: int| 0 <= p < n ==> #[trigger] v@[p].0 < n && v@[p].1 == self.adj(v@[p].0 as int).len(),
                decreases j,
            {
                let a = v[j - 1];
                let b = v[j];
                let ghost before = v@;
                v.set(j - 1, b);
                v.set(j, a);
                proof {
                    crate::rows::lemma_swap_multiset(before, (j - 1) as int, j as int);
                    assert(v@ == before.update(j - 1, before[j as int]).update(j as int, before[j - 1]));
                    assert forall|p: int| 0 <= p <= i && p != j - 1 implies #[trigger] v@[p].0 < i by {
                        if p == j {
                            assert(before[j - 1].0 < i);
                        }
                    }
                }
                j = j - 1;
            }
            proof {
                assert forall|a: int, b: int| 0 <= a < b < i + 1 implies pair_lt(#[trigger] v@[a], #[trigger] v@[b]) by {
                    if b == j && a < j {
                        assert(v@[j - 1].1 <= x.1);
                        assert(v@[j - 1].0 < i);
                        assert(pair_lt(v@[j - 1], x));
                        if a < j - 1 {
                            assert(pair_lt(v@[a], v@[j - 1]));
                        }
                    } else if a == j && b > j {
                        assert(v@[b].1 > x.1);
                    }
                }
            }
            i = i + 1;
        }
        v
    }
}

} // verus!

verus! {

/// Sort `(node, degree)` pairs by degree, then by node (insertion sort).
pub fn sort_by_degree(v: &mut Vec<(usize, usize)>)
    ensures
        final(v)@.len() == old(v)@.len(),
        final(v)@.to_multiset() == old(v)@.to_multiset(),
        forall|a: int, b: int| 0 <= a < b < final(v)@.len() ==> !pair_lt(#[trigger] final(v)@[b], #[trigger] final(v)@[a]),
{
    let n = v.len();
    if n == 0 {
        return ;
    }
    let mut i: usize = 1;
    while i < n
        invariant
            1 <= i <= n,
            n == v@.len(),
            v@.to_multiset() == old(v)@.to_multiset(),
            forall|a: int, b: int| 0 <= a < b < i ==> !pair_lt(#[trigger] v@[b], #[trigger] v@[a]),
        decreases n - i,
    {
        let mut j: usize = i;
        let ghost x = v@[i as int];
        while j > 0 && (v[j].1 < v[j - 1].1 || (v[j].1 == v[j - 1].1 && v[j].0 < v[j - 1].0))
            invariant
                0 <= j <= i < n,
                n == v@.len(),
                v@.to_multiset() == old(v)@.to_multiset(),
                v@[j as int] == x,
                forall|a: int, b: int| 0 <= a < b < j ==> !pair_lt(#[trigger] v@[b], #[trigger] v@[a]),
                forall|a: int, b: int| j < a < b <= i ==> !pair_lt(#[trigger] v@[b], #[trigger] v@[a]),
                forall|a: int, b: int| 0 <= a < j && j < b <= i ==> !pair_lt(#[trigger] v@[b], #[trigger] v@[a]),
                forall|b: int| j < b <= i ==> pair_lt(x, #[trigger] v@[b]),
            decreases j,
        {
            let a = v[j - 1];
            let b = v[j];
            let ghost before = v@;
            v.set(j - 1, b);
            v.set(j, a);
            proof {
                crate::rows::lemma_swap_multiset(before, (j - 1) as int, j as int);
                assert(v@ == before.update(j - 1, before[j as int]).update(j as int, before[j - 1]));
            }
            j = j - 1;
        }
        proof {
            assert forall|a: int, b: int| 0 <= a < b < i + 1 implies !pair_lt(#[trigger] v@[b], #[trigger] v@[a]) by {
                if b == j && a < j {
                    assert(!pair_lt(x, v@[j - 1]));
                    if a < j - 1 {
                        assert(!pair_lt(v@[j - 1], v@[a]));
                    }
                } else if a == j && b > j {
                    assert(pair_lt(x, v@[b]));
                }
            }
        }
        i = i + 1;
    }
}


/// The graph of a symmetric pattern is undirected: `j` is a neighbour of
/// `i` exactly when `i` is a neighbour of `j`.
pub proof fn lemma_graph_symmetric<T>(k: &SymCsrMatrix<T>, g: &Graph)
    requires
        k.wf(),
        g.n == k.n,
        forall|i: int, j: usize| 0 <= i < k.n ==> (#[trigger] g.adj(i).contains(j) <==> edge(k, i, j as int)),
    ensures
        forall|i: usize, j: usize| i < g.n && j < g.n ==> (#[trigger] g.adj(i as int).contains(j) <==> #[trigger] g.adj(
            j as int,
        ).contains(i)),
{
    assert forall|i: usize, j: usize| i < g.n && j < g.n implies (#[trigger] g.adj(i as int).contains(j) <==> #[trigger] g.adj(
        j as int,
    ).contains(i)) by {
        assert(g.adj(i as int).contains(j) <==> edge(k, i as int, j as int));
        assert(g.adj(j as int).contains(i) <==> edge(k, j as int, i as int));
    }
}

} // verus!
