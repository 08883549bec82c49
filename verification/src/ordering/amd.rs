//! Approximate Minimum Degree ordering: greedy elimination of the node of
//! least degree, its neighbours joined into a clique.
use vstd::prelude::*;
use crate::ordering::graph::{Graph, edge};
use crate::ordering::permutation::{Permutation, is_perm};
use crate::rows::{strictly_sorted, sorted_insert, sorted_remove, lemma_distinct_bound, lemma_missing_index};
use crate::scalar::SparseScalar;
use crate::sym::SymCsrMatrix;

verus! {

/// Adjacency sets of the graph of the pattern of `k`.
pub open spec fn pattern_adjacency<T>(k: &SymCsrMatrix<T>) -> Seq<Set<usize>> {
    Seq::new(k.n as nat, |i: int| Set::new(|j: usize| j < k.n && edge(k, i, j as int)))
}

/// Eliminate node `v`: it leaves the sets of its neighbours, which become
/// a clique, and its own set is emptied.
pub open spec fn eliminate(adj: Seq<Set<usize>>, v: usize) -> Seq<Set<usize>> {
    Seq::new(adj.len(), |u: int|
        if u == v {
            Set::empty()
        } else if adj[v as int].contains(u as usize) {
            adj[u].remove(v).union(adj[v as int].remove(u as usize))
        } else {
            adj[u]
        })
}

/// Adjacency sets after eliminating the first `k` nodes of `order`.
pub open spec fn elimination_state(adj0: Seq<Set<usize>>, order: Seq<usize>, k: int) -> Seq<Set<usize>>
    decreases k,
{
    if k <= 0 {
        adj0
    } else {
        eliminate(elimination_state(adj0, order, k - 1), order[k - 1])
    }
}

/// `v` is the node picked next: not yet eliminated, of least degree, and
/// of the largest index among the nodes of least degree.
pub open spec fn min_degree_pick(adj: Seq<Set<usize>>, done: Seq<usize>, v: usize) -> bool {
    &&& v < adj.len()
    &&& !done.contains(v)
    &&& forall|u: usize| u < adj.len() && !done.contains(u) ==> {
        ||| adj[v as int].len() < #[trigger] adj[u as int].len()
        ||| (adj[v as int].len() == adj[u as int].len() && u <= v)
    }
}

/// Sets of `n` nodes with members below `n` and no node in its own set.
pub open spec fn state_ok(st: Seq<Set<usize>>, n: int) -> bool {
    &&& st.len() == n
    &&& forall|u: int, y: usize| 0 <= u < n && #[trigger] st[u].contains(y) ==> y < n && y != u
}

/// Elimination keeps sets within the nodes and free of self loops.
proof fn lemma_eliminate_ok(st: Seq<Set<usize>>, n: int, v: usize)
    requires
        state_ok(st, n),
        v < n,
    ensures
        state_ok(eliminate(st, v), n),
{
    let st2 = eliminate(st, v);
    assert forall|u: int, y: usize| 0 <= u < n && #[trigger] st2[u].contains(y) implies y < n && y != u by {
        if u != v && st[v as int].contains(u as usize) {
            if st[u].contains(y) && y != v {
            } else {
                assert(st[v as int].contains(y));
            }
        }
    }
}

/// The executable lists hold the sets of `st`, strictly increasing.
pub open spec fn lists_hold(adj: Seq<Vec<usize>>, st: Seq<Set<usize>>) -> bool {
    &&& adj.len() == st.len()
    &&& forall|u: int| 0 <= u < adj.len() ==> strictly_sorted(#[trigger] adj[u]@)
    &&& forall|u: int, y: usize| 0 <= u < adj.len() ==> (#[trigger] adj[u]@.contains(y) <==> st[u].contains(y))
}

/// A strictly increasing list and a set with the same members have the
/// same size.
proof fn lemma_list_len(l: Seq<usize>, s: Set<usize>)
    requires
        strictly_sorted(l),
        forall|y: usize| l.contains(y) <==> s.contains(y),
    ensures
        s.finite(),
        s.len() == l.len(),
{
    assert(l.no_duplicates()) by {
        assert forall|a: int, b: int| 0 <= a < l.len() && 0 <= b < l.len() && a != b implies l[a] != l[b] by {
            if a < b {
                assert(l[a] < l[b]);
            } else {
                assert(l[b] < l[a]);
            }
        }
    }
    assert(l.to_set() =~= s);
    l.unique_seq_to_set();
}

/// Approximate Minimum Degree permutation of a symmetric matrix.
///
/// Repeatedly eliminates the node of least degree in the current
/// elimination graph (ties: the largest index), joining its neighbours
/// into a clique.  `p[k]` is the `k`-th node eliminated.
pub fn amd<T: SparseScalar>(k: &SymCsrMatrix<T>) -> (p: Permutation)
    requires
        k.wf(),
        k.n > 0,
    ensures
        p@.len() == k.n,
        is_perm(p@),
        forall|s: int| 0 <= s < k.n ==> #[trigger] min_degree_pick(
            elimination_state(pattern_adjacency(k), p@, s),
            p@.take(s),
            p@[s],
        ),
{
    let n = k.n;
    let ghost adj0 = pattern_adjacency(k);
    let g = Graph::from_sym(k);
    let mut adj: Vec<Vec<usize>> = Vec::new();
    let mut t: usize = 0;
    while t < n
        invariant
            n == k.n,
            g.wf(),
            g.n == n,
            forall|i: int, j: usize| 0 <= i < k.n ==> (#[trigger] g.adj(i).contains(j) <==> edge(k, i, j as int)),
            adj0 == pattern_adjacency(k),
            0 <= t <= n,
            adj@.len() == t,
            forall|u: int| 0 <= u < t ==> strictly_sorted(#[trigger] adj@[u]@),
            forall|u: int, y: usize| 0 <= u < t ==> (#[trigger] adj@[u]@.contains(y) <==> adj0[u].contains(y)),
        decreases n - t,
    {
        let nb = g.neighbours(t);
        let list = crate::rows::copy_indices(nb);
        proof {
            assert(list@ == g.adj(t as int));
            assert forall|y: usize| #[trigger] list@.contains(y) <==> adj0[t as int].contains(y) by {
                if list@.contains(y) {
                    let q = choose|q: int| 0 <= q < list@.len() && list@[q] == y;
                    assert(g.adj(t as int)[q] < n);
                }
            }
        }
        adj.push(list);
        t = t + 1;
    }
    let mut eliminated: Vec<bool> = Vec::new();
    let mut t: usize = 0;
    while t < n
        invariant
            0 <= t <= n,
            eliminated@.len() == t,
            forall|q: int| 0 <= q < t ==> !#[trigger] eliminated@[q],
        decreases n - t,
    {
        eliminated.push(false);
        t = t + 1;
    }
    let mut order: Vec<usize> = Vec::new();
    while order.len() < n
        invariant
            n == k.n,
            adj0 == pattern_adjacency(k),
            adj0.len() == n,
            eliminated@.len() == n,
            order@.no_duplicates(),
            forall|q: int| 0 <= q < order@.len() ==> #[trigger] order@[q] < n,
            forall|v: int| 0 <= v < n ==> (#[trigger] eliminated@[v] <==> order@.contains(v as usize)),
            lists_hold(adj@, elimination_state(adj0, order@, order@.len() as int)),
            state_ok(elimination_state(adj0, order@, order@.len() as int), n as int),
            forall|s: int| 0 <= s < order@.len() ==> #[trigger] min_degree_pick(
                elimination_state(adj0, order@, s),
                order@.take(s),
                order@[s],
            ),
        decreases n - order@.len(),
    {
        let ghost st = elimination_state(adj0, order@, order@.len() as int);
        // pick: least degree, ties to the largest index
        proof {
            lemma_missing_index(order@, n as int);
        }
        let mut v: usize = n;
        let mut best: usize = 0;
        let mut i: usize = 0;
        while i < n
            invariant
                n == k.n,
                eliminated@.len() == n,
                adj@.len() == n,
                lists_hold(adj@, st),
                state_ok(st, n as int),
                forall|w: int| 0 <= w < n ==> (#[trigger] eliminated@[w] <==> order@.contains(w as usize)),
                0 <= i <= n,
                v <= n,
                v == n <==> forall|q: int| 0 <= q < i ==> eliminated@[q],
                v < n ==> v < i && !eliminated@[v as int] && best == adj@[v as int]@.len(),
                v < n ==> forall|u: int| 0 <= u < i && !eliminated@[u] ==> {
                    ||| best < #[trigger] adj@[u]@.len()
                    ||| (best == adj@[u]@.len() && u <= v)
                },
            decreases n - i,
        {
            if !eliminated[i] {
                let d = adj[i].len();
                if v == n || d <= best {
                    v = i;
                    best = d;
                }
            }
            i = i + 1;
        }
        proof {
            let w = choose|w: int| 0 <= w < n && !#[trigger] order@.contains(w as usize);
            assert(!eliminated@[w]);
            assert(v < n);
            assert(min_degree_pick(st, order@, v)) by {
                assert forall|u: usize| u < st.len() && !order@.contains(u) implies {
                    ||| st[v as int].len() < #[trigger] st[u as int].len()
                    ||| (st[v as int].len() == st[u as int].len() && u <= v)
                } by {
                    assert(!eliminated@[u as int]);
                    lemma_list_len(adj@[u as int]@, st[u as int]);
                    lemma_list_len(adj@[v as int]@, st[v as int]);
                }
            }
        }
        let ghost old_order = order@;
        order.push(v);
        eliminated.set(v, true);
        // the neighbours of `v` become a clique; `v` leaves their sets
        let nbrs = adj[v].clone();
        let ghost nb = nbrs@;
        proof {
            assert(nb == adj@[v as int]@);
            assert forall|q: int| 0 <= q < nb.len() implies #[trigger] nb[q] < n && nb[q] != v by {
                assert(adj@[v as int]@.contains(nb[q]));
                assert(st[v as int].contains(nb[q]));
                assert(nb[q] < n && nb[q] != v);
            }
        }
        let ghost after_pick = adj@;
        let mut a: usize = 0;
        while a < nbrs.len()
            invariant
                n == k.n,
                adj@.len() == n,
                nbrs@ == nb,
                v < n,
                forall|q: int| 0 <= q < nb.len() ==> #[trigger] nb[q] < n && nb[q] != v,
                strictly_sorted(nb),
                lists_hold(after_pick, st),
                st.len() == n,
                0 <= a <= nb.len(),
                forall|u: int| 0 <= u < n ==> strictly_sorted(#[trigger] adj@[u]@),
                forall|u: int, y: usize| 0 <= u < n ==> (#[trigger] adj@[u]@.contains(y) <==> (
                    st[u].contains(y) && !(y == v && nb.take(a as int).contains(u as usize)))),
            decreases nb.len() - a,
        {
            let u = nbrs[a];
            let ghost before = adj@;
            sorted_remove(&mut adj[u], v);
            proof {
                assert forall|w: int, y: usize| 0 <= w < n implies (#[trigger] adj@[w]@.contains(y) <==> (
                    st[w].contains(y) && !(y == v && nb.take(a + 1).contains(w as usize)))) by {
                    crate::rows::lemma_push_contains(nb.take(a as int), u, w as usize);
                    assert(nb.take(a + 1) =~= nb.take(a as int).push(u));
                    if w != u {
                        assert(adj@[w] == before[w]);
                    }
                }
            }
            a = a + 1;
        }
        proof {
            assert(nb.take(nb.len() as int) =~= nb);
        }
        let ghost after_remove = adj@;
        let len = nbrs.len();
        let mut i: usize = 0;
        while i < len
            invariant
                n == k.n,
                adj@.len() == n,
                nbrs@ == nb,
                len == nb.len(),
                v < n,
                forall|q: int| 0 <= q < nb.len() ==> #[trigger] nb[q] < n && nb[q] != v,
                strictly_sorted(nb),
                0 <= i <= len,
                forall|u: int| 0 <= u < n ==> strictly_sorted(#[trigger] adj@[u]@),
                forall|u: int, y: usize| 0 <= u < n ==> (#[trigger] adj@[u]@.contains(y) <==> (
                    after_remove[u]@.contains(y) || clique_done(nb, u, y as int, i as int, i + 1))),
                after_remove.len() == n,
            decreases len - i,
        {
            let mut j: usize = i + 1;
            while j < len
                invariant
                    n == k.n,
                    adj@.len() == n,
                    nbrs@ == nb,
                    len == nb.len(),
                    v < n,
                    forall|q: int| 0 <= q < nb.len() ==> #[trigger] nb[q] < n && nb[q] != v,
                    strictly_sorted(nb),
                    0 <= i < len,
                    i + 1 <= j <= len,
                    forall|u: int| 0 <= u < n ==> strictly_sorted(#[trigger] adj@[u]@),
                    forall|u: int, y: usize| 0 <= u < n ==> (#[trigger] adj@[u]@.contains(y) <==> (
                        after_remove[u]@.contains(y) || clique_done(nb, u, y as int, i as int, j as int))),
                    after_remove.len() == n,
                decreases len - j,
            {
                let u = nbrs[i];
                let w = nbrs[j];
                let ghost b0 = adj@;
                sorted_insert(&mut adj[u], w);
                let ghost b1 = adj@;
                sorted_insert(&mut adj[w], u);
                proof {
                    assert(nb[i as int] < nb[j as int]);
                    assert forall|x: int, y: usize| 0 <= x < n implies (#[trigger] adj@[x]@.contains(y) <==> (
                        after_remove[x]@.contains(y) || clique_done(nb, x, y as int, i as int, j + 1))) by {
                        lemma_clique_step(nb, x, y as int, i as int, j as int);
                        if x != u && x != w {
                            assert(adj@[x] == b0[x]);
                        } else if x == u {
                            assert(b1[x]@.contains(y) <==> (b0[x]@.contains(y) || y == w));
                        } else {
                            assert(b1[x] == b0[x]);
                        }
                    }
                }
                j = j + 1;
            }
            proof {
                assert forall|x: int, y: int| #[trigger] clique_done(nb, x, y, i as int, len as int) <==> clique_done(nb, x, y, i + 1, (i + 2) as int) by {
                    lemma_clique_row_end(nb, x, y, i as int, len as int);
                }
            }
            i = i + 1;
        }
        let ghost after_clique = adj@;
        adj.set(v, Vec::new());
        proof {
            let st2 = elimination_state(adj0, order@, order@.len() as int);
            assert(order@.drop_last() =~= old_order);
            assert(order@.take(old_order.len() as int) =~= old_order);
            lemma_state_prefix(adj0, order@, old_order.len() as int);
            assert(elimination_state(adj0, order@, old_order.len() as int) == st);
            assert(st2 == eliminate(st, v));
            lemma_eliminate_ok(st, n as int, v);
            assert(lists_hold(adj@, st2)) by {
                assert forall|u: int, y: usize| 0 <= u < n implies (#[trigger] adj@[u]@.contains(y) <==> st2[u].contains(y)) by {
                    lemma_clique_final(nb, u, y, len as int);
                    if u != v {
                        assert(adj@[u] == after_clique[u]);
                        if st[v as int].contains(u as usize) {
                            assert(nb.contains(u as usize));
                        }
                    }
                }
            }
            // earlier picks are unaffected by the new last element
            assert forall|s: int| 0 <= s < order@.len() implies #[trigger] min_degree_pick(
                elimination_state(adj0, order@, s),
                order@.take(s),
                order@[s],
            ) by {
                lemma_state_prefix(adj0, order@, s);
                if s < old_order.len() {
                    assert(order@.take(s) =~= old_order.take(s));
                    assert(min_degree_pick(elimination_state(adj0, old_order, s), old_order.take(s), old_order[s]));
                }
            }
            assert forall|a2: int, b2: int| 0 <= a2 < b2 < order@.len() implies order@[a2] != order@[b2] by {
                if b2 == order@.len() - 1 {
                    assert(order@.drop_last().contains(order@[a2]));
                }
            }
            assert forall|w: int| 0 <= w < n implies (#[trigger] eliminated@[w] <==> order@.contains(w as usize)) by {
                crate::rows::lemma_push_contains(order@.drop_last(), v, w as usize);
                assert(order@ =~= order@.drop_last().push(v));
            }
        }
    }
    proof {
        lemma_distinct_bound(order@, n as int);
    }
    let ghost ord = order@;
    match Permutation::new(order) {
        Ok(p) => {
            proof {
                assert forall|i: int| 0 <= i < n implies #[trigger] ord[i] < n by {}
            }
            p
        },
        Err(_) => {
            proof {
                assert forall|i: int, j: int| 0 <= i < j < n implies #[trigger] ord[i] != #[trigger] ord[j] by {}
                assert(is_perm(ord));
            }
            Permutation::identity(n)
        },
    }
}

/// Clique pair `(x, y)` has been joined once the position pair of `x` and
/// `y` in `nb` comes before `(i, j)` in row-major order.
pub open spec fn clique_done(nb: Seq<usize>, x: int, y: int, i: int, j: int) -> bool {
    exists|a: int, b: int| {
        &&& 0 <= a < nb.len()
        &&& 0 <= b < nb.len()
        &&& a != b
        &&& #[trigger] nb[a] == x
        &&& #[trigger] nb[b] == y
        &&& ({
            let (lo, hi) = if a < b { (a, b) } else { (b, a) };
            lo < i || (lo == i && hi < j)
        })
    }
}

proof fn lemma_clique_step(nb: Seq<usize>, x: int, y: int, i: int, j: int)
    requires
        strictly_sorted(nb),
        0 <= i < j < nb.len(),
    ensures
        clique_done(nb, x, y, i, j + 1) <==> (clique_done(nb, x, y, i, j)
            || (x == nb[i] && y == nb[j]) || (x == nb[j] && y == nb[i])),
{
    if clique_done(nb, x, y, i, j + 1) && !clique_done(nb, x, y, i, j) {
        let (a, b) = choose|a: int, b: int| {
            &&& 0 <= a < nb.len()
            &&& 0 <= b < nb.len()
            &&& a != b
            &&& #[trigger] nb[a] == x
            &&& #[trigger] nb[b] == y
            &&& ({
                let (lo, hi) = if a < b { (a, b) } else { (b, a) };
                lo < i || (lo == i && hi < j + 1)
            })
        };
    }
    if x == nb[i] && y == nb[j] {
        assert(nb[i] == x && nb[j] == y);
    }
    if x == nb[j] && y == nb[i] {
        assert(nb[j] == x && nb[i] == y);
    }
}

proof fn lemma_clique_row_end(nb: Seq<usize>, x: int, y: int, i: int, len: int)
    requires
        len == nb.len(),
        0 <= i < len,
    ensures
        clique_done(nb, x, y, i, len) <==> clique_done(nb, x, y, i + 1, i + 2),
{
    if clique_done(nb, x, y, i, len) {
        let (a, b) = choose|a: int, b: int| {
            &&& 0 <= a < nb.len()
            &&& 0 <= b < nb.len()
            &&& a != b
            &&& #[trigger] nb[a] == x
            &&& #[trigger] nb[b] == y
            &&& ({
                let (lo, hi) = if a < b { (a, b) } else { (b, a) };
                lo < i || (lo == i && hi < len)
            })
        };
        assert(nb[a] == x && nb[b] == y);
    }
    if clique_done(nb, x, y, i + 1, i + 2) {
        let (a, b) = choose|a: int, b: int| {
            &&& 0 <= a < nb.len()
            &&& 0 <= b < nb.len()
            &&& a != b
            &&& #[trigger] nb[a] == x
            &&& #[trigger] nb[b] == y
            &&& ({
                let (lo, hi) = if a < b { (a, b) } else { (b, a) };
                lo < i + 1 || (lo == i + 1 && hi < i + 2)
            })
        };
        assert(nb[a] == x && nb[b] == y);
    }
}

proof fn lemma_clique_final(nb: Seq<usize>, x: int, y: usize, len: int)
    requires
        len == nb.len(),
        0 <= x <= usize::MAX,
        strictly_sorted(nb),
    ensures
        clique_done(nb, x, y as int, len, len + 1) <==> (nb.contains(x as usize) && nb.contains(y) && x != y),
{
    if nb.contains(x as usize) && nb.contains(y) && x != y {
        let a = choose|a: int| 0 <= a < nb.len() && nb[a] == x as usize;
        let b = choose|b: int| 0 <= b < nb.len() && nb[b] == y;
        assert(nb[a] == x && nb[b] == y);
    }
    if clique_done(nb, x, y as int, len, len + 1) {
        let (a, b) = choose|a: int, b: int| {
            &&& 0 <= a < nb.len()
            &&& 0 <= b < nb.len()
            &&& a != b
            &&& #[trigger] nb[a] == x
            &&& #[trigger] nb[b] == y as int
            &&& ({
                let (lo, hi) = if a < b { (a, b) } else { (b, a) };
                lo < len || (lo == len && hi < len + 1)
            })
        };
        if a < b {
            assert(nb[a] < nb[b]);
        } else {
            assert(nb[b] < nb[a]);
        }
        assert(nb.contains(x as usize));
        assert(nb.contains(y));
    }
}

/// The elimination state after a prefix of `order` only depends on that
/// prefix.
proof fn lemma_state_prefix(adj0: Seq<Set<usize>>, order: Seq<usize>, s: int)
    requires
        0 <= s <= order.len(),
    ensures
        elimination_state(adj0, order.take(s), s) == elimination_state(adj0, order, s),
        s < order.len() ==> elimination_state(adj0, order.drop_last(), s) == elimination_state(adj0, order, s),
    decreases s,
{
    if s > 0 {
        lemma_state_prefix(adj0, order, s - 1);
        lemma_state_prefix(adj0, order.take(s), s - 1);
        assert(order.take(s).take(s - 1) =~= order.take(s - 1));
        if s < order.len() {
            lemma_state_prefix(adj0, order.drop_last(), s - 1);
            assert(order.drop_last().take(s - 1) =~= order.take(s - 1));
        }
    }
}

} // verus!
