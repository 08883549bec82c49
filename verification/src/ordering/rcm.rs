//! Reverse Cuthill–McKee ordering: bandwidth reduction by breadth-first
//! search from pseudo-peripheral nodes, neighbours visited in ascending
//! degree, then reversed.
use vstd::prelude::*;
use crate::ordering::graph::{Graph, pair_lt, sort_by_degree};
use crate::ordering::permutation::{Permutation, is_perm};
use crate::rows::{lemma_multiset_contains, lemma_distinct_bound, lemma_missing_index};

verus! {

/// `p` is a walk from `s` to `t` in `g` through nodes that are not visited.
pub open spec fn free_path(g: &Graph, visited: Seq<bool>, p: Seq<usize>, s: int, t: int) -> bool {
    &&& p.len() >= 1
    &&& p[0] == s
    &&& p.last() == t
    &&& forall|k: int| 0 <= k < p.len() ==> #[trigger] p[k] < g.n && !visited[p[k] as int]
    &&& forall|k: int| 0 <= k < p.len() - 1 ==> g.adj(#[trigger] p[k] as int).contains(p[k + 1])
}

/// `t` can be reached from `s` in `g` through nodes that are not visited.
pub open spec fn reachable(g: &Graph, visited: Seq<bool>, s: int, t: int) -> bool {
    exists|p: Seq<usize>| #[trigger] free_path(g, visited, p, s, t)
}

/// `q` is the first position of `w` that holds a neighbour of `w[t]`.
pub open spec fn first_nbr_at(g: &Graph, w: Seq<usize>, t: int, q: int) -> bool {
    &&& 0 <= q < t
    &&& g.adj(w[q] as int).contains(w[t])
    &&& forall|q2: int| 0 <= q2 < q ==> !g.adj(#[trigger] w[q2] as int).contains(w[t])
}

/// Some position before `t` holds a neighbour of `w[t]`.
pub open spec fn has_first_nbr(g: &Graph, w: Seq<usize>, t: int) -> bool {
    exists|q: int| #[trigger] first_nbr_at(g, w, t, q)
}

/// Order of two nodes with the same first neighbour: by (degree, index)
/// when `by_degree`, by index otherwise.
pub open spec fn tie_before(g: &Graph, x: usize, y: usize, by_degree: bool) -> bool {
    if by_degree {
        pair_lt((x, g.adj(x as int).len() as usize), (y, g.adj(y as int).len() as usize))
    } else {
        x < y
    }
}

/// `w` is in breadth-first order: every node after the first has a
/// neighbour before it, and the nodes come by the position of their first
/// such neighbour, ties broken by `tie_before`.
pub open spec fn bfs_order(g: &Graph, w: Seq<usize>, by_degree: bool) -> bool {
    &&& forall|t: int| 1 <= t < w.len() ==> #[trigger] has_first_nbr(g, w, t)
    &&& forall|a: int, b: int, qa: int, qb: int|
        1 <= a < b < w.len() && #[trigger] first_nbr_at(g, w, a, qa) && #[trigger] first_nbr_at(g, w, b, qb)
            ==> qa < qb || (qa == qb && tie_before(g, w[a], w[b], by_degree))
}

/// `w` lists, in breadth-first order from `start`, every node that `start`
/// reaches through nodes that are not visited.
pub open spec fn bfs_listing(g: &Graph, visited: Seq<bool>, w: Seq<usize>, start: int, by_degree: bool) -> bool {
    &&& w.len() >= 1
    &&& w[0] == start
    &&& w.no_duplicates()
    &&& forall|v: usize| #[trigger] w.contains(v) <==> (v < g.n && reachable(g, visited, start, v as int))
    &&& bfs_order(g, w, by_degree)
}

/// `s` is the node of least (degree, index) among the nodes not visited.
pub open spec fn least_free_node(g: &Graph, visited: Seq<bool>, s: int) -> bool {
    &&& 0 <= s < g.n
    &&& !visited[s]
    &&& forall|i: int| 0 <= i < g.n && !visited[i] ==> !pair_lt(
        (i as usize, g.adj(i).len() as usize),
        (s as usize, g.adj(s).len() as usize),
    )
}

/// The nodes listed in `done`, as a mask over the nodes of `g`.
pub open spec fn done_mask(g: &Graph, done: Seq<usize>) -> Seq<bool> {
    Seq::new(g.n as nat, |i: int| done.contains(i as usize))
}

/// `seg` is the Cuthill–McKee listing of the next component once the nodes
/// of `done` are listed: a plain breadth-first search from the free node of
/// least degree ends at a pseudo-peripheral node, from which `seg` lists
/// the component breadth-first with neighbours by ascending degree.
#[verifier::opaque]
pub open spec fn cm_component(g: &Graph, done: Seq<usize>, seg: Seq<usize>) -> bool {
    exists|seed: int, plain: Seq<usize>|
        #[trigger] least_free_node(g, done_mask(g, done), seed)
        && #[trigger] bfs_listing(g, done_mask(g, done), plain, seed, false)
        && bfs_listing(g, done_mask(g, done), seg, plain[plain.len() - 1] as int, true)
}

/// `cm` is the Cuthill–McKee order of `g`, cut into its components at
/// `cuts`: each component listed by `cm_component` after those before it.
pub open spec fn cm_order(g: &Graph, cm: Seq<usize>, cuts: Seq<int>) -> bool {
    &&& cuts.len() >= 1
    &&& cuts[0] == 0
    &&& cuts[cuts.len() - 1] == cm.len()
    &&& forall|k: int| 0 <= k < cuts.len() - 1 ==> #[trigger] cuts[k] < cuts[k + 1]
    &&& forall|k: int| 0 <= k < cuts.len() - 1 ==> #[trigger] cm_component(g, cm.take(cuts[k]), cm.subrange(cuts[k], cuts[k + 1]))
}

/// A position has at most one first neighbour.
proof fn lemma_first_nbr_unique(g: &Graph, w: Seq<usize>, t: int, q1: int, q2: int)
    requires
        first_nbr_at(g, w, t, q1),
        first_nbr_at(g, w, t, q2),
    ensures
        q1 == q2,
{
    if q1 < q2 {
        assert(!g.adj(w[q1] as int).contains(w[t]));
    } else if q2 < q1 {
        assert(!g.adj(w[q2] as int).contains(w[t]));
    }
}

/// Appending to a sequence leaves the first neighbours of its positions.
proof fn lemma_first_nbr_push(g: &Graph, w: Seq<usize>, x: usize, t: int, q: int)
    requires
        0 <= t < w.len(),
    ensures
        first_nbr_at(g, w.push(x), t, q) == first_nbr_at(g, w, t, q),
{
    let w2 = w.push(x);
    if 0 <= q < t {
        assert(w2[t] == w[t] && w2[q] == w[q]);
        if first_nbr_at(g, w2, t, q) {
            assert forall|q2: int| 0 <= q2 < q implies !g.adj(#[trigger] w[q2] as int).contains(w[t]) by {
                assert(w2[q2] == w[q2]);
                assert(!g.adj(w2[q2] as int).contains(w2[t]));
            }
        }
        if first_nbr_at(g, w, t, q) {
            assert forall|q2: int| 0 <= q2 < q implies !g.adj(#[trigger] w2[q2] as int).contains(w2[t]) by {
                assert(w2[q2] == w[q2]);
                assert(!g.adj(w[q2] as int).contains(w[t]));
            }
        }
    }
}

/// A node that is not visited reaches itself.
proof fn lemma_reach_self(g: &Graph, visited: Seq<bool>, s: usize)
    requires
        s < g.n,
        !visited[s as int],
    ensures
        reachable(g, visited, s as int, s as int),
{
    let p = seq![s];
    assert(free_path(g, visited, p, s as int, s as int));
}

/// A walk can be extended by a free neighbour of its end.
proof fn lemma_reach_step(g: &Graph, visited: Seq<bool>, s: int, u: int, w: usize)
    requires
        reachable(g, visited, s, u),
        g.adj(u).contains(w),
        w < g.n,
        !visited[w as int],
    ensures
        reachable(g, visited, s, w as int),
{
    let p = choose|p: Seq<usize>| #[trigger] free_path(g, visited, p, s, u);
    let p2 = p.push(w);
    assert forall|k: int| 0 <= k < p2.len() - 1 implies g.adj(#[trigger] p2[k] as int).contains(p2[k + 1]) by {
        if k < p.len() - 1 {
            assert(p2[k] == p[k] && p2[k + 1] == p[k + 1]);
        } else {
            assert(p2[k] == p.last());
        }
    }
    assert forall|k: int| 0 <= k < p2.len() implies #[trigger] p2[k] < g.n && !visited[p2[k] as int] by {
        if k < p.len() {
            assert(p2[k] == p[k]);
        }
    }
    assert(free_path(g, visited, p2, s, w as int));
}

/// Every node of a free walk from `s` lies in any node set that contains
/// `s`, lies among the free nodes, and holds every free neighbour of its
/// members.
proof fn lemma_closed_set_holds_reach(g: &Graph, visited: Seq<bool>, set: Seq<usize>, s: int, t: int)
    requires
        reachable(g, visited, s, t),
        set.contains(s as usize),
        forall|u: usize, w: usize| #[trigger] set.contains(u) && g.adj(u as int).contains(w) && w < g.n
            && !visited[w as int] ==> #[trigger] set.contains(w),
    ensures
        set.contains(t as usize),
{
    let p = choose|p: Seq<usize>| #[trigger] free_path(g, visited, p, s, t);
    lemma_path_prefix_in_set(g, visited, set, p, s, t, p.len() - 1);
}

proof fn lemma_path_prefix_in_set(g: &Graph, visited: Seq<bool>, set: Seq<usize>, p: Seq<usize>, s: int, t: int, k: int)
    requires
        free_path(g, visited, p, s, t),
        0 <= k < p.len(),
        set.contains(s as usize),
        forall|u: usize, w: usize| #[trigger] set.contains(u) && g.adj(u as int).contains(w) && w < g.n
            && !visited[w as int] ==> #[trigger] set.contains(w),
    ensures
        set.contains(p[k]),
    decreases k,
{
    if k > 0 {
        lemma_path_prefix_in_set(g, visited, set, p, s, t, k - 1);
        assert(g.adj(p[k - 1] as int).contains(p[k]));
        assert(p[k] < g.n && !visited[p[k] as int]);
    }
}

/// The node that is not visited with the least degree, ties broken by the
/// least index.
pub fn unvisited_min_degree_node(graph: &Graph, visited: &[bool]) -> (r: usize)
    requires
        graph.wf(),
        visited@.len() == graph.n,
        exists|i: int| 0 <= i < graph.n && !visited@[i],
    ensures
        r < graph.n,
        !visited@[r as int],
        forall|i: int| 0 <= i < graph.n && !visited@[i] ==> !pair_lt(
            (i as usize, graph.adj(i).len() as usize),
            (r, graph.adj(r as int).len() as usize),
        ),
{
    let n = graph.n;
    let mut best: usize = n;
    let mut best_deg: usize = 0;
    let mut i: usize = 0;
    while i < n
        invariant
            n == graph.n,
            graph.wf(),
            visited@.len() == n,
            0 <= i <= n,
            best == n || (best < i && !visited@[best as int] && best_deg == graph.adj(best as int).len()),
            best == n <==> forall|q: int| 0 <= q < i ==> visited@[q],
            best < n ==> forall|q: int| 0 <= q < i && !visited@[q] ==> !pair_lt(
                (q as usize, graph.adj(q).len() as usize),
                (best, best_deg),
            ),
        decreases n - i,
    {
        if !visited[i] {
            let d = graph.degree(i);
            if best == n || d < best_deg {
                best = i;
                best_deg = d;
            }
        }
        i = i + 1;
    }
    best
}

/// Breadth-first search from `start` through nodes that are not visited,
/// neighbours taken in index order; the last node taken from the queue
/// approximates a peripheral node.
pub fn find_pseudo_peripheral(graph: &Graph, start: usize, visited: &[bool]) -> (r: usize)
    requires
        graph.wf(),
        visited@.len() == graph.n,
        start < graph.n,
        !visited@[start as int],
    ensures
        r < graph.n,
        reachable(graph, visited@, start as int, r as int),
        exists|w: Seq<usize>| #[trigger] bfs_listing(graph, visited@, w, start as int, false) && r == w[w.len() - 1],
{
    let n = graph.n;
    let mut seen: Vec<bool> = Vec::new();
    let mut t: usize = 0;
    while t < n
        invariant
            0 <= t <= n,
            seen@.len() == t,
            forall|q: int| 0 <= q < t ==> !#[trigger] seen@[q],
        decreases n - t,
    {
        seen.push(false);
        t = t + 1;
    }
    let mut queue: Vec<usize> = Vec::new();
    queue.push(start);
    seen.set(start, true);
    proof {
        lemma_reach_self(graph, visited@, start);
        assert forall|v: int| 0 <= v < n implies (#[trigger] seen@[v] <==> queue@.contains(v as usize)) by {
            if v == start {
                assert(queue@[0] == start);
            }
        }
    }
    let mut last = start;
    let mut head: usize = 0;
    while head < queue.len()
        invariant
            n == graph.n,
            graph.wf(),
            visited@.len() == n,
            seen@.len() == n,
            start < n,
            !visited@[start as int],
            queue@.len() >= 1,
            queue@[0] == start,
            0 <= head <= queue@.len(),
            queue@.len() <= n,
            queue@.no_duplicates(),
            forall|k: int| 0 <= k < queue@.len() ==> #[trigger] queue@[k] < n && !visited@[queue@[k] as int]
                && reachable(graph, visited@, start as int, queue@[k] as int),
            forall|v: int| 0 <= v < n ==> (#[trigger] seen@[v] <==> queue@.contains(v as usize)),
            last == queue@[if head == 0 { 0 } else { head - 1 }],
            forall|k: int, w: usize| 0 <= k < head && #[trigger] graph.adj(queue@[k] as int).contains(w)
                ==> visited@[w as int] || seen@[w as int],
            forall|t: int| 1 <= t < queue@.len() ==> #[trigger] has_first_nbr(graph, queue@, t),
            forall|t: int, q: int| 1 <= t < queue@.len() && #[trigger] first_nbr_at(graph, queue@, t, q) ==> q < head,
            forall|a: int, b: int, qa: int, qb: int|
                1 <= a < b < queue@.len() && #[trigger] first_nbr_at(graph, queue@, a, qa) && #[trigger] first_nbr_at(graph, queue@, b, qb)
                    ==> qa < qb || (qa == qb && tie_before(graph, queue@[a], queue@[b], false)),
        decreases n - head,
    {
        let node = queue[head];
        let ghost c = head as int;
        head = head + 1;
        last = node;
        let nbs = graph.neighbours(node);
        let ghost g0 = queue@.len() as int;
        let mut k: usize = 0;
        while k < nbs.len()
            invariant
                n == graph.n,
                graph.wf(),
                visited@.len() == n,
                seen@.len() == n,
                node < n,
                nbs@ == graph.adj(node as int),
                reachable(graph, visited@, start as int, node as int),
                0 <= k <= nbs@.len(),
                head == c + 1,
                1 <= head <= queue@.len(),
                queue@[c] == node,
                queue@[0] == start,
                1 <= g0 <= queue@.len(),
                queue@.len() <= n,
                queue@.no_duplicates(),
                forall|q: int| 0 <= q < queue@.len() ==> #[trigger] queue@[q] < n && !visited@[queue@[q] as int]
                    && reachable(graph, visited@, start as int, queue@[q] as int),
                forall|v: int| 0 <= v < n ==> (#[trigger] seen@[v] <==> queue@.contains(v as usize)),
                forall|q: int, w: usize| 0 <= q < c && #[trigger] graph.adj(queue@[q] as int).contains(w)
                    ==> visited@[w as int] || seen@[w as int],
                forall|q: int| 0 <= q < k ==> visited@[#[trigger] nbs@[q] as int] || seen@[nbs@[q] as int],
                forall|t: int| g0 <= t < queue@.len() && k < nbs@.len() ==> #[trigger] queue@[t] < nbs@[k as int],
                forall|t: int| 1 <= t < queue@.len() ==> #[trigger] has_first_nbr(graph, queue@, t),
                forall|t: int, q: int| 1 <= t < g0 && #[trigger] first_nbr_at(graph, queue@, t, q) ==> q < c,
                forall|t: int| g0 <= t < queue@.len() ==> #[trigger] first_nbr_at(graph, queue@, t, c),
                forall|a: int, b: int, qa: int, qb: int|
                    1 <= a < b < queue@.len() && #[trigger] first_nbr_at(graph, queue@, a, qa) && #[trigger] first_nbr_at(graph, queue@, b, qb)
                        ==> qa < qb || (qa == qb && tie_before(graph, queue@[a], queue@[b], false)),
            decreases nbs@.len() - k,
        {
            let nb = nbs[k];
            proof {
                assert(graph.adj(node as int)[k as int] < n);
                assert(graph.adj(node as int).contains(nb));
                assert(crate::rows::strictly_sorted(graph.adj(node as int)));
            }
            if !visited[nb] && !seen[nb] {
                let ghost q0 = queue@;
                let ghost s0 = seen@;
                seen.set(nb, true);
                queue.push(nb);
                proof {
                    let m = q0.len() as int;
                    assert(queue@ == q0.push(nb));
                    lemma_reach_step(graph, visited@, start as int, node as int, nb);
                    assert(!q0.contains(nb));
                    assert forall|a: int, b: int| 0 <= a < b < queue@.len() implies queue@[a] != queue@[b] by {
                        if b == q0.len() {
                            assert(q0.contains(queue@[a]));
                        }
                    }
                    assert forall|v: int| 0 <= v < n implies (#[trigger] seen@[v] <==> queue@.contains(v as usize)) by {
                        crate::rows::lemma_push_contains(q0, nb, v as usize);
                    }
                    assert forall|q: int, w: usize| 0 <= q < c && #[trigger] graph.adj(queue@[q] as int).contains(w)
                        implies visited@[w as int] || seen@[w as int] by {
                        assert(queue@[q] == q0[q]);
                    }
                    assert(queue@[c] == node && queue@[m] == nb);
                    assert forall|q2: int| 0 <= q2 < c implies !graph.adj(#[trigger] queue@[q2] as int).contains(queue@[m]) by {
                        assert(queue@[q2] == q0[q2]);
                        if graph.adj(q0[q2] as int).contains(nb) {
                            assert(s0[nb as int]);
                        }
                    }
                    assert(first_nbr_at(graph, queue@, m, c));
                    lemma_distinct_bound(queue@, n as int);
                    assert forall|t: int| 1 <= t < queue@.len() implies #[trigger] has_first_nbr(graph, queue@, t) by {
                        if t < m {
                            assert(has_first_nbr(graph, q0, t));
                            let q = choose|q: int| #[trigger] first_nbr_at(graph, q0, t, q);
                            lemma_first_nbr_push(graph, q0, nb, t, q);
                        }
                    }
                    assert forall|t: int, q: int| 1 <= t < g0 && #[trigger] first_nbr_at(graph, queue@, t, q) implies q < c by {
                        lemma_first_nbr_push(graph, q0, nb, t, q);
                    }
                    assert forall|t: int| g0 <= t < queue@.len() implies #[trigger] first_nbr_at(graph, queue@, t, c) by {
                        if t < m {
                            lemma_first_nbr_push(graph, q0, nb, t, c);
                        }
                    }
                    assert forall|a: int, b: int, qa: int, qb: int|
                        1 <= a < b < queue@.len() && #[trigger] first_nbr_at(graph, queue@, a, qa) && #[trigger] first_nbr_at(graph, queue@, b, qb)
                            implies qa < qb || (qa == qb && tie_before(graph, queue@[a], queue@[b], false)) by {
                        lemma_first_nbr_push(graph, q0, nb, a, qa);
                        if b < m {
                            lemma_first_nbr_push(graph, q0, nb, b, qb);
                        } else {
                            lemma_first_nbr_unique(graph, queue@, b, qb, c);
                            if a >= g0 {
                                lemma_first_nbr_push(graph, q0, nb, a, c);
                                lemma_first_nbr_unique(graph, queue@, a, qa, c);
                                assert(q0[a] < nb);
                            }
                        }
                    }
                }
            }
            proof {
                assert forall|t: int| g0 <= t < queue@.len() && k + 1 < nbs@.len() implies #[trigger] queue@[t] < nbs@[k + 1] by {
                    assert(nbs@[k as int] < nbs@[k + 1]);
                }
            }
            k = k + 1;
        }
        proof {
            lemma_distinct_bound(queue@, n as int);
            assert forall|q: int, w: usize| 0 <= q < head && #[trigger] graph.adj(queue@[q] as int).contains(w)
                implies visited@[w as int] || seen@[w as int] by {
                if q == c {
                    let i = choose|i: int| 0 <= i < nbs@.len() && nbs@[i] == w;
                }
            }
            assert forall|t: int, q: int| 1 <= t < queue@.len() && #[trigger] first_nbr_at(graph, queue@, t, q) implies q < head by {
                if t >= g0 {
                    lemma_first_nbr_unique(graph, queue@, t, q, c);
                }
            }
        }
    }
    proof {
        let w = queue@;
        assert forall|v: usize| #[trigger] w.contains(v) <==> (v < n && reachable(graph, visited@, start as int, v as int)) by {
            if v < n && reachable(graph, visited@, start as int, v as int) {
                assert forall|u: usize, x: usize| #[trigger] w.contains(u) && graph.adj(u as int).contains(x) && x < n
                    && !visited@[x as int] implies #[trigger] w.contains(x) by {
                    let q = choose|q: int| 0 <= q < w.len() && w[q] == u;
                    assert(graph.adj(queue@[q] as int).contains(x));
                    assert(seen@[x as int]);
                }
                lemma_closed_set_holds_reach(graph, visited@, w, start as int, v as int);
            }
            if w.contains(v) {
                let q = choose|q: int| 0 <= q < w.len() && w[q] == v;
                assert(w[q] < n);
            }
        }
        assert(bfs_listing(graph, visited@, w, start as int, false));
    }
    last
}

} // verus!

verus! {

/// Breadth-first search from `start` through nodes not yet visited,
/// enqueueing the free neighbours of each node by ascending (degree,
/// index).  The nodes are appended to `order` in the order they leave the
/// queue and are marked in `visited`.
pub fn bfs_degree_ordered(graph: &Graph, start: usize, visited: &mut Vec<bool>, order: &mut Vec<usize>)
    requires
        graph.wf(),
        old(visited)@.len() == graph.n,
        start < graph.n,
        !old(visited)@[start as int],
    ensures
        final(visited)@.len() == graph.n,
        final(order)@.len() > old(order)@.len(),
        final(order)@.take(old(order)@.len() as int) == old(order)@,
        ({
            let added = final(order)@.skip(old(order)@.len() as int);
            &&& bfs_listing(graph, old(visited)@, added, start as int, true)
            &&& forall|v: int| 0 <= v < graph.n ==> (#[trigger] final(visited)@[v] <==> (old(visited)@[v] || added.contains(v as usize)))
        }),
{
    let n = graph.n;
    let ghost vis0 = visited@;
    let ghost ord0 = order@;
    let mut queue: Vec<usize> = Vec::new();
    visited.set(start, true);
    queue.push(start);
    proof {
        lemma_reach_self(graph, vis0, start);
        assert forall|v: int| 0 <= v < n implies (#[trigger] visited@[v] <==> (vis0[v] || queue@.contains(v as usize))) by {
            if v == start {
                assert(queue@[0] == start);
            }
        }
    }
    let mut head: usize = 0;
    while head < queue.len()
        invariant
            n == graph.n,
            graph.wf(),
            visited@.len() == n,
            vis0.len() == n,
            start < n,
            !vis0[start as int],
            queue@.len() >= 1,
            queue@[0] == start,
            0 <= head <= queue@.len(),
            queue@.len() <= n,
            queue@.no_duplicates(),
            order@ == ord0 + queue@.take(head as int),
            forall|k: int| 0 <= k < queue@.len() ==> #[trigger] queue@[k] < n && !vis0[queue@[k] as int]
                && reachable(graph, vis0, start as int, queue@[k] as int),
            forall|v: int| 0 <= v < n ==> (#[trigger] visited@[v] <==> (vis0[v] || queue@.contains(v as usize))),
            forall|k: int, w: usize| 0 <= k < head && #[trigger] graph.adj(queue@[k] as int).contains(w) ==> visited@[w as int],
            forall|t: int| 1 <= t < queue@.len() ==> #[trigger] has_first_nbr(graph, queue@, t),
            forall|t: int, q: int| 1 <= t < queue@.len() && #[trigger] first_nbr_at(graph, queue@, t, q) ==> q < head,
            forall|a: int, b: int, qa: int, qb: int|
                1 <= a < b < queue@.len() && #[trigger] first_nbr_at(graph, queue@, a, qa) && #[trigger] first_nbr_at(graph, queue@, b, qb)
                    ==> qa < qb || (qa == qb && tie_before(graph, queue@[a], queue@[b], true)),
        decreases n - head,
    {
        let node = queue[head];
        let ghost c = head as int;
        order.push(node);
        proof {
            assert(order@ =~= ord0 + queue@.take(head + 1));
        }
        head = head + 1;
        // free neighbours with their degrees
        let nbs = graph.neighbours(node);
        let mut pairs: Vec<(usize, usize)> = Vec::new();
        let mut k: usize = 0;
        while k < nbs.len()
            invariant
                n == graph.n,
                graph.wf(),
                visited@.len() == n,
                node < n,
                nbs@ == graph.adj(node as int),
                0 <= k <= nbs@.len(),
                forall|q: int| 0 <= q < pairs@.len() ==> #[trigger] pairs@[q].0 < n && graph.adj(node as int).contains(pairs@[q].0)
                    && !visited@[pairs@[q].0 as int] && pairs@[q].1 == graph.adj(pairs@[q].0 as int).len(),
                forall|a: int, b: int| 0 <= a < b < pairs@.len() ==> #[trigger] pairs@[a].0 < #[trigger] pairs@[b].0,
                forall|q: int| 0 <= q < pairs@.len() && k < nbs@.len() ==> #[trigger] pairs@[q].0 < nbs@[k as int],
                forall|q: int| 0 <= q < k ==> visited@[#[trigger] nbs@[q] as int] || exists|p: int| 0 <= p < pairs@.len() && pairs@[p].0 == nbs@[q],
            decreases nbs@.len() - k,
        {
            let nb = nbs[k];
            proof {
                assert(graph.adj(node as int)[k as int] < n);
                assert(graph.adj(node as int).contains(nb));
            }
            let ghost p0 = pairs@;
            if !visited[nb] {
                let d = graph.degree(nb);
                pairs.push((nb, d));
            }
            proof {
                assert(crate::rows::strictly_sorted(graph.adj(node as int)));
                assert forall|q: int| 0 <= q < pairs@.len() && k + 1 < nbs@.len() implies #[trigger] pairs@[q].0 < nbs@[k + 1] by {
                    assert(nbs@[k as int] < nbs@[k + 1]);
                }
                assert forall|q: int| 0 <= q < k + 1 implies visited@[#[trigger] nbs@[q] as int] || exists|p: int| 0 <= p < pairs@.len() && pairs@[p].0 == nbs@[q] by {
                    if !visited@[nbs@[q] as int] {
                        if q < k {
                            let p = choose|p: int| 0 <= p < p0.len() && p0[p].0 == nbs@[q];
                            assert(pairs@[p] == p0[p]);
                        } else {
                            assert(pairs@[pairs@.len() - 1].0 == nb);
                        }
                    }
                }
            }
            k = k + 1;
        }
        let ghost unsorted = pairs@;
        proof {
            assert(unsorted.no_duplicates()) by {
                assert forall|a: int, b: int| 0 <= a < b < unsorted.len() implies unsorted[a] != unsorted[b] by {
                    assert(unsorted[a].0 < unsorted[b].0);
                }
            }
            unsorted.lemma_multiset_has_no_duplicates();
        }
        sort_by_degree(&mut pairs);
        proof {
            assert forall|x: (usize, usize)| pairs@.to_multiset().contains(x) implies pairs@.to_multiset().count(x) == 1 by {}
            pairs@.lemma_multiset_has_no_duplicates_conv();
            assert forall|q: int| 0 <= q < pairs@.len() implies #[trigger] pairs@[q].0 < n && graph.adj(node as int).contains(pairs@[q].0)
                && !visited@[pairs@[q].0 as int] && pairs@[q].1 == graph.adj(pairs@[q].0 as int).len() by {
                lemma_multiset_contains(pairs@, unsorted, pairs@[q]);
                assert(pairs@.contains(pairs@[q]));
                let p = choose|p: int| 0 <= p < unsorted.len() && unsorted[p] == pairs@[q];
            }
            assert forall|a: int, b: int| 0 <= a < b < pairs@.len() implies pair_lt(#[trigger] pairs@[a], #[trigger] pairs@[b]) by {
                assert(!pair_lt(pairs@[b], pairs@[a]));
                assert(pairs@[a] != pairs@[b]);
            }
            assert forall|q: int| 0 <= q < nbs@.len() implies visited@[#[trigger] nbs@[q] as int] || exists|p: int| 0 <= p < pairs@.len() && pairs@[p].0 == nbs@[q] by {
                if !visited@[nbs@[q] as int] {
                    let p = choose|p: int| 0 <= p < unsorted.len() && unsorted[p].0 == nbs@[q];
                    lemma_multiset_contains(pairs@, unsorted, unsorted[p]);
                    assert(unsorted.contains(unsorted[p]));
                    let p2 = choose|p2: int| 0 <= p2 < pairs@.len() && pairs@[p2] == unsorted[p];
                    assert(pairs@[p2].0 == nbs@[q]);
                }
            }
            assert forall|a: int, b: int| 0 <= a < b < pairs@.len() implies #[trigger] pairs@[a].0 != #[trigger] pairs@[b].0 by {
                if pairs@[a].0 == pairs@[b].0 {
                    assert(pairs@[a].1 == pairs@[b].1);
                }
            }
        }
        let ghost g0 = queue@.len() as int;
        let mut k: usize = 0;
        while k < pairs.len()
            invariant
                n == graph.n,
                graph.wf(),
                visited@.len() == n,
                vis0.len() == n,
                node < n,
                nbs@ == graph.adj(node as int),
                reachable(graph, vis0, start as int, node as int),
                0 <= k <= pairs@.len(),
                head == c + 1,
                1 <= head <= queue@.len(),
                queue@[c] == node,
                queue@.len() >= 1,
                queue@[0] == start,
                queue@.no_duplicates(),
                queue@.len() == g0 + k,
                1 <= g0,
                order@ == ord0 + queue@.take(head as int),
                forall|q: int| 0 <= q < pairs@.len() ==> #[trigger] pairs@[q].0 < n && graph.adj(node as int).contains(pairs@[q].0)
                    && pairs@[q].1 == graph.adj(pairs@[q].0 as int).len(),
                forall|a: int, b: int| 0 <= a < b < pairs@.len() ==> pair_lt(#[trigger] pairs@[a], #[trigger] pairs@[b]),
                forall|a: int, b: int| 0 <= a < b < pairs@.len() ==> #[trigger] pairs@[a].0 != #[trigger] pairs@[b].0,
                forall|q: int| 0 <= q < k ==> visited@[#[trigger] pairs@[q].0 as int],
                forall|q: int| k <= q < pairs@.len() ==> !visited@[#[trigger] pairs@[q].0 as int],
                forall|q: int| 0 <= q < k ==> #[trigger] queue@[g0 + q] == pairs@[q].0,
                forall|q: int| 0 <= q < nbs@.len() ==> visited@[#[trigger] nbs@[q] as int] || exists|p: int| 0 <= p < pairs@.len() && pairs@[p].0 == nbs@[q],
                forall|q: int| 0 <= q < queue@.len() ==> #[trigger] queue@[q] < n && !vis0[queue@[q] as int]
                    && reachable(graph, vis0, start as int, queue@[q] as int),
                forall|v: int| 0 <= v < n ==> (#[trigger] visited@[v] <==> (vis0[v] || queue@.contains(v as usize))),
                forall|q: int, w: usize| 0 <= q < c && #[trigger] graph.adj(queue@[q] as int).contains(w) ==> visited@[w as int],
                forall|t: int| 1 <= t < queue@.len() ==> #[trigger] has_first_nbr(graph, queue@, t),
                forall|t: int, q: int| 1 <= t < g0 && #[trigger] first_nbr_at(graph, queue@, t, q) ==> q < c,
                forall|t: int| g0 <= t < queue@.len() ==> #[trigger] first_nbr_at(graph, queue@, t, c),
                forall|a: int, b: int, qa: int, qb: int|
                    1 <= a < b < queue@.len() && #[trigger] first_nbr_at(graph, queue@, a, qa) && #[trigger] first_nbr_at(graph, queue@, b, qb)
                        ==> qa < qb || (qa == qb && tie_before(graph, queue@[a], queue@[b], true)),
            decreases pairs@.len() - k,
        {
            let nb = pairs[k].0;
            let ghost q0 = queue@;
            let ghost v0 = visited@;
            proof {
                assert(!v0[nb as int]);
            }
            visited.set(nb, true);
            queue.push(nb);
            proof {
                let m = q0.len() as int;
                assert(queue@ == q0.push(nb));
                assert(!vis0[nb as int]);
                lemma_reach_step(graph, vis0, start as int, node as int, nb);
                assert(!q0.contains(nb));
                assert forall|a: int, b: int| 0 <= a < b < queue@.len() implies queue@[a] != queue@[b] by {
                    if b == q0.len() {
                        assert(q0.contains(queue@[a]));
                    }
                }
                assert forall|v: int| 0 <= v < n implies (#[trigger] visited@[v] <==> (vis0[v] || queue@.contains(v as usize))) by {
                    crate::rows::lemma_push_contains(q0, nb, v as usize);
                }
                assert(queue@.take(head as int) =~= q0.take(head as int));
                assert forall|q: int, w: usize| 0 <= q < c && #[trigger] graph.adj(queue@[q] as int).contains(w) implies visited@[w as int] by {
                    assert(queue@[q] == q0[q]);
                    assert(v0[w as int]);
                }
                // the new node's first neighbour is the node being expanded
                assert(queue@[c] == node && queue@[m] == nb);
                assert forall|q2: int| 0 <= q2 < c implies !graph.adj(#[trigger] queue@[q2] as int).contains(queue@[m]) by {
                    assert(queue@[q2] == q0[q2]);
                    if graph.adj(q0[q2] as int).contains(nb) {
                        assert(v0[nb as int]);
                    }
                }
                assert(first_nbr_at(graph, queue@, m, c));
                assert forall|t: int| 1 <= t < queue@.len() implies #[trigger] has_first_nbr(graph, queue@, t) by {
                    if t < m {
                        assert(has_first_nbr(graph, q0, t));
                        let q = choose|q: int| #[trigger] first_nbr_at(graph, q0, t, q);
                        lemma_first_nbr_push(graph, q0, nb, t, q);
                    }
                }
                assert forall|t: int, q: int| 1 <= t < g0 && #[trigger] first_nbr_at(graph, queue@, t, q) implies q < c by {
                    lemma_first_nbr_push(graph, q0, nb, t, q);
                }
                assert forall|t: int| g0 <= t < queue@.len() implies #[trigger] first_nbr_at(graph, queue@, t, c) by {
                    if t < m {
                        lemma_first_nbr_push(graph, q0, nb, t, c);
                    }
                }
                assert forall|q: int| 0 <= q < k + 1 implies #[trigger] queue@[g0 + q] == pairs@[q].0 by {
                    if q < k {
                        assert(queue@[g0 + q] == q0[g0 + q]);
                    }
                }
                assert forall|a: int, b: int, qa: int, qb: int|
                    1 <= a < b < queue@.len() && #[trigger] first_nbr_at(graph, queue@, a, qa) && #[trigger] first_nbr_at(graph, queue@, b, qb)
                        implies qa < qb || (qa == qb && tie_before(graph, queue@[a], queue@[b], true)) by {
                    lemma_first_nbr_push(graph, q0, nb, a, qa);
                    if b < m {
                        lemma_first_nbr_push(graph, q0, nb, b, qb);
                    } else {
                        lemma_first_nbr_unique(graph, queue@, b, qb, c);
                        if a >= g0 {
                            lemma_first_nbr_push(graph, q0, nb, a, c);
                            lemma_first_nbr_unique(graph, queue@, a, qa, c);
                            let pa = a - g0;
                            assert(queue@[g0 + pa] == pairs@[pa].0);
                            assert(pair_lt(pairs@[pa], pairs@[k as int]));
                        }
                    }
                }
            }
            k = k + 1;
        }
        proof {
            lemma_distinct_bound(queue@, n as int);
            assert forall|q: int, w: usize| 0 <= q < head && #[trigger] graph.adj(queue@[q] as int).contains(w) implies visited@[w as int] by {
                if q == head - 1 {
                    let i = choose|i: int| 0 <= i < nbs@.len() && nbs@[i] == w;
                    if !visited@[w as int] {
                        let p = choose|p: int| 0 <= p < pairs@.len() && pairs@[p].0 == nbs@[i];
                        assert(visited@[pairs@[p].0 as int]);
                    }
                }
            }
            assert forall|t: int, q: int| 1 <= t < queue@.len() && #[trigger] first_nbr_at(graph, queue@, t, q) implies q < head by {
                if t >= g0 {
                    lemma_first_nbr_unique(graph, queue@, t, q, c);
                }
            }
        }
    }
    proof {
        let added = order@.skip(ord0.len() as int);
        assert(queue@.take(head as int) =~= queue@);
        assert(added =~= queue@);
        assert(order@.take(ord0.len() as int) =~= ord0);
        assert forall|v: usize| #[trigger] added.contains(v) <==> (v < n && reachable(graph, vis0, start as int, v as int)) by {
            if v < n && reachable(graph, vis0, start as int, v as int) {
                assert(queue@[0] == start);
                assert forall|u: usize, w: usize| #[trigger] queue@.contains(u) && graph.adj(u as int).contains(w) && w < n
                    && !vis0[w as int] implies #[trigger] queue@.contains(w) by {
                    let q = choose|q: int| 0 <= q < queue@.len() && queue@[q] == u;
                    assert(graph.adj(queue@[q] as int).contains(w));
                    assert(visited@[w as int]);
                }
                lemma_closed_set_holds_reach(graph, vis0, queue@, start as int, v as int);
            }
            if added.contains(v) {
                let q = choose|q: int| 0 <= q < queue@.len() && queue@[q] == v;
                assert(queue@[q] < n);
            }
        }
    }
}

} // verus!

verus! {

/// The end of a free walk is itself free.
proof fn lemma_reach_end_free(g: &Graph, visited: Seq<bool>, s: int, t: int)
    requires
        reachable(g, visited, s, t),
    ensures
        0 <= t < g.n,
        !visited[t],
{
    let p = choose|p: Seq<usize>| #[trigger] free_path(g, visited, p, s, t);
    assert(p[p.len() - 1] < g.n && !visited[p[p.len() - 1] as int]);
}

/// Reverse Cuthill–McKee permutation of the graph of a symmetric matrix.
///
/// Each connected component is searched from a pseudo-peripheral node
/// found from its node of least degree; the concatenated search order is
/// reversed.  The result is always a valid permutation of the nodes.
pub fn rcm(graph: &Graph) -> (p: Permutation)
    requires
        graph.wf(),
        graph.n > 0,
    ensures
        p@.len() == graph.n,
        is_perm(p@),
        exists|cuts: Seq<int>| cm_order(graph, p@.reverse(), cuts),
{
    let n = graph.n;
    let mut visited: Vec<bool> = Vec::new();
    let mut t: usize = 0;
    while t < n
        invariant
            0 <= t <= n,
            visited@.len() == t,
            forall|q: int| 0 <= q < t ==> !#[trigger] visited@[q],
        decreases n - t,
    {
        visited.push(false);
        t = t + 1;
    }
    let mut cm_list: Vec<usize> = Vec::new();
    let ghost mut cuts: Seq<int> = seq![0int];
    while cm_list.len() < n
        invariant
            n == graph.n,
            graph.wf(),
            visited@.len() == n,
            cm_order(graph, cm_list@, cuts),
            cm_list@.no_duplicates(),
            forall|k: int| 0 <= k < cm_list@.len() ==> #[trigger] cm_list@[k] < n,
            forall|v: int| 0 <= v < n ==> (#[trigger] visited@[v] <==> cm_list@.contains(v as usize)),
        decreases n - cm_list@.len(),
    {
        proof {
            lemma_missing_index(cm_list@, n as int);
            let v = choose|v: int| 0 <= v < n && !#[trigger] cm_list@.contains(v as usize);
            assert(!visited@[v]);
        }
        let seed = unvisited_min_degree_node(graph, &visited);
        let peripheral = find_pseudo_peripheral(graph, seed, &visited);
        proof {
            lemma_reach_end_free(graph, visited@, seed as int, peripheral as int);
        }
        let ghost o0 = cm_list@;
        let ghost v0 = visited@;
        bfs_degree_ordered(graph, peripheral, &mut visited, &mut cm_list);
        proof {
            let added = cm_list@.skip(o0.len() as int);
            assert(cm_list@ =~= o0 + added) by {
                assert(cm_list@.take(o0.len() as int) == o0);
            }
            assert forall|k: int| 0 <= k < added.len() implies #[trigger] added[k] < n && !o0.contains(added[k]) by {
                assert(added.contains(added[k]));
                lemma_reach_end_free(graph, v0, peripheral as int, added[k] as int);
            }
            assert forall|a: int, b: int| 0 <= a < b < cm_list@.len() implies cm_list@[a] != cm_list@[b] by {
                if b >= o0.len() && a < o0.len() {
                    assert(!o0.contains(added[b - o0.len()]));
                    assert(o0[a] == cm_list@[a]);
                } else if a >= o0.len() {
                    assert(added[a - o0.len()] != added[b - o0.len()]);
                }
            }
            assert forall|k: int| 0 <= k < cm_list@.len() implies #[trigger] cm_list@[k] < n by {
                if k >= o0.len() {
                    assert(added[k - o0.len()] < n);
                }
            }
            assert forall|v: int| 0 <= v < n implies (#[trigger] visited@[v] <==> cm_list@.contains(v as usize)) by {
                if cm_list@.contains(v as usize) {
                    let k = choose|k: int| 0 <= k < cm_list@.len() && cm_list@[k] == v as usize;
                    if k < o0.len() {
                        assert(o0.contains(v as usize));
                    } else {
                        assert(added.contains(v as usize));
                    }
                }
                if o0.contains(v as usize) {
                    let k = choose|k: int| 0 <= k < o0.len() && o0[k] == v as usize;
                    assert(cm_list@[k] == v);
                }
                if added.contains(v as usize) {
                    let k = choose|k: int| 0 <= k < added.len() && added[k] == v as usize;
                    assert(cm_list@[k + o0.len()] == v);
                }
            }
            lemma_distinct_bound(cm_list@, n as int);
            // the new segment is the next component
            assert(v0 =~= done_mask(graph, o0)) by {
                assert forall|v: int| 0 <= v < n implies v0[v] == done_mask(graph, o0)[v] by {}
            }
            let plain = choose|w: Seq<usize>| #[trigger] bfs_listing(graph, v0, w, seed as int, false) && peripheral == w[w.len() - 1];
            assert(least_free_node(graph, v0, seed as int));
            assert(bfs_listing(graph, v0, plain, seed as int, false));
            assert(cm_component(graph, o0, added)) by {
                reveal(cm_component);
            }
            lemma_cm_order_push(graph, o0, added, cuts);
            cuts = cuts.push(cm_list@.len() as int);
        }
    }
    proof {
        lemma_distinct_bound(cm_list@, n as int);
    }
    // reverse the Cuthill–McKee order
    let mut rev: Vec<usize> = Vec::new();
    let mut k: usize = n;
    while k > 0
        invariant
            n == cm_list@.len(),
            0 <= k <= n,
            rev@.len() == n - k,
            forall|q: int| 0 <= q < n - k ==> #[trigger] rev@[q] == cm_list@[n - 1 - q],
        decreases k,
    {
        k = k - 1;
        rev.push(cm_list[k]);
    }
    proof {
        assert forall|i: int| 0 <= i < n implies #[trigger] rev@[i] < n by {
            assert(rev@[i] == cm_list@[n - 1 - i]);
        }
        assert forall|i: int, j: int| 0 <= i < j < n implies #[trigger] rev@[i] != #[trigger] rev@[j] by {
            assert(cm_list@[n - 1 - j] != cm_list@[n - 1 - i]);
        }
    }
    proof {
        assert(rev@.reverse() =~= cm_list@) by {
            assert forall|i: int| 0 <= i < n implies rev@.reverse()[i] == cm_list@[i] by {
                assert(rev@[n - 1 - i] == cm_list@[n - 1 - (n - 1 - i)]);
            }
        }
    }
    match Permutation::new(rev) {
        Ok(p) => p,
        Err(_) => {
            proof {
                assert(false);
            }
            Permutation::identity(n)
        },
    }
}

/// Appending the next component keeps a Cuthill–McKee order.
proof fn lemma_cm_order_push(g: &Graph, o0: Seq<usize>, added: Seq<usize>, cuts: Seq<int>)
    requires
        cm_order(g, o0, cuts),
        added.len() >= 1,
        cm_component(g, o0, added),
    ensures
        cm_order(g, o0 + added, cuts.push((o0 + added).len() as int)),
{
    let cm = o0 + added;
    let c2 = cuts.push(cm.len() as int);
    assert forall|k: int| 0 <= k < c2.len() - 1 implies #[trigger] c2[k] < c2[k + 1] by {
        if k < cuts.len() - 1 {
            assert(cuts[k] < cuts[k + 1]);
            assert(c2[k] == cuts[k] && c2[k + 1] == cuts[k + 1]);
        }
    }
    assert forall|k: int| 0 <= k < c2.len() - 1 implies #[trigger] cm_component(g, cm.take(c2[k]), cm.subrange(c2[k], c2[k + 1])) by {
        lemma_component_kept(g, o0, added, cuts, k);
    }
}

/// Component `k` of a Cuthill–McKee order is unchanged by appending the
/// next component.
proof fn lemma_component_kept(g: &Graph, o0: Seq<usize>, added: Seq<usize>, cuts: Seq<int>, k: int)
    requires
        cm_order(g, o0, cuts),
        cm_component(g, o0, added),
        0 <= k < cuts.len(),
    ensures
        ({
            let cm = o0 + added;
            let c2 = cuts.push(cm.len() as int);
            cm_component(g, cm.take(c2[k]), cm.subrange(c2[k], c2[k + 1]))
        }),
{
    let cm = o0 + added;
    let c2 = cuts.push(cm.len() as int);
    if k < cuts.len() - 1 {
        assert(cm_component(g, o0.take(cuts[k]), o0.subrange(cuts[k], cuts[k + 1])));
        lemma_cuts_below(cuts, k);
        lemma_cuts_below(cuts, k + 1);
        assert(c2[k] == cuts[k] && c2[k + 1] == cuts[k + 1]);
        assert(cm.take(c2[k]) =~= o0.take(cuts[k]));
        assert(cm.subrange(c2[k], c2[k + 1]) =~= o0.subrange(cuts[k], cuts[k + 1]));
    } else {
        assert(c2[k] == o0.len() && c2[k + 1] == cm.len());
        assert(cm.take(c2[k]) =~= o0);
        assert(cm.subrange(c2[k], c2[k + 1]) =~= added);
    }
}

/// The cuts of a Cuthill–McKee order increase up to its length.
proof fn lemma_cuts_below(cuts: Seq<int>, k: int)
    requires
        cuts.len() >= 1,
        cuts[0] == 0,
        forall|q: int| 0 <= q < cuts.len() - 1 ==> #[trigger] cuts[q] < cuts[q + 1],
        0 <= k < cuts.len(),
    ensures
        0 <= cuts[k] <= cuts[cuts.len() - 1],
    decreases cuts.len() - k,
{
    if k < cuts.len() - 1 {
        lemma_cuts_below(cuts, k + 1);
        assert(cuts[k] < cuts[k + 1]);
        lemma_cuts_above(cuts, k);
    } else {
        lemma_cuts_above(cuts, k);
    }
}

/// The cuts of a Cuthill–McKee order are not negative.
proof fn lemma_cuts_above(cuts: Seq<int>, k: int)
    requires
        cuts.len() >= 1,
        cuts[0] == 0,
        forall|q: int| 0 <= q < cuts.len() - 1 ==> #[trigger] cuts[q] < cuts[q + 1],
        0 <= k < cuts.len(),
    ensures
        cuts[k] >= 0,
    decreases k,
{
    if k > 0 {
        lemma_cuts_above(cuts, k - 1);
        assert(cuts[k - 1] < cuts[k]);
    }
}

} // verus!
