//! Fill-reducing orderings for sparse symmetric factorization.
pub mod permutation;
pub mod graph;
pub mod rcm;
pub mod amd;

use vstd::prelude::*;
use crate::scalar::SparseScalar;
use crate::sym::SymCsrMatrix;
use crate::ordering::permutation::{Permutation, is_perm};
use crate::ordering::graph::{Graph, edge};
use crate::ordering::amd::{amd, min_degree_pick, elimination_state, pattern_adjacency};
use crate::ordering::rcm::{rcm, cm_order};

verus! {

/// Fill-reduction ordering strategy for sparse Cholesky factorization.
#[derive(Debug)]
pub enum Reordering {
    /// Reverse Cuthill–McKee: breadth-first bandwidth reduction.
    Rcm,
    /// Approximate Minimum Degree: greedy fill minimisation.
    Amd,
    /// No reordering: the identity permutation.
    Natural,
    /// A permutation supplied by the caller (`perm[new] = old`).
    Custom(Permutation),
}

impl Clone for Reordering {
    fn clone(&self) -> (r: Self)
        ensures
            r is Rcm <==> self is Rcm,
            r is Amd <==> self is Amd,
            r is Natural <==> self is Natural,
            r is Custom <==> self is Custom,
            self is Custom ==> r->Custom_0@ == self->Custom_0@,
    {
        match self {
            Reordering::Rcm => Reordering::Rcm,
            Reordering::Amd => Reordering::Amd,
            Reordering::Natural => Reordering::Natural,
            Reordering::Custom(p) => Reordering::Custom(p.clone()),
        }
    }
}

impl Default for Reordering {
    /// The default ordering is RCM.
    fn default() -> (r: Self)
        ensures
            r is Rcm,
    {
        Reordering::Rcm
    }
}

/// `g` is the graph of the pattern of `k`.
pub open spec fn graph_of<T>(g: Graph, k: &SymCsrMatrix<T>) -> bool {
    &&& g.wf()
    &&& g.n == k.n
    &&& forall|i: int, j: usize| 0 <= i < k.n ==> (#[trigger] g.adj(i).contains(j) <==> edge(k, i, j as int))
}

/// `p` is the reverse Cuthill–McKee permutation of the graph of `k`: read
/// backwards, it lists the components of the graph in Cuthill–McKee order.
pub open spec fn rcm_permutation<T>(k: &SymCsrMatrix<T>, p: Seq<usize>) -> bool {
    exists|g: Graph, cuts: Seq<int>| graph_of(g, k) && #[trigger] cm_order(&g, p.reverse(), cuts)
}

impl Reordering {
    /// Compute the permutation of this strategy for the matrix `k`.
    pub fn into_permutation<T: SparseScalar>(self, k: &SymCsrMatrix<T>) -> (p: Permutation)
        requires
            k.wf(),
            self is Rcm || self is Amd ==> k.n > 0,
        ensures
            self is Custom ==> p@ == self->Custom_0@,
            !(self is Custom) ==> p@.len() == k.n && is_perm(p@),
            self is Natural ==> p@ == Seq::new(k.n as nat, |i: int| i as usize),
            self is Rcm ==> rcm_permutation(k, p@),
            self is Amd ==> forall|s: int| 0 <= s < k.n ==> #[trigger] min_degree_pick(
                elimination_state(pattern_adjacency(k), p@, s),
                p@.take(s),
                p@[s],
            ),
    {
        match self {
            Reordering::Rcm => {
                let g = Graph::from_sym(k);
                let p = rcm(&g);
                proof {
                    let cuts = choose|cuts: Seq<int>| cm_order(&g, p@.reverse(), cuts);
                    assert(graph_of(g, k) && cm_order(&g, p@.reverse(), cuts));
                }
                p
            },
            Reordering::Amd => amd(k),
            Reordering::Natural => {
                let p = Permutation::identity(k.n);
                proof {
                    assert forall|i: int, j: int| 0 <= i < j < k.n implies #[trigger] p@[i] != #[trigger] p@[j] by {}
                }
                p
            },
            Reordering::Custom(p) => p,
        }
    }
}

} // verus!
