//! The estimates that the planner keeps for each node, and the cost of
//! reaching the goal through an edge or through the best of several.

use crate::terrain::EdgeTo;
use crate::weight::{infinity, max_weight, plus};
use vstd::prelude::*;

verus! {

/// The two estimates kept for a node: `g`, the best cost to the goal found so
/// far, and `rhs`, the one-step lookahead over the node's outgoing edges.
#[derive(Clone, Copy, Debug, PartialEq, Eq, Structural)]
pub struct VertexScore {
    pub g: u64,
    pub rhs: u64,
}

impl Default for VertexScore {
    /// The score of a node that was never met: both estimates infinite.
    fn default() -> (s: Self)
        ensures
            s.g == infinity(),
            s.rhs == infinity(),
    {
        VertexScore { g: max_weight(), rhs: max_weight() }
    }
}

/// The `g` estimate that a score table holds for a node; infinite for a node
/// without an entry.
pub open spec fn g_in(scores: Map<u64, VertexScore>, n: u64) -> u64 {
    if scores.contains_key(n) {
        scores[n].g
    } else {
        infinity()
    }
}

/// The `rhs` estimate that a score table holds for a node; infinite for a
/// node without an entry.
pub open spec fn rhs_in(scores: Map<u64, VertexScore>, n: u64) -> u64 {
    if scores.contains_key(n) {
        scores[n].rhs
    } else {
        infinity()
    }
}

/// The smaller of a node's two estimates.
pub open spec fn lower_in(scores: Map<u64, VertexScore>, n: u64) -> u64 {
    if g_in(scores, n) < rhs_in(scores, n) {
        g_in(scores, n)
    } else {
        rhs_in(scores, n)
    }
}

/// The cost of reaching the goal through one edge: the edge's cost plus the
/// `g` estimate of the node it leads to.
pub open spec fn through(scores: Map<u64, VertexScore>, e: EdgeTo) -> u64 {
    plus(e.cost, g_in(scores, e.target))
}

/// The least cost of reaching the goal through one of the given edges;
/// infinite where there is no edge.
pub open spec fn least_through(scores: Map<u64, VertexScore>, edges: Seq<EdgeTo>) -> u64
    decreases edges.len(),
{
    if edges.len() == 0 {
        infinity()
    } else {
        let rest = least_through(scores, edges.drop_last());
        let last = through(scores, edges.last());
        if last < rest {
            last
        } else {
            rest
        }
    }
}

/// The least cost through a set of edges is below the cost through each of
/// them, and, unless it is infinite, it is the cost through one of them.
pub proof fn lemma_least_through(scores: Map<u64, VertexScore>, edges: Seq<EdgeTo>)
    ensures
        forall|i: int| 0 <= i < edges.len() ==> least_through(scores, edges) <= through(scores, #[trigger] edges[i]),
        least_through(scores, edges) == infinity() || exists|i: int|
            0 <= i < edges.len() && least_through(scores, edges) == through(scores, #[trigger] edges[i]),
    decreases edges.len(),
{
    if edges.len() > 0 {
        let front = edges.drop_last();
        lemma_least_through(scores, front);
        assert forall|i: int| 0 <= i < edges.len() implies least_through(scores, edges) <= through(
            scores,
            #[trigger] edges[i],
        ) by {
            if i < front.len() {
                assert(front[i] == edges[i]);
            }
        }
        if least_through(scores, edges) != infinity() {
            if through(scores, edges.last()) < least_through(scores, front) {
                assert(least_through(scores, edges) == through(scores, edges[edges.len() - 1]));
            } else {
                let i = choose|i: int|
                    0 <= i < front.len() && least_through(scores, front) == through(scores, #[trigger] front[i]);
                assert(front[i] == edges[i]);
                assert(least_through(scores, edges) == through(scores, edges[i]));
            }
        }
    }
}

/// A value that is below the cost through each edge, and is infinite or the
/// cost through one of them, is the least cost through the edges.
pub proof fn lemma_least_through_is(scores: Map<u64, VertexScore>, edges: Seq<EdgeTo>, v: u64)
    requires
        forall|i: int| 0 <= i < edges.len() ==> v <= through(scores, #[trigger] edges[i]),
        v == infinity() || exists|i: int| 0 <= i < edges.len() && v == through(scores, #[trigger] edges[i]),
    ensures
        v == least_through(scores, edges),
{
    lemma_least_through(scores, edges);
    if v != infinity() {
        let i = choose|i: int| 0 <= i < edges.len() && v == through(scores, #[trigger] edges[i]);
        assert(least_through(scores, edges) <= through(scores, edges[i]));
    }
    if least_through(scores, edges) != infinity() {
        let i = choose|i: int|
            0 <= i < edges.len() && least_through(scores, edges) == through(scores, #[trigger] edges[i]);
        assert(v <= through(scores, edges[i]));
    }
}

/// The least cost through a set of edges depends on the score table only
/// through the `g` estimates of the nodes that the edges lead to.
pub proof fn lemma_least_through_same_g(a: Map<u64, VertexScore>, b: Map<u64, VertexScore>, edges: Seq<EdgeTo>)
    requires
        forall|i: int| 0 <= i < edges.len() ==> g_in(a, (#[trigger] edges[i]).target) == g_in(b, edges[i].target),
    ensures
        least_through(a, edges) == least_through(b, edges),
    decreases edges.len(),
{
    if edges.len() > 0 {
        let front = edges.drop_last();
        assert forall|i: int| 0 <= i < front.len() implies g_in(a, (#[trigger] front[i]).target) == g_in(
            b,
            front[i].target,
        ) by {
            assert(front[i] == edges[i]);
        }
        lemma_least_through_same_g(a, b, front);
        assert(edges.last() == edges[edges.len() - 1]);
    }
}

/// The place of the first edge among those through which the cost is least;
/// zero where there is no edge.
pub open spec fn first_least(scores: Map<u64, VertexScore>, edges: Seq<EdgeTo>) -> int
    decreases edges.len(),
{
    if edges.len() <= 1 {
        0
    } else {
        let i = first_least(scores, edges.drop_last());
        if through(scores, edges.last()) < through(scores, edges[i]) {
            edges.len() - 1
        } else {
            i
        }
    }
}

/// `first_least` names an edge through which the cost is the least cost, and
/// through every edge before it the cost is higher.
pub proof fn lemma_first_least(scores: Map<u64, VertexScore>, edges: Seq<EdgeTo>)
    requires
        edges.len() > 0,
    ensures
        0 <= first_least(scores, edges) < edges.len(),
        through(scores, edges[first_least(scores, edges)]) == least_through(scores, edges),
        forall|k: int| 0 <= k < first_least(scores, edges) ==> through(scores, #[trigger] edges[k]) > least_through(scores, edges),
    decreases edges.len(),
{
    if edges.len() == 1 {
        assert(edges.drop_last().len() == 0);
        assert(least_through(scores, edges.drop_last()) == infinity());
    } else {
        let front = edges.drop_last();
        lemma_first_least(scores, front);
        let i = first_least(scores, front);
        assert(front[i] == edges[i]);
        assert forall|k: int| 0 <= k < first_least(scores, edges) implies through(scores, #[trigger] edges[k])
            > least_through(scores, edges) by {
            if k < front.len() {
                assert(front[k] == edges[k]);
                lemma_least_through(scores, front);
            }
        }
    }
}

} // verus!
