//! Why the search of a planner whose terrain has not changed comes to an
//! end: with a heuristic that is steady along the edges, every round takes
//! a node that was never expanded before, and a node once expanded stays
//! consistent. On a terrain whose nodes all lie below a bound the rounds are
//! therefore no more than the nodes.

use crate::open_queue::key_le;
use crate::planner::DStarLite;
use crate::scores::{g_in, VertexScore};
use crate::terrain::{computes, EdgeTo, Terrain};
use crate::weight::{infinity, plus};
use vstd::prelude::*;

verus! {

/// How many of the nodes below `n` have an infinite `g`.
pub open spec fn not_reached(scores: Map<u64, VertexScore>, n: nat) -> nat
    decreases n,
{
    if n == 0 || n > u64::MAX + 1 {
        0
    } else {
        let rest = not_reached(scores, (n - 1) as nat);
        if g_in(scores, (n - 1) as u64) == infinity() {
            rest + 1
        } else {
            rest
        }
    }
}

/// No more nodes below `n` are not_reached than there are nodes below `n`.
pub proof fn lemma_not_reached_bound(scores: Map<u64, VertexScore>, n: nat)
    ensures
        not_reached(scores, n) <= n,
    decreases n,
{
    if n != 0 && n <= u64::MAX + 1 {
        lemma_not_reached_bound(scores, (n - 1) as nat);
    }
}

/// Where the node `u` gets a finite `g` in place of an infinite one and no
/// other `g` changes, one node fewer is not_reached below a bound above `u`,
/// and as many as before below any other bound.
pub proof fn lemma_not_reached_one(a: Map<u64, VertexScore>, b: Map<u64, VertexScore>, u: u64, n: nat)
    requires
        n <= u64::MAX + 1,
        g_in(a, u) == infinity(),
        g_in(b, u) != infinity(),
        forall|x: u64| x != u ==> g_in(a, x) == #[trigger] g_in(b, x),
    ensures
        u < n ==> not_reached(b, n) + 1 == not_reached(a, n),
        u >= n ==> not_reached(b, n) == not_reached(a, n),
    decreases n,
{
    if n != 0 {
        lemma_not_reached_one(a, b, u, (n - 1) as nat);
    }
}

/// A key that is not above the key of an expanded node `u`, for a node
/// whose heuristic is no more than `c` below that of `u`, has a second
/// part of no more than `c` plus the `g` of `u`.
pub proof fn lemma_closed_not_lowered(gs: u64, hs: u64, gu: u64, hu: u64, km: u64, c: u64)
    requires
        key_le((plus(plus(gs, hs), km), gs), (plus(plus(gu, hu), km), gu)),
        hu <= plus(hs, c),
    ensures
        gs <= plus(c, gu),
{
}

/// The key of a node whose `rhs` comes from an edge of cost `c` into an
/// expanded node `u` is not below the key of `u`, where the heuristic of
/// `u` is no more than `c` above that of the node.
pub proof fn lemma_relaxed_key_above(hs: u64, gu: u64, hu: u64, km: u64, c: u64)
    requires
        hu <= plus(hs, c),
    ensures
        key_le((plus(plus(gu, hu), km), gu), (plus(plus(plus(c, gu), hs), km), plus(c, gu))),
{
}

/// A search from `goal` toward `start` comes to an end on the terrain `m`
/// that the three functions compute: the heuristic is steady from `start`,
/// and the goal and every node at the near end of an edge lie below `bound`.
pub open spec fn search_ends_on<H: Fn(&u64, &u64) -> u64, S: Fn(&u64) -> Vec<EdgeTo>, P: Fn(&u64) -> Vec<EdgeTo>>(
    heuristic: H,
    successors: S,
    predecessors: P,
    m: Terrain,
    bound: nat,
    start: u64,
    goal: u64,
) -> bool {
    &&& computes(heuristic, successors, predecessors, m)
    &&& m.steady_from(start)
    &&& m.bounded(bound)
    &&& goal < bound
    &&& bound <= u64::MAX + 1
}

impl Terrain {
    /// Along the `i`-th edge into `u` the heuristic from `a` grows by no
    /// more than the edge costs.
    pub open spec fn steady_at(self, a: u64, u: u64, i: int) -> bool {
        self.h(a, u) <= plus(self.h(a, self.pred(u)[i].target), self.pred(u)[i].cost)
    }

    /// The heuristic from `a` is steady: along no edge does it grow by more
    /// than the edge costs.
    pub open spec fn steady_from(self, a: u64) -> bool {
        forall|u: u64, i: int| 0 <= i < self.pred(u).len() ==> #[trigger] self.steady_at(a, u, i)
    }

    /// Every node at the near end of an edge lies below `n`.
    pub open spec fn bounded(self, n: nat) -> bool {
        forall|u: u64, i: int| 0 <= i < self.pred(u).len() ==> (#[trigger] self.pred(u)[i]).target < n
    }
}

impl<H, S, P> DStarLite<H, S, P> where
    H: Fn(&u64, &u64) -> u64,
    S: Fn(&u64) -> Vec<EdgeTo>,
    P: Fn(&u64) -> Vec<EdgeTo>,
 {
    /// The key that a node with a finite `g` was expanded under.
    pub open spec fn closed_key(&self, m: Terrain, n: u64) -> (u64, u64) {
        (plus(plus(self.g(n), m.h(self.start_last, n)), self.k_m), self.g(n))
    }

    /// What holds of every node of a planner whose terrain has not changed:
    /// a queued node lies below the bound and is queued under exactly its
    /// key; a node with a finite `g` lies below the bound and is consistent.
    pub open spec fn fresh_at(&self, m: Terrain, bound: nat, n: u64) -> bool {
        &&& self.queued().contains_key(n) ==> n < bound && self.queued()[n] == self.key_over(m, self.start_last, n)
        &&& self.g(n) != infinity() ==> n < bound && self.g(n) == self.rhs(n)
    }

    /// The key of the node `n`, if its `g` is finite, is not above `k`.
    pub open spec fn closed_below(&self, m: Terrain, n: u64, k: (u64, u64)) -> bool {
        self.g(n) != infinity() ==> key_le(self.closed_key(m, n), k)
    }

    /// The queued key of the node `q`, if it is queued, is not below `k`.
    pub open spec fn queued_above(&self, q: u64, k: (u64, u64)) -> bool {
        self.queued().contains_key(q) ==> key_le(k, self.queued()[q])
    }

    /// No node with a finite `g` has a key above the key of a queued node.
    pub open spec fn closed_before_queued(&self, m: Terrain, n: u64, q: u64) -> bool {
        self.g(n) != infinity() && self.queued().contains_key(q) ==> key_le(
            self.closed_key(m, n),
            self.queued()[q],
        )
    }

    /// The planner's terrain has not changed since the planner was made,
    /// and it is a terrain on which the search comes to an end: the
    /// functions compute `m`, whose heuristic is steady from the anchor and
    /// whose nodes lie below `bound`; the agent stands on the anchor; no
    /// `rhs` is above its `g`; every queued node is queued under exactly its
    /// key; every node with a finite `g` is consistent; and no such node has
    /// a key above a queued key.
    pub open spec fn fresh_in(&self, m: Terrain, bound: nat) -> bool {
        &&& self.models(m)
        &&& m.steady_from(self.start_last)
        &&& m.bounded(bound)
        &&& bound <= u64::MAX + 1
        &&& self.start == self.start_last
        &&& self.never_under()
        &&& forall|n: u64| #[trigger] self.fresh_at(m, bound, n)
        &&& forall|n: u64, q: u64| #[trigger] self.closed_before_queued(m, n, q)
    }

    /// The node `u` has just left the queue of a planner for which
    /// `fresh_in` held, under its key, which was the least in the queue.
    pub open spec fn taken_in(&self, m: Terrain, bound: nat, u: u64) -> bool {
        &&& self.models(m)
        &&& m.steady_from(self.start_last)
        &&& m.bounded(bound)
        &&& bound <= u64::MAX + 1
        &&& self.start == self.start_last
        &&& self.never_under()
        &&& u < bound
        &&& self.g(u) == infinity()
        &&& !self.queued().contains_key(u)
        &&& forall|n: u64| #[trigger] self.fresh_at(m, bound, n)
        &&& forall|n: u64| #[trigger] self.closed_below(m, n, self.key_over(m, self.start_last, u))
        &&& forall|q: u64| #[trigger] self.queued_above(q, self.key_over(m, self.start_last, u))
    }

    /// While the edges into the node `u`, which has just been expanded, are
    /// relaxed: what `fresh_in` says of single nodes holds; no node with a
    /// finite `g` has a key above that of `u`; and no queued key is below
    /// the key of `u`.
    pub open spec fn closing_in(&self, m: Terrain, bound: nat, u: u64) -> bool {
        &&& self.models(m)
        &&& m.steady_from(self.start_last)
        &&& m.bounded(bound)
        &&& bound <= u64::MAX + 1
        &&& self.start == self.start_last
        &&& self.never_under()
        &&& u < bound
        &&& self.g(u) != infinity()
        &&& forall|n: u64| #[trigger] self.fresh_at(m, bound, n)
        &&& forall|n: u64| #[trigger] self.closed_below(m, n, self.closed_key(m, u))
        &&& forall|q: u64| #[trigger] self.queued_above(q, self.closed_key(m, u))
    }
}

} // verus!
