//! An incremental shortest-path planner (D* Lite, optimized version). It
//! keeps a cost-to-goal estimate for every node it has met, searches from the
//! goal toward a moving start, and repairs its estimates when edge costs
//! change instead of searching again from nothing.
//!
//! Costs are `u64` with `u64::MAX` standing for "no path". The main loop
//! counts its rounds and stops at `u64::MAX` of them, whether or not the
//! search has converged; `needs_work` tells.

use crate::convergence::search_ends_on;
use crate::open_queue::{
    key_le, key_lt, queue_change_priority, queue_entries, queue_get, queue_new, queue_peek_min, queue_push,
    queue_remove,
};
use crate::priority::Priority;
use crate::rounds::{key_in, requeue, searched, Setting};
use crate::scores::{
    first_least, g_in, least_through, lemma_least_through_is, lower_in, rhs_in, through, VertexScore,
};
use crate::terrain::{
    computes, edges_is_function, edges_of, edges_return, heuristic_is_function,
    heuristic_returns, heuristic_value, Edge, EdgeTo, Terrain,
};
use crate::weight::{add_weights, infinity, max_weight, plus};
use priority_queue::DoublePriorityQueue;
use std::collections::HashMap;
use vstd::prelude::*;

verus! {

broadcast use vstd::std_specs::hash::group_hash_axioms;

/// The goal cannot be reached from where the agent stands.
#[derive(Clone, Copy, Debug, PartialEq, Eq, Structural)]
pub struct NoPathError;

impl NoPathError {
    /// The message that goes with the error.
    pub fn message(&self) -> (s: String)
        ensures
            s@ == "No path found"@,
    {
        "No path found".to_string()
    }
}

/// What `try_next` returns on the goal.
pub open spec fn arrived() -> Result<Option<u64>, NoPathError> {
    Ok(None)
}

/// What `try_next` returns when the agent has moved to `n`.
pub open spec fn step_to(n: u64) -> Result<Option<u64>, NoPathError> {
    Ok(Some(n))
}

/// The score table of a fresh planner: the goal with `g` infinite and `rhs`
/// zero, and nothing else.
pub open spec fn seed_scores(goal: u64) -> Map<u64, VertexScore> {
    Map::empty().insert(goal, VertexScore { g: infinity(), rhs: 0 })
}

/// The open queue of a fresh planner: the goal under the key `(h, 0)`.
pub open spec fn seed_queue(goal: u64, h: u64) -> Map<u64, (u64, u64)> {
    Map::empty().insert(goal, (h, 0u64))
}

/// The planner. `heuristic(a, b)` estimates the cost of travelling from `a`
/// to `b`; `successors(n)` lists the edges that leave `n` and
/// `predecessors(n)` the edges that enter it, each with the node at the other
/// end. For the planner's answers to be shortest paths the heuristic must
/// never overestimate and must obey the triangle inequality; this is the
/// caller's duty and is not tested. What the planner's answers are worth
/// under which conditions is stated in the module `optimality`.
///
/// The contracts say exactly what each operation does to scores and queue,
/// over what the three functions return. What the scores are worth is said
/// over a `Terrain`, a mathematical object that the functions compute: for
/// every such terrain the operations keep the scores consistent with it.
pub struct DStarLite<H, S, P> {
    /// Rough estimate of the cost between two nodes. Lower = closer.
    pub heuristic: H,
    /// The edges that leave a node.
    pub successors: S,
    /// The edges that enter a node.
    pub predecessors: P,
    /// Where the agent stands.
    pub start: u64,
    /// Where the agent stood when the key modifier was last brought up to
    /// date.
    pub start_last: u64,
    /// The goal node.
    pub goal: u64,
    /// The open queue.
    pub queue: DoublePriorityQueue<u64, (u64, u64)>,
    /// The key modifier: the heuristic drift accumulated over the agent's
    /// moves.
    pub k_m: u64,
    /// The scores of the nodes met so far.
    pub vertex_scores: HashMap<u64, VertexScore>,
    /// Edge-cost changes that the next replanning absorbs: each edge with the
    /// cost it had, beside the cost it has now.
    pub updated_edge_costs: Vec<(Edge, u64)>,
    /// How many nodes were taken from the open queue so far.
    pub expansions: u64,
}

impl<H, S, P> DStarLite<H, S, P> where
    H: Fn(&u64, &u64) -> u64,
    S: Fn(&u64) -> Vec<EdgeTo>,
    P: Fn(&u64) -> Vec<EdgeTo>,
 {
    /// The score table: every node that was given a score.
    pub open spec fn scores(&self) -> Map<u64, VertexScore> {
        self.vertex_scores@
    }

    /// The open queue: every queued node with its key.
    pub open spec fn queued(&self) -> Map<u64, (u64, u64)> {
        queue_entries(self.queue)
    }

    /// The node's `g` estimate.
    pub open spec fn g(&self, n: u64) -> u64 {
        g_in(self.scores(), n)
    }

    /// The node's `rhs` estimate.
    pub open spec fn rhs(&self, n: u64) -> u64 {
        rhs_in(self.scores(), n)
    }

    /// The heuristic's value.
    pub open spec fn h(&self, a: u64, b: u64) -> u64 {
        heuristic_value(self.heuristic, a, b)
    }

    /// The edges that leave a node.
    pub open spec fn succ(&self, n: u64) -> Seq<EdgeTo> {
        edges_of(self.successors, n)
    }

    /// The edges that enter a node.
    pub open spec fn pred(&self, n: u64) -> Seq<EdgeTo> {
        edges_of(self.predecessors, n)
    }

    /// The one-step lookahead of a node: the least cost through one of its
    /// outgoing edges.
    pub open spec fn lookahead(&self, n: u64) -> u64 {
        least_through(self.scores(), self.succ(n))
    }

    /// The key of a node as seen from where the agent stands: `k2` is the
    /// smaller of the node's estimates and `k1` adds the heuristic from the
    /// agent's node and the key modifier.
    pub open spec fn key_of(&self, n: u64) -> (u64, u64) {
        key_in(self.setting(), self.scores(), n)
    }

    /// What the search goes by.
    pub open spec fn setting(&self) -> Setting<H, S, P> {
        Setting {
            heuristic: self.heuristic,
            successors: self.successors,
            predecessors: self.predecessors,
            start: self.start,
            goal: self.goal,
            k_m: self.k_m,
        }
    }

    /// Scores and queue together.
    pub open spec fn search_state(&self) -> (Map<u64, VertexScore>, Map<u64, (u64, u64)>) {
        (self.scores(), self.queued())
    }

    /// The three terrain functions are functions.
    pub open spec fn oracle_ok(&self) -> bool {
        &&& heuristic_is_function(self.heuristic)
        &&& edges_is_function(self.successors)
        &&& edges_is_function(self.predecessors)
    }

    /// The queue holds the node exactly if its two estimates differ.
    pub open spec fn tracks(&self, n: u64) -> bool {
        self.queued().contains_key(n) <==> self.g(n) != self.rhs(n)
    }

    /// The planner's invariant: the terrain functions are functions, the open
    /// queue holds exactly the inconsistent nodes, and the goal's `rhs` is
    /// zero.
    pub open spec fn wf(&self) -> bool {
        &&& self.oracle_ok()
        &&& forall|n: u64| self.tracks(n)
        &&& self.rhs(self.goal) == 0
    }

    /// The planner's terrain functions compute the terrain `t`.
    pub open spec fn models(&self, t: Terrain) -> bool {
        computes(self.heuristic, self.successors, self.predecessors, t)
    }

    /// Unless the node is the goal, its `rhs` is its one-step lookahead over
    /// the terrain `t`.
    pub open spec fn lookahead_in(&self, t: Terrain, s: u64) -> bool {
        s != self.goal ==> self.rhs(s) == least_through(self.scores(), t.succ(s))
    }

    /// Every node's `rhs` but the goal's is its one-step lookahead over the
    /// terrain `t`.
    pub open spec fn consistent_in(&self, t: Terrain) -> bool {
        forall|s: u64| #[trigger] self.lookahead_in(t, s)
    }

    /// The planner's functions compute the terrain `t`, whose edges agree,
    /// and the scores are consistent with it.
    pub open spec fn coherent_in(&self, t: Terrain) -> bool {
        &&& self.models(t)
        &&& t.agrees()
        &&& self.consistent_in(t)
    }

    /// The key that a node would get as seen from `from`, with the
    /// heuristic of the terrain `t`.
    pub open spec fn key_over(&self, t: Terrain, from: u64, n: u64) -> (u64, u64) {
        let low = lower_in(self.scores(), n);
        (plus(plus(low, t.h(from, n)), self.k_m), low)
    }

    /// No queued key is above the key that the node would get as seen from
    /// the anchor, with the heuristic of the terrain `t`.
    pub open spec fn keys_low_in(&self, t: Terrain) -> bool {
        forall|n: u64| #[trigger] self.queued().contains_key(n) ==> key_le(
            self.queued()[n],
            self.key_over(t, self.start_last, n),
        )
    }

    /// The planner's functions compute the terrain `t`, and no queued key
    /// but that of the node `x` is too high for it.
    pub open spec fn keyed_but(&self, t: Terrain, x: u64) -> bool {
        &&& self.models(t)
        &&& forall|n: u64| n != x && #[trigger] self.queued().contains_key(n) ==> key_le(
            self.queued()[n],
            self.key_over(t, self.start_last, n),
        )
    }

    /// The planner's functions compute the terrain `t` and no queued key is
    /// too high for it.
    pub open spec fn keyed_in(&self, t: Terrain) -> bool {
        self.models(t) && self.keys_low_in(t)
    }

    /// A planner with the same scores, queue, goal and terrain functions
    /// keeps the invariant.
    pub proof fn lemma_wf_kept(&self, next: &Self)
        requires
            self.wf(),
            next.scores() == self.scores(),
            next.queued() == self.queued(),
            next.goal == self.goal,
            next.heuristic == self.heuristic,
            next.successors == self.successors,
            next.predecessors == self.predecessors,
        ensures
            next.wf(),
    {
        assert forall|n: u64| next.tracks(n) by {
            assert(self.tracks(n));
        }
    }

    /// A planner with the same scores, goal and terrain functions is
    /// consistent with the same terrains, and has no node with `rhs` above
    /// `g` if this one has none.
    pub proof fn lemma_scores_kept(&self, next: &Self)
        requires
            next.scores() == self.scores(),
            next.goal == self.goal,
            next.heuristic == self.heuristic,
            next.successors == self.successors,
            next.predecessors == self.predecessors,
        ensures
            self.never_under() ==> next.never_under(),
            forall|m: Terrain|
                #![trigger self.coherent_in(m)]
                #![trigger next.coherent_in(m)]
                self.coherent_in(m) ==> next.coherent_in(m),
    {
        if self.never_under() {
            assert forall|n: u64| #[trigger] next.not_under(n) by {
                assert(self.not_under(n));
            }
        }
        assert forall|m: Terrain| self.coherent_in(m) implies #[trigger] next.coherent_in(m) by {
            assert forall|n: u64| #[trigger] next.lookahead_in(m, n) by {
                assert(self.lookahead_in(m, n));
            }
        }
    }

    /// A planner with the same scores, anchor, key modifier and terrain
    /// functions, whose queue holds nothing that this one's does not hold,
    /// has no key too high for a terrain for which this one has none.
    pub proof fn lemma_keys_kept(&self, next: &Self)
        requires
            next.scores() == self.scores(),
            next.start_last == self.start_last,
            next.k_m == self.k_m,
            next.heuristic == self.heuristic,
            next.successors == self.successors,
            next.predecessors == self.predecessors,
            forall|n: u64| #[trigger]
                next.queued().contains_key(n) ==> self.queued().contains_key(n) && self.queued()[n]
                    == next.queued()[n],
        ensures
            forall|m: Terrain|
                #![trigger self.keyed_in(m)]
                #![trigger next.keyed_in(m)]
                self.keyed_in(m) ==> next.keyed_in(m),
    {
        assert forall|m: Terrain| self.keyed_in(m) implies #[trigger] next.keyed_in(m) by {
            assert forall|n: u64| #[trigger] next.queued().contains_key(n) implies key_le(
                next.queued()[n],
                next.key_over(m, next.start_last, n),
            ) by {
                assert(self.queued().contains_key(n));
            }
        }
    }

    /// A planner that differs from this one in the place of the node `u` in
    /// the queue only, and holds `u` under its present key if at all, has no
    /// key too high for a terrain for which this one has none but that of
    /// `u`.
    pub proof fn lemma_key_brought_in_line(&self, next: &Self, u: u64)
        requires
            self.oracle_ok(),
            self.start == self.start_last,
            next.scores() == self.scores(),
            next.same_setting(self),
            next.queued() == self.queued().remove(u) || (next.queued() == self.queued().insert(u, self.key_of(u))
                && heuristic_returns(self.heuristic, self.start, u)),
        ensures
            forall|m: Terrain|
                #![trigger self.keyed_in(m)]
                #![trigger next.keyed_in(m)]
                self.keyed_in(m) || self.keyed_but(m, u) ==> next.keyed_in(m),
    {
        assert forall|m: Terrain| self.keyed_in(m) || self.keyed_but(m, u) implies #[trigger] next.keyed_in(m) by {
            assert forall|n: u64| #[trigger] next.queued().contains_key(n) implies key_le(
                next.queued()[n],
                next.key_over(m, next.start_last, n),
            ) by {
                if n == u {
                    self.lemma_model_h(m, self.start, n);
                } else {
                    assert(self.queued().contains_key(n));
                }
            }
        }
    }

    /// Where `successors` has returned at a node, its edges there are the
    /// terrain's.
    pub proof fn lemma_model_succ(&self, m: Terrain, n: u64)
        requires
            self.oracle_ok(),
            self.models(m),
            edges_return(self.successors, n),
        ensures
            self.succ(n) == m.succ(n),
    {
        let r = choose|r: Vec<EdgeTo>| self.successors.ensures((&n,), r);
        assert(r@ == self.succ(n));
    }

    /// Where `predecessors` has returned at a node, its edges there are the
    /// terrain's.
    pub proof fn lemma_model_pred(&self, m: Terrain, n: u64)
        requires
            self.oracle_ok(),
            self.models(m),
            edges_return(self.predecessors, n),
        ensures
            self.pred(n) == m.pred(n),
    {
        let r = choose|r: Vec<EdgeTo>| self.predecessors.ensures((&n,), r);
        assert(r@ == self.pred(n));
    }

    /// Where the heuristic has returned for a pair, its value there is the
    /// terrain's.
    pub proof fn lemma_model_h(&self, m: Terrain, a: u64, b: u64)
        requires
            self.oracle_ok(),
            self.models(m),
            heuristic_returns(self.heuristic, a, b),
        ensures
            self.h(a, b) == m.h(a, b),
    {
        let r = choose|r: u64| self.heuristic.ensures((&a, &b), r);
        assert(r == self.h(a, b));
    }

    /// No node's `rhs` is above its `g`. This holds of a planner whose
    /// terrain has not changed since it was made.
    pub open spec fn never_under(&self) -> bool {
        forall|n: u64| #[trigger] self.not_under(n)
    }

    /// The node's `rhs` is not above its `g`.
    pub open spec fn not_under(&self, n: u64) -> bool {
        self.rhs(n) <= self.g(n)
    }

    /// No queued key comes before the key of the agent's node, and that
    /// node's lookahead is not above its `g`: the search has nothing left
    /// to do.
    pub open spec fn converged(&self) -> bool {
        &&& forall|n: u64| #[trigger]
            self.queued().contains_key(n) ==> key_le(self.key_of(self.start), self.queued()[n])
        &&& self.rhs(self.start) <= self.g(self.start)
    }

    /// Everything but the scores, the queue and the expansion count is the
    /// same in both planners.
    pub open spec fn same_setting(&self, other: &Self) -> bool {
        &&& self.heuristic == other.heuristic
        &&& self.successors == other.successors
        &&& self.predecessors == other.predecessors
        &&& self.start == other.start
        &&& self.start_last == other.start_last
        &&& self.goal == other.goal
        &&& self.k_m == other.k_m
        &&& self.updated_edge_costs == other.updated_edge_costs
    }

    /// The scores and the queue are the same in both planners.
    pub open spec fn same_search(&self, other: &Self) -> bool {
        &&& self.scores() == other.scores()
        &&& self.queued() == other.queued()
        &&& self.expansions == other.expansions
    }

    /// The queue after a node's place in it was brought in line with the
    /// given scores.
    pub open spec fn requeued(&self, scores: Map<u64, VertexScore>, node: u64) -> Map<u64, (u64, u64)> {
        requeue(self.setting(), self.queued(), scores, node)
    }

    /// The agent is not on the goal and its node has a finite `rhs`: there
    /// is a way on.
    pub open spec fn has_way(&self) -> bool {
        self.start != self.goal && self.rhs(self.start) != infinity()
    }

    /// Whatever `successors` returns at the node holds an edge.
    pub open spec fn can_step(&self, n: u64) -> bool {
        forall|r: Vec<EdgeTo>| #[trigger] self.successors.ensures((&n,), r) ==> r@.len() > 0
    }

    /// The node that the agent steps to: the far end of the first edge, in
    /// the order in which `successors` lists the edges out of the agent's
    /// node, among those through which the cost to the goal is least.
    pub open spec fn next_step(&self) -> u64 {
        self.chosen_edge(self.start).target
    }

    /// The edge that the agent takes out of a node: the first, in the order
    /// in which `successors` lists them, among those through which the cost
    /// to the goal is least.
    pub open spec fn chosen_edge(&self, n: u64) -> EdgeTo {
        self.succ(n)[first_least(self.scores(), self.succ(n))]
    }

    /// The score of a node; a node that was never scored has both estimates
    /// infinite.
    pub fn score(&self, node: &u64) -> (s: VertexScore)
        ensures
            s.g == self.g(*node),
            s.rhs == self.rhs(*node),
    {
        match self.vertex_scores.get(node) {
            Some(s) => *s,
            None => VertexScore::default(),
        }
    }

    /// Gives a node its score.
    pub(crate) fn set_score(&mut self, node: u64, score: VertexScore)
        ensures
            final(self).scores() == old(self).scores().insert(node, score),
            final(self).queued() == old(self).queued(),
            final(self).expansions == old(self).expansions,
            final(self).same_setting(old(self)),
            forall|n: u64| n != node && old(self).tracks(n) ==> #[trigger] final(self).tracks(n),
            old(self).never_under() && score.rhs <= score.g ==> final(self).never_under(),
            forall|m: Terrain|
                #![trigger old(self).keyed_in(m)]
                #![trigger final(self).keyed_but(m, node)]
                old(self).keyed_in(m) || old(self).keyed_but(m, node) ==> final(self).keyed_but(m, node),
    {
        self.vertex_scores.insert(node, score);
        proof {
            if old(self).never_under() && score.rhs <= score.g {
                assert forall|n: u64| #[trigger] self.not_under(n) by {
                    assert(old(self).not_under(n));
                }
            }
            assert forall|m: Terrain|
                old(self).keyed_in(m) || old(self).keyed_but(m, node) implies #[trigger] self.keyed_but(
                m,
                node,
            ) by {
                assert forall|n: u64| n != node && #[trigger] self.queued().contains_key(n) implies key_le(
                    self.queued()[n],
                    self.key_over(m, self.start_last, n),
                ) by {
                    assert(old(self).queued().contains_key(n));
                }
            }
        }
    }

    /// The priority key of a node, `key_of`: `(min(g, rhs) + h(start, node) +
    /// k_m, min(g, rhs))`, where a sum that reaches infinity stays there.
    pub fn calculate_key(&self, s: &u64) -> (k: Priority)
        requires
            self.oracle_ok(),
        ensures
            k.pair() == self.key_of(*s),
            heuristic_returns(self.heuristic, self.start, *s),
    {
        let s_score = self.score(s);
        let min_score = if s_score.g < s_score.rhs {
            s_score.g
        } else {
            s_score.rhs
        };
        let h = (self.heuristic)(&self.start, s);
        Priority(add_weights(add_weights(min_score, h), self.k_m), min_score)
    }

    /// Brings the node's place in the open queue in line with its score: an
    /// inconsistent node (`g != rhs`) is queued under its current key,
    /// whether it was queued before or not, and a consistent node leaves the
    /// queue. Nothing else changes.
    pub fn update_vertex(&mut self, u: &u64)
        requires
            old(self).oracle_ok(),
        ensures
            final(self).scores() == old(self).scores(),
            final(self).expansions == old(self).expansions,
            final(self).same_setting(old(self)),
            old(self).g(*u) != old(self).rhs(*u) ==> final(self).queued() == old(self).queued().insert(
                *u,
                old(self).key_of(*u),
            ),
            old(self).g(*u) == old(self).rhs(*u) ==> final(self).queued() == old(self).queued().remove(
                *u,
            ),
            old(self).g(*u) != old(self).rhs(*u) ==> heuristic_returns(old(self).heuristic, old(self).start, *u),
            old(self).wf() ==> final(self).wf(),
            final(self).tracks(*u),
            forall|n: u64| n != *u && old(self).tracks(n) ==> #[trigger] final(self).tracks(n),
            old(self).never_under() ==> final(self).never_under(),
            forall|m: Terrain|
                #![trigger old(self).coherent_in(m)]
                #![trigger final(self).coherent_in(m)]
                old(self).coherent_in(m) ==> final(self).coherent_in(m),
            forall|m: Terrain|
                #![trigger old(self).keyed_in(m)]
                #![trigger final(self).keyed_in(m)]
                (old(self).keyed_in(m) || old(self).keyed_but(m, *u)) && old(self).start == old(self).start_last
                    ==> final(self).keyed_in(m),
    {
        let score = self.score(u);
        let queued = queue_get(&self.queue, *u);
        if score.g != score.rhs && queued.is_some() {
            let key = self.calculate_key(u);
            queue_change_priority(&mut self.queue, *u, (key.0, key.1));
        } else if score.g != score.rhs && queued.is_none() {
            let key = self.calculate_key(u);
            queue_push(&mut self.queue, *u, (key.0, key.1));
        } else if score.g == score.rhs && queued.is_some() {
            queue_remove(&mut self.queue, *u);
        } else {
            assert(old(self).queued().remove(*u) =~= old(self).queued());
        }
        proof {
            old(self).lemma_scores_kept(self);
            assert forall|n: u64| n != *u && old(self).tracks(n) implies #[trigger] self.tracks(n) by {}
            if old(self).start == old(self).start_last {
                old(self).lemma_key_brought_in_line(self, *u);
            }
        }
    }

    /// Whether the search has work left: the queue is not empty, and its
    /// least key comes before the key of the agent's node or that node's
    /// lookahead is above its `g`.
    pub fn needs_work(&self) -> (b: bool)
        requires
            self.wf(),
        ensures
            b == !self.converged(),
    {
        match queue_peek_min(&self.queue) {
            None => {
                assert(self.tracks(self.start));
                false
            },
            Some((node, key)) => {
                let start_key = self.calculate_key(&self.start);
                let score = self.score(&self.start);
                let top = Priority(key.0, key.1);
                let b = top.less_than(&start_key) || score.rhs > score.g;
                proof {
                    let sk = self.key_of(self.start);
                    if key_lt(key, sk) {
                        assert(self.queued().contains_key(node));
                        assert(!key_le(sk, self.queued()[node]));
                    } else if !(score.rhs > score.g) {
                        assert forall|n: u64| #[trigger]
                            self.queued().contains_key(n) implies key_le(sk, self.queued()[n]) by {
                            assert(key_le(key, self.queued()[n]));
                        }
                    }
                }
                b
            },
        }
    }

    /// The one-step lookahead of a node, computed from the edges that leave
    /// it.
    pub fn lookahead_of(&self, node: &u64) -> (low: u64)
        requires
            self.oracle_ok(),
        ensures
            low == self.lookahead(*node),
            edges_return(self.successors, *node),
    {
        let edges = (self.successors)(node);
        let mut lowest_score = max_weight();
        let mut i: usize = 0;
        while i < edges.len()
            invariant
                i <= edges.len(),
                edges@ == self.succ(*node),
                lowest_score == least_through(self.scores(), edges@.take(i as int)),
            decreases edges.len() - i,
        {
            let s_prime = edges[i];
            let s_prime_score = add_weights(s_prime.cost, self.score(&s_prime.target).g);
            assert(edges@.take(i + 1).drop_last() == edges@.take(i as int));
            if s_prime_score < lowest_score {
                lowest_score = s_prime_score;
            }
            i += 1;
        }
        assert(edges@.take(i as int) == edges@);
        lowest_score
    }

    /// A planner for the way from `start` to `goal`. The goal is seeded with
    /// `rhs = 0` and queued under the key `(heuristic(start, goal), 0)`, the
    /// key modifier is zero, and the main loop has run: scores and queue are
    /// those at the end of a run of `expansions` rounds from the seed, and
    /// the search has converged, unless that took `u64::MAX` rounds. It has
    /// converged on every terrain whose heuristic is steady from `start`
    /// and whose nodes lie below a bound below `u64::MAX`. Where the agent
    /// already stands on the goal nothing is expanded.
    pub fn new(start: u64, goal: u64, heuristic: H, successors: S, predecessors: P) -> (p: Self)
        requires
            heuristic_is_function(heuristic),
            edges_is_function(successors),
            edges_is_function(predecessors),
        ensures
            p.wf(),
            p.start == start,
            p.start_last == start,
            p.goal == goal,
            p.k_m == 0,
            p.heuristic == heuristic,
            p.successors == successors,
            p.predecessors == predecessors,
            p.updated_edge_costs@.len() == 0,
            p.converged() || p.expansions == u64::MAX,
            p.never_under(),
            forall|m: Terrain| #[trigger] computes(heuristic, successors, predecessors, m) ==> p.keyed_in(m),
            forall|m: Terrain| #[trigger]
                computes(heuristic, successors, predecessors, m) && m.agrees() ==> p.coherent_in(m),
            start == goal ==> p.expansions == 0 && p.scores() == seed_scores(goal) && p.queued() == seed_queue(
                goal,
                heuristic_value(heuristic, start, goal),
            ),
            forall|m: Terrain, bound: nat| #[trigger]
                search_ends_on(heuristic, successors, predecessors, m, bound, start, goal) ==> p.fresh_in(m, bound)
                    && (bound < u64::MAX ==> p.converged()),
            heuristic_returns(heuristic, start, goal),
            searched(
                p.setting(),
                (seed_scores(goal), seed_queue(goal, heuristic_value(heuristic, start, goal))),
                p.expansions as int,
                p.search_state(),
            ),
    {
        let mut queue = queue_new();
        let mut vertex_scores: HashMap<u64, VertexScore> = HashMap::new();
        vertex_scores.insert(goal, VertexScore { g: max_weight(), rhs: 0 });
        let h = heuristic(&start, &goal);
        queue_push(&mut queue, goal, (h, 0));
        let mut s = DStarLite {
            start,
            start_last: start,
            goal,
            heuristic,
            successors,
            predecessors,
            queue,
            k_m: 0,
            vertex_scores,
            updated_edge_costs: Vec::new(),
            expansions: 0,
        };
        proof {
            assert(s.scores() =~= seed_scores(goal));
            assert(s.queued() =~= seed_queue(goal, h));
            assert forall|n: u64| s.tracks(n) by {}
            assert forall|n: u64| #[trigger] s.not_under(n) by {}
            assert forall|m: Terrain| #[trigger] s.models(m) implies s.keyed_in(m) by {}
            assert forall|m: Terrain| #[trigger] s.models(m) && m.agrees() implies s.coherent_in(m) by {
                assert forall|n: u64| #[trigger] s.lookahead_in(m, n) by {
                    lemma_least_through_is(s.scores(), m.succ(n), infinity());
                }
            }
        }
        let ghost seeded = s;
        s.compute_shortest_path();
        proof {
            assert forall|m: Terrain, bound: nat| #[trigger]
                search_ends_on(heuristic, successors, predecessors, m, bound, start, goal) implies s.fresh_in(
                m,
                bound,
            ) && (bound < u64::MAX ==> s.converged()) by {
                assert(seeded.models(m));
                assert forall|n: u64| #[trigger] seeded.fresh_at(m, bound, n) by {}
                assert forall|n: u64, q: u64| #[trigger] seeded.closed_before_queued(m, n, q) by {}
                assert(seeded.fresh_in(m, bound));
            }
            assert forall|m: Terrain| #[trigger] computes(heuristic, successors, predecessors, m) implies s.keyed_in(
                m,
            ) by {
                assert(seeded.models(m));
                assert(seeded.keyed_in(m));
            }
            assert forall|m: Terrain| #[trigger]
                computes(heuristic, successors, predecessors, m) && m.agrees() implies s.coherent_in(m) by {
                assert(seeded.models(m));
                assert(seeded.coherent_in(m));
            }
        }
        s
    }

    /// Advances the agent by one node. On the goal it stays and `Ok(None)` is
    /// returned. Where the `rhs` of the agent's node is infinite there is no
    /// path: the agent stays and the error is returned. Else the agent moves
    /// to `next_step()`, which is returned. Scores and queue do not change.
    ///
    /// At a node that is not the goal and has a finite `rhs`, `successors`
    /// must return an edge.
    pub fn try_next(&mut self) -> (r: Result<Option<u64>, NoPathError>)
        requires
            old(self).oracle_ok(),
            old(self).has_way() ==> old(self).can_step(old(self).start),
        ensures
            final(self).same_search(old(self)),
            old(self).wf() ==> final(self).wf(),
            old(self).never_under() ==> final(self).never_under(),
            forall|m: Terrain|
                #![trigger old(self).keyed_in(m)]
                #![trigger final(self).keyed_in(m)]
                old(self).keyed_in(m) ==> final(self).keyed_in(m),
            forall|m: Terrain|
                #![trigger old(self).coherent_in(m)]
                #![trigger final(self).coherent_in(m)]
                old(self).coherent_in(m) ==> final(self).coherent_in(m),
            old(self).has_way() ==> edges_return(old(self).successors, old(self).start),
            final(self).heuristic == old(self).heuristic,
            final(self).successors == old(self).successors,
            final(self).predecessors == old(self).predecessors,
            final(self).goal == old(self).goal,
            final(self).start_last == old(self).start_last,
            final(self).k_m == old(self).k_m,
            final(self).updated_edge_costs == old(self).updated_edge_costs,
            old(self).start == old(self).goal ==> r == arrived() && final(self).start == old(self).start,
            old(self).start != old(self).goal && old(self).rhs(old(self).start) == infinity() ==> r is Err
                && final(self).start == old(self).start,
            old(self).has_way() ==> r == step_to(old(self).next_step()),
            old(self).has_way() ==> final(self).start == old(self).next_step(),
    {
        if self.start == self.goal {
            return Ok(None);
        }
        let start_score = self.score(&self.start);
        if start_score.rhs == max_weight() {
            return Err(NoPathError);
        }
        let edges = (self.successors)(&self.start);
        let mut best: usize = 0;
        let mut best_score = add_weights(edges[0].cost, self.score(&edges[0].target).g);
        let mut i: usize = 1;
        assert(edges@.take(1).len() == 1);
        while i < edges.len()
            invariant
                1 <= i <= edges.len(),
                best < i,
                best == first_least(self.scores(), edges@.take(i as int)),
                best_score == through(self.scores(), edges@[best as int]),
                self == old(self),
            decreases edges.len() - i,
        {
            let edge = edges[i];
            let edge_score = add_weights(edge.cost, self.score(&edge.target).g);
            proof {
                let now = edges@.take(i + 1);
                assert(now.drop_last() == edges@.take(i as int));
                assert(now.last() == edges@[i as int]);
                assert(now[best as int] == edges@[best as int]);
            }
            if edge_score < best_score {
                best = i;
                best_score = edge_score;
            }
            i += 1;
        }
        assert(edges@.take(i as int) == edges@);
        self.start = edges[best].target;
        proof {
            old(self).lemma_scores_kept(self);
            old(self).lemma_keys_kept(self);
            if old(self).wf() {
                old(self).lemma_wf_kept(self);
            }
        }
        Ok(Some(self.start))
    }
}

} // verus!
