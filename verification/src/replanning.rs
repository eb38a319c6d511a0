//! Replanning: the planner absorbs the agent's movement and the edge costs
//! that have changed since it last planned, and searches on from what it
//! knows.

use crate::open_queue::key_le;
use crate::planner::DStarLite;
use crate::rounds::{requeue, searched, Setting};
use crate::scores::{
    g_in, least_through, lemma_least_through, lemma_least_through_same_g,
    rhs_in, through, VertexScore,
};
use crate::terrain::{edges_of, edges_return, heuristic_returns, Edge, EdgeTo, Terrain};
use crate::weight::{add_weights, infinity, plus};
use vstd::prelude::*;

verus! {

/// The `k`-th buffered change is about the edge `e` out of `s`: it names
/// `s` as the near end and the far end of `e` as the far end, and its new
/// cost is the cost of `e`.
pub open spec fn records(changes: Seq<(Edge, u64)>, k: int, s: u64, e: EdgeTo) -> bool {
    &&& 0 <= k < changes.len()
    &&& changes[k].0.successor == s
    &&& changes[k].0.predecessor == e.target
    &&& changes[k].1 == e.cost
}

/// The cost that an edge out of `s` had before the buffered changes: the old
/// cost in the change that is about it, or its present cost where none is.
pub open spec fn cost_before(changes: Seq<(Edge, u64)>, s: u64, e: EdgeTo) -> u64 {
    if exists|k: int| records(changes, k, s, e) {
        changes[choose|k: int| records(changes, k, s, e)].0.cost
    } else {
        e.cost
    }
}

/// The edges out of `s` that the buffered changes have taken away: for each
/// change that names `s` as the near end and whose edge `listed` does not
/// hold with the new cost, the edge with the cost it had.
pub open spec fn gone_edges(changes: Seq<(Edge, u64)>, s: u64, listed: Seq<EdgeTo>) -> Seq<EdgeTo>
    decreases changes.len(),
{
    if changes.len() == 0 {
        Seq::empty()
    } else {
        let rest = gone_edges(changes.drop_last(), s, listed);
        let edge = changes.last().0;
        if edge.successor == s && !listed.contains(EdgeTo { target: edge.predecessor, cost: changes.last().1 }) {
            rest.push(EdgeTo { target: edge.predecessor, cost: edge.cost })
        } else {
            rest
        }
    }
}

/// The smaller of two costs.
pub open spec fn lower(a: u64, b: u64) -> u64 {
    if a < b {
        a
    } else {
        b
    }
}

/// A value that is below the cost through each edge and below `extra`, and
/// is infinite, or `extra`, or the cost through one of the edges, is the
/// smaller of `extra` and the least cost through the edges.
pub proof fn lemma_lower_is(scores: Map<u64, VertexScore>, edges: Seq<EdgeTo>, extra: u64, v: u64)
    requires
        forall|i: int| 0 <= i < edges.len() ==> v <= through(scores, #[trigger] edges[i]),
        v <= extra,
        v == infinity() || v == extra || exists|i: int|
            0 <= i < edges.len() && v == through(scores, #[trigger] edges[i]),
    ensures
        v == lower(least_through(scores, edges), extra),
{
    lemma_least_through(scores, edges);
    if v != infinity() && v != extra {
        let i = choose|i: int| 0 <= i < edges.len() && v == through(scores, #[trigger] edges[i]);
        assert(least_through(scores, edges) <= through(scores, edges[i]));
    }
    if least_through(scores, edges) != infinity() {
        let i = choose|i: int|
            0 <= i < edges.len() && least_through(scores, edges) == through(scores, #[trigger] edges[i]);
        assert(v <= through(scores, edges[i]));
    }
}

/// The score table after one edge-cost change was absorbed. The change
/// touches the `rhs` of the edge's `successor` only. Where the cost went
/// down, the `rhs` comes down to the new cost plus the `g` of the edge's
/// `predecessor`, if that is less. Where it did not go down and the `rhs`
/// was exactly the old cost plus that `g`, the `rhs` becomes the node's
/// lookahead over all its outgoing edges, unless the node is the goal.
pub open spec fn absorbed_scores<S: Fn(&u64) -> Vec<EdgeTo>>(
    successors: S,
    goal: u64,
    scores: Map<u64, VertexScore>,
    edge: Edge,
    new_cost: u64,
) -> Map<u64, VertexScore> {
    let s = edge.successor;
    let far = g_in(scores, edge.predecessor);
    if edge.cost > new_cost {
        if plus(new_cost, far) < rhs_in(scores, s) {
            scores.insert(s, VertexScore { g: g_in(scores, s), rhs: plus(new_cost, far) })
        } else {
            scores
        }
    } else if rhs_in(scores, s) == plus(edge.cost, far) && s != goal {
        scores.insert(s, VertexScore { g: g_in(scores, s), rhs: least_through(scores, edges_of(successors, s)) })
    } else {
        scores
    }
}

/// Scores and queue after a list of edge-cost changes was absorbed, the last
/// of the list first.
pub open spec fn absorbed_all<H: Fn(&u64, &u64) -> u64, S: Fn(&u64) -> Vec<EdgeTo>, P>(
    c: Setting<H, S, P>,
    scores: Map<u64, VertexScore>,
    queued: Map<u64, (u64, u64)>,
    changes: Seq<(Edge, u64)>,
) -> (Map<u64, VertexScore>, Map<u64, (u64, u64)>)
    decreases changes.len(),
{
    if changes.len() == 0 {
        (scores, queued)
    } else {
        let edge = changes.last().0;
        let new_cost = changes.last().1;
        let after = absorbed_scores(c.successors, c.goal, scores, edge, new_cost);
        absorbed_all(c, after, requeue(c, queued, after, edge.successor), changes.drop_last())
    }
}

/// While a list of edge-cost changes was absorbed, the terrain functions
/// returned wherever they were called: `successors` at each node whose `rhs`
/// was computed anew, and the heuristic from the agent's node to each node
/// that was queued.
pub open spec fn absorbing_returned<H: Fn(&u64, &u64) -> u64, S: Fn(&u64) -> Vec<EdgeTo>, P>(
    c: Setting<H, S, P>,
    scores: Map<u64, VertexScore>,
    queued: Map<u64, (u64, u64)>,
    changes: Seq<(Edge, u64)>,
) -> bool
    decreases changes.len(),
{
    if changes.len() == 0 {
        true
    } else {
        let edge = changes.last().0;
        let new_cost = changes.last().1;
        let s = edge.successor;
        let after = absorbed_scores(c.successors, c.goal, scores, edge, new_cost);
        &&& edge.cost <= new_cost && rhs_in(scores, s) == plus(edge.cost, g_in(scores, edge.predecessor)) && s
            != c.goal ==> edges_return(c.successors, s)
        &&& g_in(after, s) != rhs_in(after, s) ==> heuristic_returns(c.heuristic, c.start, s)
        &&& absorbing_returned(c, after, requeue(c, queued, after, s), changes.drop_last())
    }
}

impl<H, S, P> DStarLite<H, S, P> where
    H: Fn(&u64, &u64) -> u64,
    S: Fn(&u64) -> Vec<EdgeTo>,
    P: Fn(&u64) -> Vec<EdgeTo>,
 {
    /// The score table after one edge-cost change was absorbed.
    pub open spec fn absorbed(&self, edge: Edge, new_cost: u64) -> Map<u64, VertexScore> {
        absorbed_scores(self.successors, self.goal, self.scores(), edge, new_cost)
    }

    /// Absorbs one edge-cost change: `edge` holds the cost that the edge had
    /// and `new_cost` is the cost that the terrain functions give it now. The
    /// scores become `absorbed(edge, new_cost)` and the place of the edge's
    /// `successor` in the queue is brought in line.
    pub fn absorb_edge_update(&mut self, edge: Edge, new_cost: u64)
        requires
            old(self).oracle_ok(),
        ensures
            final(self).same_setting(old(self)),
            final(self).expansions == old(self).expansions,
            final(self).scores() == old(self).absorbed(edge, new_cost),
            final(self).queued() == old(self).requeued(old(self).absorbed(edge, new_cost), edge.successor),
            final(self).g(edge.successor) != final(self).rhs(edge.successor) ==> heuristic_returns(
                old(self).heuristic,
                old(self).start,
                edge.successor,
            ),
            edge.cost <= new_cost && old(self).rhs(edge.successor) == plus(edge.cost, old(self).g(edge.predecessor))
                && edge.successor != old(self).goal ==> edges_return(old(self).successors, edge.successor),
            old(self).wf() ==> final(self).wf(),
            forall|m: Terrain|
                #![trigger old(self).keyed_in(m)]
                #![trigger final(self).keyed_in(m)]
                old(self).keyed_in(m) && old(self).start == old(self).start_last ==> final(self).keyed_in(m),
    {
        let old_cost = edge.cost;
        let node = edge.successor;
        let score = self.score(&node);
        let far = self.score(&edge.predecessor).g;
        if old_cost > new_cost {
            let lowered = add_weights(new_cost, far);
            if lowered < score.rhs {
                self.set_score(node, VertexScore { g: score.g, rhs: lowered });
            }
        } else if score.rhs == add_weights(old_cost, far) {
            if node != self.goal {
                let low = self.lookahead_of(&node);
                self.set_score(node, VertexScore { g: score.g, rhs: low });
            }
        }
        self.update_vertex(&node);
    }

    /// Scores and queue after all buffered changes were absorbed.
    pub open spec fn absorbed_buffer(&self) -> (Map<u64, VertexScore>, Map<u64, (u64, u64)>) {
        absorbed_all(self.setting(), self.scores(), self.queued(), self.updated_edge_costs@)
    }

    /// While the buffered changes are absorbed the terrain functions return
    /// wherever they are called.
    pub open spec fn absorbing_buffer_returned(&self) -> bool {
        absorbing_returned(self.setting(), self.scores(), self.queued(), self.updated_edge_costs@)
    }

    /// Absorbs the buffered edge-cost changes, last submitted first, each as
    /// `absorb_edge_update` does, and leaves the buffer empty.
    pub fn absorb_updated_edges(&mut self)
        requires
            old(self).oracle_ok(),
        ensures
            final(self).scores() == old(self).absorbed_buffer().0,
            final(self).queued() == old(self).absorbed_buffer().1,
            old(self).absorbing_buffer_returned(),
            final(self).updated_edge_costs@.len() == 0,
            final(self).heuristic == old(self).heuristic,
            final(self).successors == old(self).successors,
            final(self).predecessors == old(self).predecessors,
            final(self).start == old(self).start,
            final(self).goal == old(self).goal,
            final(self).start_last == old(self).start_last,
            final(self).k_m == old(self).k_m,
            final(self).expansions == old(self).expansions,
            old(self).wf() ==> final(self).wf(),
            forall|m: Terrain| #[trigger]
                old(self).keyed_in(m) && old(self).start == old(self).start_last ==> final(self).keyed_in(m),
            forall|m: Terrain| #[trigger] old(self).absorbable_in(m) ==> final(self).coherent_in(m),
    {
        proof {
            assert forall|m: Terrain| #[trigger] old(self).absorbable_in(m) implies self.absorbing(m) by {
                assert forall|n: u64| #[trigger] self.partly_absorbed(m, self.updated_edge_costs@, n) by {
                    assert(old(self).before_holds(m, old(self).updated_edge_costs@, n));
                }
            }
        }
        while self.updated_edge_costs.len() > 0
            invariant
                self.oracle_ok(),
                self.heuristic == old(self).heuristic,
                self.successors == old(self).successors,
                self.predecessors == old(self).predecessors,
                self.start == old(self).start,
                self.goal == old(self).goal,
                self.start_last == old(self).start_last,
                self.k_m == old(self).k_m,
                self.expansions == old(self).expansions,
                self.absorbed_buffer() == old(self).absorbed_buffer(),
                self.absorbing_buffer_returned() == old(self).absorbing_buffer_returned(),
                old(self).wf() ==> self.wf(),
                forall|m: Terrain| #[trigger]
                    old(self).keyed_in(m) && old(self).start == old(self).start_last ==> self.keyed_in(m),
                forall|m: Terrain| #[trigger] old(self).absorbable_in(m) ==> self.absorbing(m),
            decreases self.updated_edge_costs.len(),
        {
            let ghost prev = *self;
            let change = self.updated_edge_costs.pop();
            match change {
                Some((edge, new_cost)) => {
                    proof {
                        if prev.wf() {
                            prev.lemma_wf_kept(self);
                        }
                        prev.lemma_keys_kept(self);
                    }
                    self.absorb_edge_update(edge, new_cost);
                    proof {
                        assert(prev.updated_edge_costs@.last() == (edge, new_cost));
                        assert(self.updated_edge_costs@ == prev.updated_edge_costs@.drop_last());
                        assert forall|m: Terrain| #[trigger] old(self).absorbable_in(m) implies self.absorbing(
                            m,
                        ) by {
                            assert(prev.absorbing(m));
                            prev.lemma_absorb_step(self, m, prev.updated_edge_costs@);
                        }
                    }
                },
                None => {},
            }
        }
        proof {
            assert forall|m: Terrain| #[trigger] old(self).absorbable_in(m) implies self.coherent_in(m) by {
                assert(self.absorbing(m));
                assert forall|n: u64| #[trigger] self.lookahead_in(m, n) by {
                    assert(self.partly_absorbed(m, self.updated_edge_costs@, n));
                    assert(Self::edges_before(m, self.updated_edge_costs@, n) =~= m.succ(n));
                    assert(gone_edges(self.updated_edge_costs@, n, m.succ(n)).len() == 0);
                }
            }
        }
    }

    /// In the terrain `m` the heuristic from the anchor to `n` is not above
    /// the heuristic from the agent's node to the anchor plus that from the
    /// agent's node to `n`.
    pub open spec fn drift_bounded_at(&self, m: Terrain, n: u64) -> bool {
        m.h(self.start_last, n) <= plus(m.h(self.start, self.start_last), m.h(self.start, n))
    }

    /// The triangle inequality of the terrain's heuristic between the
    /// anchor, the agent's node and every other node.
    pub open spec fn drift_bounded(&self, m: Terrain) -> bool {
        forall|n: u64| #[trigger] self.drift_bounded_at(m, n)
    }


    /// What the search goes by once the agent's movement is absorbed: the
    /// key modifier has grown by `heuristic(start, start_last)`.
    pub open spec fn moved_setting(&self) -> Setting<H, S, P> {
        Setting {
            heuristic: self.heuristic,
            successors: self.successors,
            predecessors: self.predecessors,
            start: self.start,
            goal: self.goal,
            k_m: plus(self.k_m, self.h(self.start, self.start_last)),
        }
    }

    /// Scores and queue after the agent's movement and then all buffered
    /// changes were absorbed: the changes are absorbed under the key modifier
    /// grown by `heuristic(start, start_last)`.
    pub open spec fn moved_and_absorbed(&self) -> (Map<u64, VertexScore>, Map<u64, (u64, u64)>) {
        absorbed_all(self.moved_setting(), self.scores(), self.queued(), self.updated_edge_costs@)
    }

    /// While the buffered changes are absorbed after the agent's movement,
    /// the terrain functions return wherever they are called.
    pub open spec fn moved_and_absorbing_returned(&self) -> bool {
        absorbing_returned(self.moved_setting(), self.scores(), self.queued(), self.updated_edge_costs@)
    }

    /// Replans after the terrain has changed. First the agent's movement
    /// since the last replanning is absorbed: the key modifier grows by
    /// `heuristic(start, start_last)` and `start_last` becomes `start`. Then
    /// the buffered edge-cost changes are absorbed as `absorb_updated_edges`
    /// does, last submitted first. Then the main loop runs from there: scores
    /// and queue are those at the end of a run of as many rounds as the
    /// expansion count has grown by, and the search has converged, unless
    /// the count has reached `u64::MAX`.
    pub fn update_from_updated_edges(&mut self)
        requires
            old(self).wf(),
        ensures
            final(self).wf(),
            final(self).heuristic == old(self).heuristic,
            final(self).successors == old(self).successors,
            final(self).predecessors == old(self).predecessors,
            final(self).start == old(self).start,
            final(self).goal == old(self).goal,
            final(self).start_last == old(self).start,
            final(self).k_m == plus(old(self).k_m, old(self).h(old(self).start, old(self).start_last)),
            final(self).updated_edge_costs@.len() == 0,
            final(self).expansions >= old(self).expansions,
            final(self).converged() || final(self).expansions == u64::MAX,
            forall|m: Terrain| #[trigger]
                old(self).keyed_in(m) && old(self).drift_bounded(m) ==> final(self).keyed_in(m),
            forall|m: Terrain| #[trigger] old(self).absorbable_in(m) ==> final(self).coherent_in(m),
            heuristic_returns(old(self).heuristic, old(self).start, old(self).start_last),
            old(self).moved_and_absorbing_returned(),
            searched(
                final(self).setting(),
                old(self).moved_and_absorbed(),
                final(self).expansions - old(self).expansions,
                final(self).search_state(),
            ),
    {
        let drift = (self.heuristic)(&self.start, &self.start_last);
        self.k_m = add_weights(self.k_m, drift);
        self.start_last = self.start;
        proof {
            old(self).lemma_wf_kept(self);
            assert forall|m: Terrain| #[trigger]
                old(self).keyed_in(m) && old(self).drift_bounded(m) implies self.keyed_in(m) by {
                old(self).lemma_model_h(m, old(self).start, old(self).start_last);
                assert forall|n: u64| #[trigger] self.queued().contains_key(n) implies key_le(
                    self.queued()[n],
                    self.key_over(m, self.start_last, n),
                ) by {
                    assert(old(self).queued().contains_key(n));
                    assert(old(self).drift_bounded_at(m, n));
                }
            }
            assert forall|m: Terrain| #[trigger] old(self).absorbable_in(m) implies self.absorbable_in(m) by {
                assert forall|n: u64| #[trigger] self.before_holds(m, self.updated_edge_costs@, n) by {
                    assert(old(self).before_holds(m, old(self).updated_edge_costs@, n));
                }
            }
        }
        self.absorb_updated_edges();
        self.compute_shortest_path();
    }

    /// The edges that the terrain lists out of a node, with the costs that
    /// they had before the given changes.
    pub open spec fn edges_before(m: Terrain, changes: Seq<(Edge, u64)>, s: u64) -> Seq<EdgeTo> {
        Seq::new(
            m.succ(s).len(),
            |j: int| EdgeTo { target: m.succ(s)[j].target, cost: cost_before(changes, s, m.succ(s)[j]) },
        )
    }

    /// The one-step lookahead of a node over the terrain as it was before
    /// the given changes: over the edges that are listed, with the costs
    /// that they had, and over the edges that the changes have taken away.
    pub open spec fn lookahead_before(&self, m: Terrain, changes: Seq<(Edge, u64)>, s: u64) -> u64 {
        lower(
            least_through(self.scores(), Self::edges_before(m, changes, s)),
            least_through(self.scores(), gone_edges(changes, s, m.succ(s))),
        )
    }

    /// The terrain lists the edge of the `k`-th change with its new cost no
    /// more than once, and lists it unless the new cost is infinite.
    pub open spec fn lists_change(m: Terrain, changes: Seq<(Edge, u64)>, k: int) -> bool {
        let r = m.succ(changes[k].0.successor);
        let twin = EdgeTo { target: changes[k].0.predecessor, cost: changes[k].1 };
        &&& r.contains(twin) || changes[k].1 == infinity()
        &&& forall|j1: int, j2: int|
            0 <= j1 < r.len() && 0 <= j2 < r.len() && #[trigger] r[j1] == twin && #[trigger] r[j2] == twin ==> j1
                == j2
    }

    /// The `k1`-th and the `k2`-th change do not name the same two ends with
    /// the same new cost.
    pub open spec fn apart(changes: Seq<(Edge, u64)>, k1: int, k2: int) -> bool {
        !(changes[k1].0.successor == changes[k2].0.successor && changes[k1].0.predecessor
            == changes[k2].0.predecessor && changes[k1].1 == changes[k2].1)
    }

    /// The changes fit the terrain. No two of them name the same two ends
    /// with the same new cost. Each is about an edge that the terrain lists,
    /// once, with the change's new cost, or about an edge that is no longer
    /// listed, and then its new cost is infinite. Two edges between the same
    /// nodes are told apart by their costs.
    pub open spec fn changes_fit(m: Terrain, changes: Seq<(Edge, u64)>) -> bool {
        &&& forall|k1: int, k2: int|
            0 <= k1 < changes.len() && 0 <= k2 < changes.len() && k1 != k2 ==> #[trigger] Self::apart(
                changes,
                k1,
                k2,
            )
        &&& forall|k: int| 0 <= k < changes.len() ==> #[trigger] Self::lists_change(m, changes, k)
    }

    /// Unless the node is the goal, its `rhs` is its one-step lookahead over
    /// the terrain as it was before the given changes.
    pub open spec fn before_holds(&self, m: Terrain, changes: Seq<(Edge, u64)>, s: u64) -> bool {
        s != self.goal ==> self.rhs(s) == self.lookahead_before(m, changes, s)
    }

    /// Every node's `rhs` but the goal's is its one-step lookahead over the
    /// terrain as it was before the buffered changes.
    pub open spec fn consistent_before(&self, m: Terrain) -> bool {
        forall|s: u64| #[trigger] self.before_holds(m, self.updated_edge_costs@, s)
    }

    /// The buffered changes can be absorbed: the planner's functions compute
    /// the terrain `m`, whose edges agree; the changes fit it; and the scores
    /// were consistent with the terrain as it was before the changes.
    pub open spec fn absorbable_in(&self, m: Terrain) -> bool {
        &&& self.models(m)
        &&& m.agrees()
        &&& Self::changes_fit(m, self.updated_edge_costs@)
        &&& self.consistent_before(m)
    }

    /// While the buffered changes are absorbed, `changes` being those still
    /// to come: the `rhs` of the node is its lookahead over the terrain as it
    /// is, or as it was before those changes.
    pub open spec fn partly_absorbed(&self, m: Terrain, changes: Seq<(Edge, u64)>, s: u64) -> bool {
        self.lookahead_in(m, s) || self.before_holds(m, changes, s)
    }

    /// While the buffered changes are absorbed: the planner's functions
    /// compute the terrain, whose edges agree; the changes still to come fit
    /// it; and every `rhs` is a lookahead over the terrain as it is or as it
    /// was before them.
    pub open spec fn absorbing(&self, m: Terrain) -> bool {
        &&& self.models(m)
        &&& m.agrees()
        &&& Self::changes_fit(m, self.updated_edge_costs@)
        &&& forall|n: u64| #[trigger] self.partly_absorbed(m, self.updated_edge_costs@, n)
    }

    /// Absorbing the last of the changes that are still to come keeps every
    /// node's `rhs` a lookahead, over the terrain as it is or as it was
    /// before the changes that then remain.
    proof fn lemma_absorb_step(&self, next: &Self, m: Terrain, changes: Seq<(Edge, u64)>)
        requires
            changes.len() > 0,
            self.oracle_ok(),
            self.models(m),
            Self::changes_fit(m, changes),
            forall|s: u64| #[trigger] self.partly_absorbed(m, changes, s),
            changes.last().0.cost <= changes.last().1 && self.rhs(changes.last().0.successor) == plus(
                changes.last().0.cost,
                self.g(changes.last().0.predecessor),
            ) && changes.last().0.successor != self.goal ==> edges_return(
                self.successors,
                changes.last().0.successor,
            ),
            next.scores() == self.absorbed(changes.last().0, changes.last().1),
            next.successors == self.successors,
            next.goal == self.goal,
        ensures
            Self::changes_fit(m, changes.drop_last()),
            forall|s: u64| #[trigger] next.partly_absorbed(m, changes.drop_last(), s),
    {
        let rest = changes.drop_last();
        let last = changes.len() - 1;
        let edge = changes.last().0;
        let new_cost = changes.last().1;
        let s0 = edge.successor;
        let p = edge.predecessor;
        let twin = EdgeTo { target: p, cost: new_cost };
        assert forall|k: int| 0 <= k < rest.len() implies rest[k] == changes[k] by {}
        assert(Self::changes_fit(m, rest)) by {
            assert forall|k: int| 0 <= k < rest.len() implies #[trigger] Self::lists_change(m, rest, k) by {
                assert(rest[k] == changes[k]);
                assert(Self::lists_change(m, changes, k));
            }
            assert forall|k1: int, k2: int|
                0 <= k1 < rest.len() && 0 <= k2 < rest.len() && k1 != k2 implies #[trigger] Self::apart(
                rest,
                k1,
                k2,
            ) by {
                assert(Self::apart(changes, k1, k2));
            }
        }
        assert forall|s: u64| #[trigger] next.partly_absorbed(m, rest, s) by {
            assert(self.partly_absorbed(m, changes, s));
            let edges = m.succ(s);
            if s != self.goal {
                let eb = Self::edges_before(m, changes, s);
                let er = Self::edges_before(m, rest, s);
                let gb = gone_edges(changes, s, edges);
                let gr = gone_edges(rest, s, edges);
                assert forall|n: u64| g_in(next.scores(), n) == g_in(self.scores(), n) by {}
                lemma_least_through_same_g(self.scores(), next.scores(), edges);
                lemma_least_through_same_g(self.scores(), next.scores(), gr);
                // an edge that the last change is not about cost the same before
                assert forall|j: int| 0 <= j < edges.len() && !(s == s0 && edges[j] == twin) implies er[j]
                    == eb[j] by {
                    let e = edges[j];
                    if exists|k: int| records(changes, k, s, e) {
                        let k = choose|k: int| records(changes, k, s, e);
                        assert(k != last);
                        assert(records(rest, k, s, e));
                        let kr = choose|k: int| records(rest, k, s, e);
                        assert(records(changes, kr, s, e));
                        if kr != k {
                            assert(Self::apart(changes, kr, k));
                        }
                    } else {
                        assert forall|k: int| !records(rest, k, s, e) by {
                            if records(rest, k, s, e) {
                                assert(records(changes, k, s, e));
                            }
                        }
                    }
                }
                if s != s0 {
                    assert(er =~= eb);
                    assert(gb == gr);
                    lemma_least_through_same_g(self.scores(), next.scores(), eb);
                    assert(next.rhs(s) == self.rhs(s));
                } else if self.lookahead_in(m, s0) {
                    lemma_least_through(self.scores(), edges);
                    if edges.contains(twin) {
                        let j0 = choose|j: int| 0 <= j < edges.len() && edges[j] == twin;
                        assert(self.rhs(s0) <= through(self.scores(), edges[j0]));
                    } else {
                        assert(Self::lists_change(m, changes, last));
                    }
                    assert(next.lookahead_in(m, s0));
                } else if edge.cost <= new_cost && self.rhs(s0) == plus(edge.cost, self.g(p)) {
                    self.lemma_model_succ(m, s0);
                    assert(next.lookahead_in(m, s0));
                } else {
                    assert(Self::lists_change(m, changes, last));
                    let v = next.rhs(s0);
                    let far = self.g(p);
                    lemma_least_through(self.scores(), eb);
                    lemma_least_through(self.scores(), gb);
                    lemma_least_through(next.scores(), gr);
                    if edges.contains(twin) {
                        // the change is about a listed edge
                        let j0 = choose|j: int| 0 <= j < edges.len() && edges[j] == twin;
                        assert(gb == gr);
                        assert(records(changes, last, s0, edges[j0]));
                        assert forall|k: int| records(changes, k, s0, edges[j0]) implies k == last by {
                            if k != last {
                                assert(Self::apart(changes, k, last));
                            }
                        }
                        assert forall|k: int| !records(rest, k, s0, edges[j0]) by {
                            if records(rest, k, s0, edges[j0]) {
                                assert(records(changes, k, s0, edges[j0]));
                            }
                        }
                        assert(er[j0] == edges[j0]);
                        assert(eb[j0].cost == edge.cost && eb[j0].target == p);
                        assert forall|j: int| 0 <= j < edges.len() && j != j0 implies through(next.scores(), er[j])
                            == through(self.scores(), eb[j]) by {
                            assert(edges[j] != twin) by {
                                if edges[j] == twin {
                                    assert(edges[j0] == twin);
                                }
                            }
                            assert(er[j] == eb[j]);
                        }
                        assert(self.rhs(s0) <= through(self.scores(), eb[j0]));
                        assert forall|j: int| 0 <= j < er.len() implies v <= through(
                            next.scores(),
                            #[trigger] er[j],
                        ) by {
                            if j != j0 {
                                assert(self.rhs(s0) <= through(self.scores(), eb[j]));
                            }
                        }
                        let extra = least_through(next.scores(), gr);
                        if v != infinity() && v != extra {
                            if edge.cost > new_cost && plus(new_cost, far) < self.rhs(s0) {
                                assert(v == through(next.scores(), er[j0]));
                            } else {
                                let j = choose|j: int|
                                    0 <= j < eb.len() && least_through(self.scores(), eb) == through(
                                        self.scores(),
                                        #[trigger] eb[j],
                                    );
                                if j == j0 {
                                    assert(v == through(next.scores(), er[j0]));
                                } else {
                                    assert(v == through(next.scores(), er[j]));
                                }
                            }
                        }
                        lemma_lower_is(next.scores(), er, extra, v);
                    } else {
                        // the change is about an edge that is gone
                        assert(new_cost == infinity());
                        assert(er =~= eb);
                        lemma_least_through_same_g(self.scores(), next.scores(), eb);
                        assert(gb == gr.push(EdgeTo { target: p, cost: edge.cost }));
                        assert(gb.drop_last() == gr);
                        assert(least_through(self.scores(), gb) == lower(
                            through(self.scores(), gb.last()),
                            least_through(self.scores(), gr),
                        ));
                        assert(v == self.rhs(s0));
                    }
                }
            }
        }
    }
}

} // verus!
