//! The planner's main loop: nodes leave the open queue in the order of their
//! keys and are expanded, until no queued key comes before the key of the
//! agent's node.

use crate::convergence::{
    lemma_closed_not_lowered, lemma_not_reached_bound, lemma_not_reached_one, lemma_relaxed_key_above,
    not_reached,
};
use crate::open_queue::{key_le, queue_pop_min, queue_push};
use crate::planner::DStarLite;
use crate::priority::Priority;
use crate::rounds::{
    converged_in, is_round, is_run, look_again_all, look_again_one, relax_all, relax_one,
    round_of, run_step, searched, takes,
};
use crate::scores::{
    g_in, least_through, lemma_least_through, lemma_least_through_is, lemma_least_through_same_g, through,
    VertexScore,
};
use crate::terrain::{edges_return, EdgeTo, Terrain};
use crate::weight::{add_weights, infinity, max_weight, plus};
use vstd::prelude::*;

verus! {

impl<H, S, P> DStarLite<H, S, P> where
    H: Fn(&u64, &u64) -> u64,
    S: Fn(&u64) -> Vec<EdgeTo>,
    P: Fn(&u64) -> Vec<EdgeTo>,
 {
    /// The score table after `reevaluate`.
    pub open spec fn reevaluated(&self, node: u64, cost: u64, g_old: u64) -> Map<u64, VertexScore> {
        if self.rhs(node) == plus(cost, g_old) && node != self.goal {
            self.scores().insert(node, VertexScore { g: self.g(node), rhs: self.lookahead(node) })
        } else {
            self.scores()
        }
    }

    /// Looks again at a node after the `g` of the node that an edge of cost
    /// `cost` leads to was given up: where the node's lookahead was exactly
    /// `cost` plus that old `g`, and the node is not the goal, the lookahead
    /// is computed anew from all outgoing edges. Then the node's place in the
    /// queue is brought in line.
    fn reevaluate(&mut self, node: u64, cost: u64, g_old: u64)
        requires
            old(self).oracle_ok(),
        ensures
            final(self).same_setting(old(self)),
            final(self).expansions == old(self).expansions,
            final(self).scores() == old(self).reevaluated(node, cost, g_old),
            final(self).queued() == old(self).requeued(old(self).reevaluated(node, cost, g_old), node),
            look_again_one(old(self).setting(), (old(self).scores(), old(self).queued(), true), node, cost, g_old)
                == (final(self).scores(), final(self).queued(), true),
            final(self).tracks(node),
            forall|n: u64| n != node && old(self).tracks(n) ==> #[trigger] final(self).tracks(n),
            forall|m: Terrain|
                #![trigger old(self).keyed_in(m)]
                #![trigger final(self).keyed_in(m)]
                old(self).keyed_in(m) && old(self).start == old(self).start_last ==> final(self).keyed_in(m),
    {
        let score = self.score(&node);
        if score.rhs == add_weights(cost, g_old) && node != self.goal {
            let low = self.lookahead_of(&node);
            self.set_score(node, VertexScore { g: score.g, rhs: low });
        }
        self.update_vertex(&node);
    }

    /// While the `g` of `u` comes down from `g_prev`: the `rhs` of `s` is
    /// not above the cost through its `j`-th outgoing edge, where an edge
    /// into `u` still counts with `g_prev`.
    pub open spec fn bound_at(&self, m: Terrain, s: u64, j: int, u: u64, g_prev: u64) -> bool {
        s != self.goal ==> if m.succ(s)[j].target != u {
            self.rhs(s) <= through(self.scores(), m.succ(s)[j])
        } else {
            self.rhs(s) <= plus(m.succ(s)[j].cost, g_prev)
        }
    }

    /// While the `g` of `u` differs from what it was, `g_prev`: the `rhs` of
    /// `s` is infinite, or the cost through one of its outgoing edges, or
    /// what the cost through one of its edges into `u` was before.
    pub open spec fn witness_at(&self, m: Terrain, s: u64, u: u64, g_prev: u64) -> bool {
        s != self.goal ==> {
            ||| self.rhs(s) == infinity()
            ||| exists|j: int|
                0 <= j < m.succ(s).len() && self.rhs(s) == through(self.scores(), #[trigger] m.succ(s)[j])
            ||| exists|j: int|
                0 <= j < m.succ(s).len() && (#[trigger] m.succ(s)[j]).target == u && self.rhs(s) == plus(
                    m.succ(s)[j].cost,
                    g_prev,
                )
        }
    }

    /// While the edges `preds` into `u` are relaxed, the first `i` of them
    /// being done: the functions compute the terrain, whose edges agree;
    /// every `rhs` is bounded and witnessed as `bound_at` and `witness_at`
    /// say; and the `rhs` at the near end of each edge that is done is not
    /// above the cost through it.
    pub open spec fn relaxing(&self, m: Terrain, u: u64, g_prev: u64, g_u: u64, preds: Seq<EdgeTo>, i: int) -> bool {
        &&& self.models(m)
        &&& m.agrees()
        &&& forall|s: u64, j: int| 0 <= j < m.succ(s).len() ==> #[trigger] self.bound_at(m, s, j, u, g_prev)
        &&& forall|s: u64| #[trigger] self.witness_at(m, s, u, g_prev)
        &&& forall|k: int| 0 <= k < i ==> self.rhs((#[trigger] preds[k]).target) <= plus(preds[k].cost, g_u)
    }

    /// While the near ends of the edges into a node are looked at again,
    /// `pending` holding the edges not yet looked at: the functions compute
    /// the terrain, whose edges agree, and every `rhs` is bounded and
    /// witnessed as `below_at` and `pending_at` say.
    pub open spec fn looking(&self, m: Terrain, pending: Seq<EdgeTo>, g_old: u64) -> bool {
        &&& self.models(m)
        &&& m.agrees()
        &&& forall|s: u64, j: int| 0 <= j < m.succ(s).len() ==> #[trigger] self.below_at(m, s, j)
        &&& forall|s: u64| #[trigger] self.pending_at(m, s, pending, g_old)
    }

    /// Expands a node whose `g` is above its `rhs`: its `g` comes down to its
    /// `rhs`, and every node with an edge into it has its lookahead lowered
    /// to the cost through that edge where that is less, and its place in
    /// the queue brought in line.
    fn expand_overconsistent(&mut self, u: u64)
        requires
            old(self).oracle_ok(),
            forall|n: u64| n != u ==> old(self).tracks(n),
            !old(self).queued().contains_key(u),
            old(self).g(u) > old(self).rhs(u),
            old(self).rhs(old(self).goal) == 0,
        ensures
            final(self).wf(),
            final(self).same_setting(old(self)),
            final(self).expansions == old(self).expansions,
            forall|m: Terrain|
                #![trigger old(self).keyed_in(m)]
                #![trigger final(self).keyed_in(m)]
                old(self).keyed_in(m) && old(self).start == old(self).start_last ==> final(self).keyed_in(m),
            forall|m: Terrain|
                #![trigger old(self).coherent_in(m)]
                #![trigger final(self).coherent_in(m)]
                old(self).coherent_in(m) ==> final(self).coherent_in(m),
            old(self).never_under() ==> final(self).never_under(),
            forall|m: Terrain, bound: nat|
                #![trigger old(self).taken_in(m, bound, u)]
                #![trigger final(self).fresh_in(m, bound)]
                old(self).taken_in(m, bound, u) ==> final(self).fresh_in(m, bound) && not_reached(
                    final(self).scores(),
                    bound,
                ) + 1 == not_reached(old(self).scores(), bound),
            edges_return(old(self).predecessors, u),
            relax_all(
                old(self).setting(),
                (old(self).scores().insert(u, VertexScore { g: old(self).rhs(u), rhs: old(self).rhs(u) }), old(
                    self,
                ).queued(), true),
                old(self).pred(u),
                old(self).rhs(u),
            ) == (final(self).scores(), final(self).queued(), true),
    {
        let u_score = self.score(&u);
        let g_u = u_score.rhs;
        let ghost g_prev = u_score.g;
        let ghost c = old(self).setting();
        self.set_score(u, VertexScore { g: g_u, rhs: u_score.rhs });
        self.update_vertex(&u);
        assert(self.queued() =~= old(self).queued());
        let preds = (self.predecessors)(&u);
        let ghost init = (self.scores(), self.queued(), true);
        proof {
            assert(preds@.take(0).len() == 0);
            assert forall|m: Terrain, bound: nat| #[trigger] old(self).taken_in(m, bound, u) implies self.closing_in(
                m,
                bound,
                u,
            ) by {
                assert forall|n: u64| #[trigger] self.fresh_at(m, bound, n) by {
                    assert(old(self).fresh_at(m, bound, n));
                }
                assert forall|n: u64| #[trigger] self.closed_below(m, n, self.closed_key(m, u)) by {
                    assert(old(self).closed_below(m, n, old(self).key_over(m, old(self).start_last, u)));
                }
                assert forall|q: u64| #[trigger] self.queued_above(q, self.closed_key(m, u)) by {
                    assert(old(self).queued_above(q, old(self).key_over(m, old(self).start_last, u)));
                }
            }
            assert forall|m: Terrain| #[trigger] old(self).coherent_in(m) implies self.relaxing(
                m,
                u,
                g_prev,
                g_u,
                preds@,
                0,
            ) by {
                assert forall|s: u64, j: int| 0 <= j < m.succ(s).len() implies #[trigger] self.bound_at(m, s,
                    j,
                    u,
                    g_prev,
                ) by {
                    assert(old(self).lookahead_in(m, s));
                    lemma_least_through(old(self).scores(), m.succ(s));
                }
                assert forall|s: u64| #[trigger] self.witness_at(m, s, u, g_prev) by {
                    assert(old(self).lookahead_in(m, s));
                    lemma_least_through(old(self).scores(), m.succ(s));
                    if s != self.goal && self.rhs(s) != infinity() {
                        let j = choose|j: int|
                            0 <= j < m.succ(s).len() && least_through(old(self).scores(), m.succ(s)) == through(
                                old(self).scores(),
                                #[trigger] m.succ(s)[j],
                            );
                        if m.succ(s)[j].target == u {
                            assert(self.rhs(s) == plus(m.succ(s)[j].cost, g_prev));
                        } else {
                            assert(self.rhs(s) == through(self.scores(), m.succ(s)[j]));
                        }
                    }
                }
            }
        }
        let mut i: usize = 0;
        while i < preds.len()
            invariant
                i <= preds.len(),
                self.wf(),
                self.same_setting(old(self)),
                self.expansions == old(self).expansions,
                forall|m: Terrain|
                    #![trigger old(self).keyed_in(m)]
                    #![trigger self.keyed_in(m)]
                    old(self).keyed_in(m) && old(self).start == old(self).start_last ==> self.keyed_in(m),
                preds@ == self.pred(u),
                edges_return(self.predecessors, u),
                self.setting() == c,
                relax_all(c, init, preds@.take(i as int), g_u) == (self.scores(), self.queued(), true),
                self.g(u) == g_u,
                g_u <= g_prev,
                g_u < g_prev,
                old(self).never_under() ==> self.never_under(),
                forall|x: u64| x != u ==> #[trigger] g_in(self.scores(), x) == g_in(old(self).scores(), x),
                forall|m: Terrain, bound: nat| #[trigger]
                    old(self).taken_in(m, bound, u) ==> self.closing_in(m, bound, u),
                forall|m: Terrain| #[trigger]
                    old(self).coherent_in(m) ==> self.relaxing(m, u, g_prev, g_u, preds@, i as int),
            decreases preds.len() - i,
        {
            let s = preds[i];
            let ghost prev = *self;
            let target_score = self.score(&s.target);
            let through_u = add_weights(s.cost, g_u);
            if through_u < target_score.rhs {
                self.set_score(s.target, VertexScore { g: target_score.g, rhs: through_u });
            }
            self.update_vertex(&s.target);
            proof {
                assert(relax_all(c, init, preds@.take(i + 1), g_u) == (self.scores(), self.queued(), true)) by {
                    assert(preds@.take(i + 1).drop_last() == preds@.take(i as int));
                    assert(preds@.take(i + 1).last() == s);
                    assert(relax_one(c, (prev.scores(), prev.queued(), true), s, g_u) == (
                        self.scores(),
                        self.queued(),
                        true,
                    ));
                }
                assert(prev.never_under() ==> prev.not_under(s.target));
                assert forall|x: u64| x != u implies #[trigger] g_in(self.scores(), x) == g_in(
                    old(self).scores(),
                    x,
                ) by {
                    assert(g_in(self.scores(), x) == g_in(prev.scores(), x));
                }
                assert forall|m: Terrain, bound: nat| #[trigger] old(self).taken_in(m, bound, u) implies self.closing_in(
                    m,
                    bound,
                    u,
                ) by {
                    let t = s.target;
                    assert(prev.closing_in(m, bound, u));
                    prev.lemma_model_pred(m, u);
                    assert(m.steady_at(self.start_last, u, i as int));
                    assert(m.pred(u)[i as int].target < bound);
                    assert(prev.fresh_at(m, bound, t));
                    assert(prev.closed_below(m, t, prev.closed_key(m, u)));
                    assert(prev.queued_above(t, prev.closed_key(m, u)));
                    assert(prev.tracks(t));
                    assert(prev.not_under(t));
                    if prev.g(t) != infinity() {
                        lemma_closed_not_lowered(
                            prev.g(t),
                            m.h(self.start_last, t),
                            g_u,
                            m.h(self.start_last, u),
                            self.k_m,
                            s.cost,
                        );
                    }
                    lemma_relaxed_key_above(m.h(self.start_last, t), g_u, m.h(self.start_last, u), self.k_m, s.cost);
                    if self.g(t) != self.rhs(t) {
                        self.lemma_model_h(m, self.start, t);
                    }
                    assert forall|n: u64| #[trigger] self.fresh_at(m, bound, n) by {
                        assert(prev.fresh_at(m, bound, n));
                    }
                    assert forall|n: u64| #[trigger] self.closed_below(m, n, self.closed_key(m, u)) by {
                        assert(prev.closed_below(m, n, prev.closed_key(m, u)));
                    }
                    assert forall|q: u64| #[trigger] self.queued_above(q, self.closed_key(m, u)) by {
                        assert(prev.queued_above(q, prev.closed_key(m, u)));
                    }
                }
                assert forall|m: Terrain| #[trigger] old(self).coherent_in(m) implies self.relaxing(
                    m,
                    u,
                    g_prev,
                    g_u,
                    preds@,
                    i + 1,
                ) by {
                    assert(prev.relaxing(m, u, g_prev, g_u, preds@, i as int));
                    prev.lemma_model_pred(m, u);
                    assert forall|t: u64, j: int| 0 <= j < m.succ(t).len() implies #[trigger] self.bound_at(m, t,
                        j,
                        u,
                        g_prev,
                    ) by {
                        assert(prev.bound_at(m, t, j, u, g_prev));
                    }
                    assert forall|k: int| 0 <= k < i + 1 implies self.rhs((#[trigger] preds@[k]).target) <= plus(
                        preds@[k].cost,
                        g_u,
                    ) by {
                        if k < i {
                            assert(prev.rhs(preds@[k].target) <= plus(preds@[k].cost, g_u));
                        }
                    }
                    assert forall|t: u64| #[trigger] self.witness_at(m, t, u, g_prev) by {
                        assert(prev.witness_at(m, t, u, g_prev));
                        if t != self.goal && self.rhs(t) != infinity() {
                            if t == s.target && through_u < target_score.rhs {
                                assert(m.enters_and_leaves(u, i as int));
                                let twin = EdgeTo { target: u, cost: s.cost };
                                let j = choose|j: int| 0 <= j < m.succ(t).len() && m.succ(t)[j] == twin;
                                assert(self.rhs(t) == through(self.scores(), m.succ(t)[j]));
                            } else {
                                if exists|j: int|
                                    0 <= j < m.succ(t).len() && prev.rhs(t) == through(
                                        prev.scores(),
                                        #[trigger] m.succ(t)[j],
                                    ) {
                                    let j = choose|j: int|
                                        0 <= j < m.succ(t).len() && prev.rhs(t) == through(
                                            prev.scores(),
                                            #[trigger] m.succ(t)[j],
                                        );
                                    assert(self.rhs(t) == through(self.scores(), m.succ(t)[j]));
                                } else {
                                    let j = choose|j: int|
                                        0 <= j < m.succ(t).len() && (#[trigger] m.succ(t)[j]).target == u
                                            && prev.rhs(t) == plus(m.succ(t)[j].cost, g_prev);
                                    assert(m.succ(t)[j].target == u && self.rhs(t) == plus(
                                        m.succ(t)[j].cost,
                                        g_prev,
                                    ));
                                }
                            }
                        }
                    }
                }
            }
            i += 1;
        }
        proof {
            assert(preds@.take(i as int) == preds@);
            assert forall|m: Terrain, bound: nat| #[trigger] old(self).taken_in(m, bound, u) implies self.fresh_in(
                m,
                bound,
            ) && not_reached(self.scores(), bound) + 1 == not_reached(old(self).scores(), bound) by {
                assert(self.closing_in(m, bound, u));
                assert forall|n: u64, q: u64| #[trigger] self.closed_before_queued(m, n, q) by {
                    assert(self.closed_below(m, n, self.closed_key(m, u)));
                    assert(self.queued_above(q, self.closed_key(m, u)));
                }
                lemma_not_reached_one(old(self).scores(), self.scores(), u, bound);
            }
            assert forall|m: Terrain| #[trigger] old(self).coherent_in(m) implies self.coherent_in(m) by {
                assert(self.relaxing(m, u, g_prev, g_u, preds@, i as int));
                self.lemma_model_pred(m, u);
                assert forall|t: u64| #[trigger] self.lookahead_in(m, t) by {
                    if t != self.goal {
                        let edges = m.succ(t);
                        let v = self.rhs(t);
                        assert forall|j: int| 0 <= j < edges.len() implies v <= through(
                            self.scores(),
                            #[trigger] edges[j],
                        ) by {
                            assert(self.bound_at(m, t, j, u, g_prev));
                            if edges[j].target == u {
                                assert(m.leaves_and_enters(t, j));
                                let twin = EdgeTo { target: t, cost: edges[j].cost };
                                let k = choose|k: int| 0 <= k < preds@.len() && preds@[k] == twin;
                                assert(self.rhs(preds@[k].target) <= plus(preds@[k].cost, g_u));
                            }
                        }
                        assert(self.witness_at(m, t, u, g_prev));
                        if v != infinity() && !(exists|j: int|
                            0 <= j < edges.len() && v == through(self.scores(), #[trigger] edges[j])) {
                            let j = choose|j: int|
                                0 <= j < edges.len() && (#[trigger] edges[j]).target == u && v == plus(
                                    edges[j].cost,
                                    g_prev,
                                );
                            assert(v <= through(self.scores(), edges[j]));
                            assert(through(self.scores(), edges[j]) <= plus(edges[j].cost, g_prev));
                            assert(false);
                        }
                        lemma_least_through_is(self.scores(), edges, v);
                    }
                }
            }
        }
    }

    /// The `rhs` of `s` is not above the cost through its `j`-th outgoing
    /// edge.
    pub open spec fn below_at(&self, m: Terrain, s: u64, j: int) -> bool {
        s != self.goal ==> self.rhs(s) <= through(self.scores(), m.succ(s)[j])
    }

    /// While the nodes with an edge into a node whose `g` was `g_old` are
    /// looked at again, `pending` holding the edges not yet looked at: the
    /// `rhs` of `s` is infinite, or the cost through one of its outgoing
    /// edges, or what the cost through a pending edge was before.
    pub open spec fn pending_at(&self, m: Terrain, s: u64, pending: Seq<EdgeTo>, g_old: u64) -> bool {
        s != self.goal ==> {
            ||| self.rhs(s) == infinity()
            ||| exists|j: int|
                0 <= j < m.succ(s).len() && self.rhs(s) == through(self.scores(), #[trigger] m.succ(s)[j])
            ||| exists|k: int|
                0 <= k < pending.len() && (#[trigger] pending[k]).target == s && self.rhs(s) == plus(
                    pending[k].cost,
                    g_old,
                )
        }
    }

    /// Expands a node whose `g` is not above its `rhs`: its `g` is given up
    /// (set to infinity), and every node with an edge into it, and then the
    /// node itself, is looked at again.
    fn expand_underconsistent(&mut self, u: u64)
        requires
            old(self).oracle_ok(),
            forall|n: u64| n != u ==> old(self).tracks(n),
            !old(self).queued().contains_key(u),
            old(self).rhs(old(self).goal) == 0,
        ensures
            final(self).wf(),
            final(self).same_setting(old(self)),
            final(self).expansions == old(self).expansions,
            forall|m: Terrain|
                #![trigger old(self).keyed_in(m)]
                #![trigger final(self).keyed_in(m)]
                old(self).keyed_in(m) && old(self).start == old(self).start_last ==> final(self).keyed_in(m),
            forall|m: Terrain|
                #![trigger old(self).coherent_in(m)]
                #![trigger final(self).coherent_in(m)]
                old(self).coherent_in(m) ==> final(self).coherent_in(m),
            edges_return(old(self).predecessors, u),
            look_again_one(
                old(self).setting(),
                look_again_all(
                    old(self).setting(),
                    (old(self).scores().insert(u, VertexScore { g: infinity(), rhs: old(self).rhs(u) }), old(
                        self,
                    ).queued(), true),
                    old(self).pred(u),
                    old(self).g(u),
                ),
                u,
                0,
                old(self).g(u),
            ) == (final(self).scores(), final(self).queued(), true),
    {
        let u_score = self.score(&u);
        let g_old = u_score.g;
        let ghost c = old(self).setting();
        self.set_score(u, VertexScore { g: max_weight(), rhs: u_score.rhs });
        let preds = (self.predecessors)(&u);
        let ghost init = (self.scores(), self.queued(), true);
        proof {
            assert(preds@.take(0).len() == 0);
            assert(preds@.skip(0) =~= preds@);
            assert forall|m: Terrain| #[trigger] old(self).coherent_in(m) implies self.looking(
                m,
                preds@.skip(0),
                g_old,
            ) by {
                self.lemma_model_pred(m, u);
                assert forall|s: u64, j: int| 0 <= j < m.succ(s).len() implies #[trigger] self.below_at(m, s, j) by {
                    assert(old(self).lookahead_in(m, s));
                    lemma_least_through(old(self).scores(), m.succ(s));
                }
                assert forall|s: u64| #[trigger] self.pending_at(m, s, preds@, g_old) by {
                    assert(old(self).lookahead_in(m, s));
                    lemma_least_through(old(self).scores(), m.succ(s));
                    if s != self.goal && self.rhs(s) != infinity() {
                        let j = choose|j: int|
                            0 <= j < m.succ(s).len() && least_through(old(self).scores(), m.succ(s)) == through(
                                old(self).scores(),
                                #[trigger] m.succ(s)[j],
                            );
                        if m.succ(s)[j].target == u {
                            assert(m.leaves_and_enters(s, j));
                            let twin = EdgeTo { target: s, cost: m.succ(s)[j].cost };
                            let k = choose|k: int| 0 <= k < preds@.len() && preds@[k] == twin;
                            assert(preds@[k].target == s && self.rhs(s) == plus(preds@[k].cost, g_old));
                        } else {
                            assert(self.rhs(s) == through(self.scores(), m.succ(s)[j]));
                        }
                    }
                }
            }
        }
        let mut i: usize = 0;
        while i < preds.len()
            invariant
                i <= preds.len(),
                self.oracle_ok(),
                forall|n: u64| n != u ==> self.tracks(n),
                !self.queued().contains_key(u) || self.tracks(u),
                self.rhs(self.goal) == 0,
                self.same_setting(old(self)),
                self.expansions == old(self).expansions,
                forall|m: Terrain|
                    #![trigger old(self).keyed_in(m)]
                    #![trigger self.keyed_in(m)]
                    old(self).keyed_in(m) && old(self).start == old(self).start_last ==> self.keyed_in(m),
                preds@ == self.pred(u),
                edges_return(self.predecessors, u),
                self.setting() == c,
                look_again_all(c, init, preds@.take(i as int), g_old) == (self.scores(), self.queued(), true),
                forall|m: Terrain| #[trigger]
                    old(self).coherent_in(m) ==> self.looking(m, preds@.skip(i as int), g_old),
            decreases preds.len() - i,
        {
            let s = preds[i];
            let ghost prev = *self;
            self.reevaluate(s.target, s.cost, g_old);
            proof {
                assert(look_again_all(c, init, preds@.take(i + 1), g_old) == (self.scores(), self.queued(), true))
                    by {
                    assert(preds@.take(i + 1).drop_last() == preds@.take(i as int));
                    assert(preds@.take(i + 1).last() == s);
                }
                assert forall|m: Terrain| #[trigger] old(self).coherent_in(m) implies self.looking(
                    m,
                    preds@.skip(i + 1),
                    g_old,
                ) by {
                    assert(prev.looking(m, preds@.skip(i as int), g_old));
                    if prev.rhs(s.target) == plus(s.cost, g_old) && s.target != prev.goal {
                        prev.lemma_model_succ(m, s.target);
                    }
                    lemma_least_through(prev.scores(), m.succ(s.target));
                    assert forall|t: u64, j: int| 0 <= j < m.succ(t).len() implies #[trigger] self.below_at(m, t,
                        j,
                    ) by {
                        assert(prev.below_at(m, t, j));
                    }
                    assert forall|t: u64| #[trigger] self.pending_at(m, t, preds@.skip(i + 1), g_old) by {
                        assert(prev.pending_at(m, t, preds@.skip(i as int), g_old));
                        if t != self.goal && self.rhs(t) != infinity() {
                            if t == s.target && prev.rhs(t) == plus(s.cost, g_old) {
                                let j = choose|j: int|
                                    0 <= j < m.succ(t).len() && least_through(prev.scores(), m.succ(t)) == through(
                                        prev.scores(),
                                        #[trigger] m.succ(t)[j],
                                    );
                                assert(self.rhs(t) == through(self.scores(), m.succ(t)[j]));
                            } else if exists|j: int|
                                0 <= j < m.succ(t).len() && prev.rhs(t) == through(
                                    prev.scores(),
                                    #[trigger] m.succ(t)[j],
                                ) {
                                let j = choose|j: int|
                                    0 <= j < m.succ(t).len() && prev.rhs(t) == through(
                                        prev.scores(),
                                        #[trigger] m.succ(t)[j],
                                    );
                                assert(self.rhs(t) == through(self.scores(), m.succ(t)[j]));
                            } else {
                                let pending = preds@.skip(i as int);
                                let k = choose|k: int|
                                    0 <= k < pending.len() && (#[trigger] pending[k]).target == t && prev.rhs(t)
                                        == plus(pending[k].cost, g_old);
                                assert(pending[0] == s);
                                assert(k != 0);
                                let rest = preds@.skip(i + 1);
                                assert(rest[k - 1] == pending[k]);
                                assert(rest[k - 1].target == t && self.rhs(t) == plus(rest[k - 1].cost, g_old));
                            }
                        }
                    }
                }
            }
            i += 1;
        }
        proof {
            assert(preds@.take(i as int) == preds@);
            assert forall|m: Terrain| #[trigger] old(self).coherent_in(m) implies self.consistent_in(m) by {
                assert(self.looking(m, preds@.skip(i as int), g_old));
                assert forall|t: u64| #[trigger] self.lookahead_in(m, t) by {
                    if t != self.goal {
                        let edges = m.succ(t);
                        let v = self.rhs(t);
                        assert forall|j: int| 0 <= j < edges.len() implies v <= through(
                            self.scores(),
                            #[trigger] edges[j],
                        ) by {
                            assert(self.below_at(m, t, j));
                        }
                        assert(self.pending_at(m, t, preds@.skip(i as int), g_old));
                        lemma_least_through_is(self.scores(), edges, v);
                    }
                }
            }
        }
        let ghost prev = *self;
        self.reevaluate(u, 0, g_old);
        proof {
            assert forall|m: Terrain| #[trigger] old(self).coherent_in(m) implies self.coherent_in(m) by {
                assert(prev.consistent_in(m));
                if prev.rhs(u) == plus(0, g_old) && u != prev.goal {
                    prev.lemma_model_succ(m, u);
                }
                assert forall|t: u64| #[trigger] self.lookahead_in(m, t) by {
                    assert(prev.lookahead_in(m, t));
                    lemma_least_through_same_g(prev.scores(), self.scores(), m.succ(t));
                }
            }
        }
    }

    /// The main loop. While the search has work left, the node with the
    /// least key leaves the queue. If its key has grown since it was queued,
    /// it is queued again under the new key; else it is expanded. Each round
    /// counts as one expansion, and the loop also ends when that count has
    /// reached `u64::MAX`. Scores and queue on return are those at the end of
    /// a run of as many rounds as were counted.
    pub(crate) fn compute_shortest_path(&mut self)
        requires
            old(self).wf(),
        ensures
            final(self).wf(),
            final(self).same_setting(old(self)),
            final(self).converged() || final(self).expansions == u64::MAX,
            final(self).expansions >= old(self).expansions,
            searched(
                old(self).setting(),
                old(self).search_state(),
                final(self).expansions - old(self).expansions,
                final(self).search_state(),
            ),
            old(self).converged() ==> final(self).same_search(old(self)),
            forall|m: Terrain|
                #![trigger old(self).keyed_in(m)]
                #![trigger final(self).keyed_in(m)]
                old(self).keyed_in(m) && old(self).start == old(self).start_last ==> final(self).keyed_in(m),
            forall|m: Terrain|
                #![trigger old(self).coherent_in(m)]
                #![trigger final(self).coherent_in(m)]
                old(self).coherent_in(m) ==> final(self).coherent_in(m),
            old(self).never_under() ==> final(self).never_under(),
            forall|m: Terrain, bound: nat|
                #![trigger old(self).fresh_in(m, bound)]
                #![trigger final(self).fresh_in(m, bound)]
                old(self).fresh_in(m, bound) ==> final(self).fresh_in(m, bound) && (old(self).expansions + bound
                    < u64::MAX ==> final(self).converged()),
    {
        let ghost c = self.setting();
        let ghost mut run = seq![self.search_state()];
        while self.expansions < u64::MAX && self.needs_work()
            invariant
                self.wf(),
                self.same_setting(old(self)),
                self.expansions >= old(self).expansions,
                c == old(self).setting(),
                is_run(c, run),
                run.len() == self.expansions - old(self).expansions + 1,
                run[0] == old(self).search_state(),
                run.last() == self.search_state(),
                old(self).converged() ==> self.same_search(old(self)),
                forall|m: Terrain|
                    #![trigger old(self).keyed_in(m)]
                    #![trigger self.keyed_in(m)]
                    old(self).keyed_in(m) && old(self).start == old(self).start_last ==> self.keyed_in(m),
                forall|m: Terrain|
                    #![trigger old(self).coherent_in(m)]
                    #![trigger self.coherent_in(m)]
                    old(self).coherent_in(m) ==> self.coherent_in(m),
                old(self).never_under() ==> self.never_under(),
                forall|m: Terrain, bound: nat| #[trigger]
                    old(self).fresh_in(m, bound) ==> self.fresh_in(m, bound) && (self.expansions - old(
                        self,
                    ).expansions) + not_reached(self.scores(), bound) <= not_reached(old(self).scores(), bound),
            decreases u64::MAX - self.expansions,
        {
            let ghost prev = *self;
            self.expansions = self.expansions + 1;
            match queue_pop_min(&mut self.queue) {
                None => {
                    proof {
                        assert(prev.tracks(prev.start));
                        assert(false);
                    }
                },
                Some((u, k_old)) => {
                    proof {
                        assert(prev.tracks(u));
                        assert forall|n: u64| n != u implies self.tracks(n) by {
                            assert(prev.tracks(n));
                        }
                        prev.lemma_scores_kept(self);
                        prev.lemma_keys_kept(self);
                    }
                    let ghost popped = *self;
                    let k_new = self.calculate_key(&u);
                    let stale = Priority(k_old.0, k_old.1).less_than(&k_new);
                    if stale {
                        queue_push(&mut self.queue, u, (k_new.0, k_new.1));
                        proof {
                            assert forall|n: u64| self.tracks(n) by {
                                if n != u {
                                    assert(popped.tracks(n));
                                }
                            }
                            popped.lemma_scores_kept(self);
                            if popped.start == popped.start_last {
                                popped.lemma_key_brought_in_line(self, u);
                            }
                        }
                    } else {
                        let u_score = self.score(&u);
                        if u_score.g > u_score.rhs {
                            self.expand_overconsistent(u);
                        } else {
                            assert(!popped.never_under()) by {
                                if popped.never_under() {
                                    assert(popped.not_under(u));
                                }
                            }
                            self.expand_underconsistent(u);
                        }
                    }
                    proof {
                        assert forall|m: Terrain, bound: nat| #[trigger] old(self).fresh_in(m, bound) implies self.fresh_in(
                            m,
                            bound,
                        ) && (self.expansions - old(self).expansions) + not_reached(self.scores(), bound)
                            <= not_reached(old(self).scores(), bound) by {
                            assert(prev.fresh_in(m, bound));
                            assert(prev.fresh_at(m, bound, u));
                            assert(prev.not_under(u));
                            popped.lemma_model_h(m, popped.start, u);
                            assert forall|n: u64| #[trigger] popped.fresh_at(m, bound, n) by {
                                assert(prev.fresh_at(m, bound, n));
                            }
                            assert forall|n: u64| #[trigger]
                                popped.closed_below(m, n, popped.key_over(m, popped.start_last, u)) by {
                                assert(prev.closed_before_queued(m, n, u));
                            }
                            assert forall|q: u64| #[trigger]
                                popped.queued_above(q, popped.key_over(m, popped.start_last, u)) by {
                                if popped.queued().contains_key(q) {
                                    assert(prev.queued().contains_key(q));
                                }
                            }
                            assert(popped.taken_in(m, bound, u));
                            assert(!stale);
                        }
                        let a = prev.search_state();
                        let b = self.search_state();
                        assert(popped.setting() == c);
                        assert(round_of(c, a, u) == (b.0, b.1, true));
                        assert(takes(c, a, u, b));
                        assert(is_round(c, a, b));
                        assert(!converged_in(c, a)) by {
                            if converged_in(c, a) {
                                assert forall|n: u64| #[trigger] prev.queued().contains_key(n) implies key_le(
                                    prev.key_of(prev.start),
                                    prev.queued()[n],
                                ) by {
                                    assert(a.1.contains_key(n));
                                }
                            }
                        }
                        let longer = run.push(b);
                        assert forall|i: int| 0 <= i < longer.len() - 1 implies #[trigger] run_step(
                            c,
                            longer,
                            i,
                        ) by {
                            if i < run.len() - 1 {
                                assert(run_step(c, run, i));
                                assert(longer[i] == run[i] && longer[i + 1] == run[i + 1]);
                            } else {
                                assert(longer[i] == a && longer[i + 1] == b);
                            }
                        }
                        run = longer;
                    }
                },
            }
        }
        proof {
            assert forall|m: Terrain, bound: nat| #[trigger] old(self).fresh_in(m, bound) implies self.fresh_in(
                m,
                bound,
            ) && (old(self).expansions + bound < u64::MAX ==> self.converged()) by {
                lemma_not_reached_bound(old(self).scores(), bound);
            }
        }
    }
}

} // verus!
