//! What a converged planner knows: the lookahead of the agent's node is the
//! cost of the cheapest way to the goal, and the steps that the planner
//! hands out follow such a way.
//!
//! The laws speak of a terrain as a mathematical object, `Terrain`, that the
//! planner's functions compute. What they ask of it is asked of that
//! object; that the functions compute it follows from their postconditions.

use crate::open_queue::key_le;
use crate::planner::DStarLite;
use crate::scores::{lemma_first_least, lemma_least_through, through};
use crate::scores::first_least;
use crate::terrain::{edges_return, EdgeTo, Terrain};
use crate::weight::{infinity, plus};
use vstd::prelude::*;

verus! {

/// The sum of the costs of a sequence of edges.
pub open spec fn walk_cost(steps: Seq<EdgeTo>) -> int
    decreases steps.len(),
{
    if steps.len() == 0 {
        0
    } else {
        walk_cost(steps.drop_last()) + steps.last().cost
    }
}

/// The node reached after the first `i` edges of a walk that starts at
/// `from`.
pub open spec fn node_at(from: u64, steps: Seq<EdgeTo>, i: int) -> u64 {
    if i <= 0 {
        from
    } else {
        steps[i - 1].target
    }
}

/// The node at which a walk from `from` ends.
pub open spec fn walk_end(from: u64, steps: Seq<EdgeTo>) -> u64 {
    node_at(from, steps, steps.len() as int)
}

/// The cost of a walk is not negative, and a part of it costs no more than
/// the whole.
pub proof fn lemma_walk_cost_prefix(steps: Seq<EdgeTo>, i: int)
    requires
        0 <= i <= steps.len(),
    ensures
        0 <= walk_cost(steps.take(i)) <= walk_cost(steps),
        i < steps.len() ==> walk_cost(steps.take(i + 1)) == walk_cost(steps.take(i)) + steps[i].cost,
    decreases steps.len() - i,
{
    if i < steps.len() {
        lemma_walk_cost_prefix(steps, i + 1);
        assert(steps.take(i + 1).drop_last() == steps.take(i));
        assert(steps.take(i + 1).last() == steps[i]);
    } else {
        assert(steps.take(i) == steps);
    }
    lemma_walk_cost_nonnegative(steps.take(i));
}

/// The cost of a walk is not negative.
pub proof fn lemma_walk_cost_nonnegative(steps: Seq<EdgeTo>)
    ensures
        0 <= walk_cost(steps),
    decreases steps.len(),
{
    if steps.len() > 0 {
        lemma_walk_cost_nonnegative(steps.drop_last());
    }
}

/// How far a queued node lies from the agent's node. A key `stored` that is
/// not below the key of the agent's node, and not above the key of a node
/// with lower estimate `low_n` and a heuristic of at most `d`, shows that
/// `low_n` and `d` together exceed the `rhs` of the agent's node.
pub proof fn lemma_keys_apart(
    rhs_s: u64,
    h_ss: u64,
    km: u64,
    low_n: u64,
    h_sn: u64,
    stored: (u64, u64),
    d: int,
)
    requires
        rhs_s + km < u64::MAX,
        d >= 1,
        h_sn <= d,
        key_le((plus(plus(rhs_s, h_ss), km), rhs_s), stored),
        key_le(stored, (plus(plus(low_n, h_sn), km), low_n)),
    ensures
        rhs_s < low_n + d,
{
}

/// A key `stored` that is not below the key of the agent's node, and not
/// above the key of a node with lower estimate `low_n` and heuristic `h_sn`,
/// shows that `low_n` and `h_sn` together are not below the `rhs` of the
/// agent's node.
pub proof fn lemma_keys_close(rhs_s: u64, h_ss: u64, km: u64, low_n: u64, h_sn: u64, stored: (u64, u64))
    requires
        rhs_s + km < u64::MAX,
        key_le((plus(plus(rhs_s, h_ss), km), rhs_s), stored),
        key_le(stored, (plus(plus(low_n, h_sn), km), low_n)),
    ensures
        rhs_s <= low_n + h_sn,
{
}

/// A walk that begins with the edge `e` costs what `e` costs and what the
/// rest costs.
pub proof fn lemma_walk_cost_first(e: EdgeTo, rest: Seq<EdgeTo>)
    ensures
        walk_cost(seq![e] + rest) == e.cost + walk_cost(rest),
    decreases rest.len(),
{
    let whole = seq![e] + rest;
    assert(walk_cost(whole) == walk_cost(whole.drop_last()) + whole.last().cost);
    if rest.len() == 0 {
        assert(whole.drop_last().len() == 0);
        assert(walk_cost(whole.drop_last()) == 0);
        assert(whole.last() == e);
        assert(walk_cost(rest) == 0);
    } else {
        lemma_walk_cost_first(e, rest.drop_last());
        assert(whole.drop_last() == seq![e] + rest.drop_last());
        assert(whole.last() == rest.last());
        assert(walk_cost(rest) == walk_cost(rest.drop_last()) + rest.last().cost);
    }
}

impl Terrain {
    /// The `i`-th edge of the walk is an edge out of the node that the walk
    /// has reached before it.
    pub open spec fn leads_on(self, from: u64, steps: Seq<EdgeTo>, i: int) -> bool {
        self.succ(node_at(from, steps, i)).contains(steps[i])
    }

    /// The edges lead on from one another, starting at `from`.
    pub open spec fn is_walk(self, from: u64, steps: Seq<EdgeTo>) -> bool {
        forall|i: int| 0 <= i < steps.len() ==> #[trigger] self.leads_on(from, steps, i)
    }

    /// The heuristic from `a` to the end of a walk from `a` is not above the
    /// cost of the walk.
    pub open spec fn not_above_cost(self, a: u64, steps: Seq<EdgeTo>) -> bool {
        self.is_walk(a, steps) ==> self.h(a, walk_end(a, steps)) <= walk_cost(steps)
    }

    /// The heuristic from `a` is admissible: it is never more than a walk
    /// from `a` to the node costs.
    pub open spec fn admissible_from(self, a: u64) -> bool {
        forall|steps: Seq<EdgeTo>| #[trigger] self.not_above_cost(a, steps)
    }

    /// Every edge costs something.
    pub open spec fn costs_positive(self) -> bool {
        forall|s: u64, j: int| 0 <= j < self.succ(s).len() ==> (#[trigger] self.succ(s)[j]).cost >= 1
    }

    /// The beginning of a walk is a walk, and it ends where the walk has
    /// come to by then.
    pub proof fn lemma_walk_prefix(self, from: u64, steps: Seq<EdgeTo>, i: int)
        requires
            self.is_walk(from, steps),
            0 <= i <= steps.len(),
        ensures
            self.is_walk(from, steps.take(i)),
            walk_end(from, steps.take(i)) == node_at(from, steps, i),
    {
        let front = steps.take(i);
        assert forall|k: int| 0 <= k < front.len() implies #[trigger] self.leads_on(from, front, k) by {
            assert(self.leads_on(from, steps, k));
            assert(front[k] == steps[k]);
            assert(node_at(from, front, k) == node_at(from, steps, k));
        }
    }

    /// An admissible heuristic from `a` to a node on a walk from `a` is not
    /// above what the walk costs up to there.
    pub proof fn lemma_heuristic_below(self, a: u64, steps: Seq<EdgeTo>, i: int)
        requires
            self.admissible_from(a),
            self.is_walk(a, steps),
            0 <= i <= steps.len(),
        ensures
            self.h(a, node_at(a, steps, i)) <= walk_cost(steps.take(i)),
    {
        self.lemma_walk_prefix(a, steps, i);
        assert(self.not_above_cost(a, steps.take(i)));
    }

    /// A walk goes on by an edge out of the node at which it ends.
    pub proof fn lemma_walk_extends(self, from: u64, steps: Seq<EdgeTo>)
        requires
            steps.len() > 0,
            self.is_walk(from, steps.drop_last()),
            self.succ(walk_end(from, steps.drop_last())).contains(steps.last()),
        ensures
            self.is_walk(from, steps),
    {
        let front = steps.drop_last();
        assert forall|i: int| 0 <= i < steps.len() implies #[trigger] self.leads_on(from, steps, i) by {
            if i < front.len() {
                assert(self.leads_on(from, front, i));
                assert(front[i] == steps[i]);
                assert(node_at(from, front, i) == node_at(from, steps, i));
            } else {
                assert(walk_end(from, front) == node_at(from, steps, i));
            }
        }
    }
}

impl<H, S, P> DStarLite<H, S, P> where
    H: Fn(&u64, &u64) -> u64,
    S: Fn(&u64) -> Vec<EdgeTo>,
    P: Fn(&u64) -> Vec<EdgeTo>,
 {
    /// The edge that the agent takes out of a node in the terrain `m`: the
    /// first, in the order in which the terrain lists them, among those
    /// through which the cost to the goal is least.
    pub open spec fn chosen_in(&self, m: Terrain, n: u64) -> EdgeTo {
        m.succ(n)[first_least(self.scores(), m.succ(n))]
    }

    /// Where the agent can step, `try_next` takes the edge chosen in the
    /// terrain that the planner's functions compute.
    pub proof fn law_try_next_takes_chosen(&self, m: Terrain)
        requires
            self.oracle_ok(),
            self.models(m),
            edges_return(self.successors, self.start),
        ensures
            self.next_step() == self.chosen_in(m, self.start).target,
            self.chosen_edge(self.start) == self.chosen_in(m, self.start),
    {
        self.lemma_model_succ(m, self.start);
    }

    /// A planner whose scores are consistent with the terrain that its
    /// functions compute can take the next step wherever there is a way on:
    /// what `try_next` asks for holds.
    pub proof fn law_can_step(&self, m: Terrain)
        requires
            self.coherent_in(m),
        ensures
            self.has_way() ==> self.can_step(self.start),
    {
        if self.has_way() {
            self.lemma_chosen_edge(m, self.start);
        }
    }

    /// The `i`-th edge of the walk is the one that the agent takes at the
    /// node that the walk has reached before it, which is not the goal.
    pub open spec fn agent_leads_on(&self, m: Terrain, from: u64, steps: Seq<EdgeTo>, i: int) -> bool {
        node_at(from, steps, i) != self.goal && steps[i] == self.chosen_in(m, node_at(from, steps, i))
    }

    /// The edges are the ones that the agent takes, one `try_next` after the
    /// other, starting at `from`.
    pub open spec fn is_agent_walk(&self, m: Terrain, from: u64, steps: Seq<EdgeTo>) -> bool {
        forall|i: int| 0 <= i < steps.len() ==> #[trigger] self.agent_leads_on(m, from, steps, i)
    }

    /// The planner has replanned since the agent last moved and the search
    /// has converged: the invariant holds, the scores are consistent with
    /// the terrain `m`, no queued key is too high for it, and the anchor is
    /// the agent's node.
    pub open spec fn settled_in(&self, m: Terrain) -> bool {
        &&& self.wf()
        &&& self.coherent_in(m)
        &&& self.keyed_in(m)
        &&& self.converged()
        &&& self.start == self.start_last
    }

    /// A way of this cost is within what the keys can tell from infinity:
    /// its cost and the key modifier together stay below `u64::MAX`.
    pub open spec fn within_keys(&self, cost: int) -> bool {
        cost + self.k_m < u64::MAX
    }

    /// For a walk from the agent's node to the goal and a place `i` on it:
    /// the `rhs` of the node at that place is no more than the rest of the
    /// walk costs, or the `rhs` of the agent's node is no more than the whole
    /// walk costs.
    proof fn lemma_rest_of_walk(&self, m: Terrain, steps: Seq<EdgeTo>, i: int)
        requires
            self.settled_in(m),
            m.admissible_from(self.start),
            m.is_walk(self.start, steps),
            walk_end(self.start, steps) == self.goal,
            self.within_keys(walk_cost(steps)),
            0 <= i <= steps.len(),
        ensures
            self.rhs(node_at(self.start, steps, i)) <= walk_cost(steps) - walk_cost(steps.take(i)) || self.rhs(
                self.start,
            ) <= walk_cost(steps),
        decreases steps.len() - i,
    {
        let total = walk_cost(steps);
        lemma_walk_cost_prefix(steps, i);
        if i == steps.len() {
            assert(steps.take(i) == steps);
        } else if self.rhs(self.start) > total {
            self.lemma_rest_of_walk(m, steps, i + 1);
            let n = node_at(self.start, steps, i);
            let next = node_at(self.start, steps, i + 1);
            let rest = total - walk_cost(steps.take(i + 1));
            if n != self.goal {
                assert(m.leads_on(self.start, steps, i));
                let j = choose|j: int| 0 <= j < m.succ(n).len() && m.succ(n)[j] == steps[i];
                assert(self.lookahead_in(m, n));
                lemma_least_through(self.scores(), m.succ(n));
                assert(self.rhs(n) <= through(self.scores(), m.succ(n)[j]));
                if self.g(next) > rest {
                    assert(self.tracks(next));
                    assert(self.queued().contains_key(next));
                    m.lemma_heuristic_below(self.start, steps, i + 1);
                    assert(key_le(self.key_of(self.start), self.queued()[next]));
                    assert(key_le(self.queued()[next], self.key_over(m, self.start_last, next)));
                    assert(false);
                }
            }
        }
    }

    /// No way to the goal is cheaper than the planner says: once the planner
    /// has settled, every walk from the agent's node to the goal costs at
    /// least the `rhs` of the agent's node. This holds for a heuristic that
    /// is admissible from the agent's node, and of walks whose cost the keys
    /// can tell from infinity.
    pub proof fn law_no_cheaper_walk(&self, m: Terrain, steps: Seq<EdgeTo>)
        requires
            self.settled_in(m),
            m.admissible_from(self.start),
            m.is_walk(self.start, steps),
            walk_end(self.start, steps) == self.goal,
            self.within_keys(walk_cost(steps)),
        ensures
            self.rhs(self.start) <= walk_cost(steps),
    {
        self.lemma_rest_of_walk(m, steps, 0);
        assert(steps.take(0).len() == 0);
    }

    /// What the agent still has before it after a walk: the `rhs` of its
    /// node where it has not moved yet, the `g` of the node it has reached
    /// where it has.
    pub open spec fn cost_to_go(&self, steps: Seq<EdgeTo>) -> u64 {
        if steps.len() == 0 {
            self.rhs(self.start)
        } else {
            self.g(walk_end(self.start, steps))
        }
    }

    /// A node that the agent can reach from its own node at a cost `d`, and
    /// whose `g` and `d` together are no more than the `rhs` of the agent's
    /// node, is not queued, where `d` is at least one or no node's `rhs` is
    /// above its `g`.
    proof fn lemma_on_the_way_is_consistent(&self, m: Terrain, n: u64, d: int)
        requires
            self.settled_in(m),
            self.within_keys(self.rhs(self.start) as int),
            d >= 1 || (d >= 0 && self.never_under()),
            m.h(self.start, n) <= d,
            self.g(n) + d <= self.rhs(self.start),
        ensures
            self.g(n) == self.rhs(n),
    {
        if self.g(n) != self.rhs(n) {
            assert(self.tracks(n));
            let stored = self.queued()[n];
            assert(self.queued().contains_key(n));
            assert(key_le(self.key_of(self.start), stored));
            assert(key_le(stored, self.key_over(m, self.start_last, n)));
            let low = if self.g(n) < self.rhs(n) {
                self.g(n)
            } else {
                self.rhs(n)
            };
            if d >= 1 {
                lemma_keys_apart(
                    self.rhs(self.start),
                    self.h(self.start, self.start),
                    self.k_m,
                    low,
                    m.h(self.start, n),
                    stored,
                    d,
                );
            } else {
                assert(self.not_under(n));
                lemma_keys_close(
                    self.rhs(self.start),
                    self.h(self.start, self.start),
                    self.k_m,
                    low,
                    m.h(self.start, n),
                    stored,
                );
            }
        }
    }

    /// The edge that the agent takes out of a node that is not the goal and
    /// has a finite `rhs` is an edge out of that node, and the `rhs` is the
    /// edge's cost plus the `g` of the node it leads to.
    proof fn lemma_chosen_edge(&self, m: Terrain, n: u64)
        requires
            self.consistent_in(m),
            n != self.goal,
            self.rhs(n) != infinity(),
        ensures
            m.succ(n).len() > 0,
            m.succ(n).contains(self.chosen_in(m, n)),
            self.rhs(n) == self.chosen_in(m, n).cost + self.g(self.chosen_in(m, n).target),
    {
        assert(self.lookahead_in(m, n));
        lemma_first_least(self.scores(), m.succ(n));
    }

    /// A walk of the agent without its last step is a walk of the agent, and
    /// the last step is the edge taken at the node before it.
    proof fn lemma_agent_walk_front(&self, m: Terrain, steps: Seq<EdgeTo>)
        requires
            steps.len() > 0,
            self.is_agent_walk(m, self.start, steps),
        ensures
            self.is_agent_walk(m, self.start, steps.drop_last()),
            walk_end(self.start, steps.drop_last()) != self.goal,
            steps.last() == self.chosen_in(m, walk_end(self.start, steps.drop_last())),
            walk_end(self.start, steps) == steps.last().target,
            walk_cost(steps) == walk_cost(steps.drop_last()) + steps.last().cost,
    {
        let front = steps.drop_last();
        assert forall|i: int| 0 <= i < front.len() implies #[trigger] self.agent_leads_on(
            m,
            self.start,
            front,
            i,
        ) by {
            assert(self.agent_leads_on(m, self.start, steps, i));
            assert(steps[i] == front[i]);
            assert(node_at(self.start, front, i) == node_at(self.start, steps, i));
        }
        let last = steps.len() - 1;
        assert(self.agent_leads_on(m, self.start, steps, last));
        assert(walk_end(self.start, front) == node_at(self.start, steps, last));
    }

    /// The beginning of a walk of the agent is a walk of the agent.
    proof fn lemma_agent_walk_prefix(&self, m: Terrain, steps: Seq<EdgeTo>, i: int)
        requires
            self.is_agent_walk(m, self.start, steps),
            0 <= i <= steps.len(),
        ensures
            self.is_agent_walk(m, self.start, steps.take(i)),
            walk_end(self.start, steps.take(i)) == node_at(self.start, steps, i),
    {
        let front = steps.take(i);
        assert forall|k: int| 0 <= k < front.len() implies #[trigger] self.agent_leads_on(
            m,
            self.start,
            front,
            k,
        ) by {
            assert(self.agent_leads_on(m, self.start, steps, k));
            assert(front[k] == steps[k]);
            assert(node_at(self.start, front, k) == node_at(self.start, steps, k));
        }
    }

    /// The agent's steps add up: once the planner has settled, with a
    /// heuristic that is admissible from the agent's node and a finite key
    /// at the agent's node, the steps that `try_next` hands out form a walk;
    /// what they cost and the `g` of the node reached add up to the `rhs` of
    /// the node the agent set out from; every node reached is consistent;
    /// and the agent can go on from every node but the goal. This holds
    /// where every edge costs something, and, whatever the edges cost, of a
    /// planner whose terrain has not changed since it was made. Where every
    /// edge costs something the agent has arrived after at most `rhs` steps.
    pub proof fn law_agent_walk(&self, m: Terrain, steps: Seq<EdgeTo>)
        requires
            self.settled_in(m),
            m.admissible_from(self.start),
            m.costs_positive() || self.never_under(),
            self.within_keys(self.rhs(self.start) as int),
            self.is_agent_walk(m, self.start, steps),
        ensures
            m.is_walk(self.start, steps),
            walk_cost(steps) + self.cost_to_go(steps) == self.rhs(self.start),
            m.costs_positive() ==> steps.len() <= walk_cost(steps),
            steps.len() > 0 ==> self.g(walk_end(self.start, steps)) == self.rhs(walk_end(self.start, steps)),
            walk_end(self.start, steps) != self.goal ==> self.rhs(walk_end(self.start, steps)) != infinity()
                && m.succ(walk_end(self.start, steps)).len() > 0,
            walk_end(self.start, steps) == self.goal ==> walk_cost(steps) == self.rhs(self.start),
        decreases steps.len(),
    {
        let end = walk_end(self.start, steps);
        if steps.len() > 0 {
            let front = steps.drop_last();
            let n = walk_end(self.start, front);
            let e = steps.last();
            self.lemma_agent_walk_front(m, steps);
            self.law_agent_walk(m, front);
            self.lemma_chosen_edge(m, n);
            m.lemma_walk_extends(self.start, steps);
            lemma_walk_cost_nonnegative(front);
            if m.costs_positive() {
                let j = choose|j: int| 0 <= j < m.succ(n).len() && m.succ(n)[j] == e;
                assert(m.succ(n)[j].cost >= 1);
            }
            assert(self.cost_to_go(front) == self.rhs(n));
            m.lemma_heuristic_below(self.start, steps, steps.len() as int);
            assert(steps.take(steps.len() as int) == steps);
            self.lemma_on_the_way_is_consistent(m, end, walk_cost(steps));
        }
        if end != self.goal {
            self.lemma_chosen_edge(m, end);
        } else {
            assert(self.rhs(self.goal) == 0);
        }
    }

    /// The agent arrives by a cheapest way: once the planner has settled,
    /// under the conditions of `law_agent_walk`, steps handed out by
    /// `try_next` that end at the goal cost exactly the `rhs` of the node the
    /// agent set out from, and no walk from that node to the goal costs less.
    pub proof fn law_agent_takes_cheapest_walk(&self, m: Terrain, steps: Seq<EdgeTo>, other: Seq<EdgeTo>)
        requires
            self.settled_in(m),
            m.admissible_from(self.start),
            m.costs_positive() || self.never_under(),
            self.within_keys(self.rhs(self.start) as int),
            self.is_agent_walk(m, self.start, steps),
            walk_end(self.start, steps) == self.goal,
            m.is_walk(self.start, other),
            walk_end(self.start, other) == self.goal,
        ensures
            m.is_walk(self.start, steps),
            walk_cost(steps) == self.rhs(self.start),
            walk_cost(steps) <= walk_cost(other),
    {
        self.law_agent_walk(m, steps);
        if self.within_keys(walk_cost(other)) {
            self.law_no_cheaper_walk(m, other);
        }
    }

    /// The agent comes to a node a second time only by edges that cost
    /// nothing: under the conditions of `law_agent_walk`, where the steps
    /// handed out by `try_next` come to the same node after `i` and after
    /// `j` steps, the steps between cost nothing. So the agent fails to
    /// arrive only where it walks round a cycle of zero-cost edges.
    pub proof fn law_agent_returns_only_at_no_cost(&self, m: Terrain, steps: Seq<EdgeTo>, i: int, j: int)
        requires
            self.settled_in(m),
            m.admissible_from(self.start),
            m.costs_positive() || self.never_under(),
            self.within_keys(self.rhs(self.start) as int),
            self.is_agent_walk(m, self.start, steps),
            0 <= i < j <= steps.len(),
            node_at(self.start, steps, i) == node_at(self.start, steps, j),
        ensures
            walk_cost(steps.take(j)) == walk_cost(steps.take(i)),
    {
        self.lemma_agent_walk_prefix(m, steps, i);
        self.lemma_agent_walk_prefix(m, steps, j);
        self.law_agent_walk(m, steps.take(i));
        self.law_agent_walk(m, steps.take(j));
    }

    /// The agent's next step lies on a cheapest way: once the planner has
    /// settled, under the conditions of `law_agent_walk`, the edge that
    /// `try_next` takes from a node that is not the goal and has a finite
    /// `rhs` leads to a consistent node; the edge's cost and that node's `g`
    /// add up to the `rhs` of the agent's node; and no walk from that node
    /// to the goal costs less than that `g`.
    pub proof fn law_next_step_on_cheapest_way(&self, m: Terrain, other: Seq<EdgeTo>)
        requires
            self.settled_in(m),
            m.admissible_from(self.start),
            m.costs_positive() || self.never_under(),
            self.within_keys(self.rhs(self.start) as int),
            self.start != self.goal,
            m.is_walk(self.chosen_in(m, self.start).target, other),
            walk_end(self.chosen_in(m, self.start).target, other) == self.goal,
        ensures
            m.succ(self.start).contains(self.chosen_in(m, self.start)),
            self.chosen_in(m, self.start).cost + self.g(self.chosen_in(m, self.start).target) == self.rhs(
                self.start,
            ),
            self.g(self.chosen_in(m, self.start).target) == self.rhs(self.chosen_in(m, self.start).target),
            self.g(self.chosen_in(m, self.start).target) <= walk_cost(other),
    {
        let e = self.chosen_in(m, self.start);
        let first = seq![e];
        assert(self.agent_leads_on(m, self.start, first, 0));
        self.law_agent_walk(m, first);
        assert(first.drop_last().len() == 0);
        assert(walk_cost(first.drop_last()) == 0);
        assert(walk_cost(first) == walk_cost(first.drop_last()) + first.last().cost);
        assert(m.leads_on(self.start, first, 0));
        assert(walk_end(self.start, first) == e.target);
        let whole = first + other;
        lemma_walk_cost_first(e, other);
        assert(m.is_walk(self.start, whole)) by {
            assert forall|k: int| 0 <= k < whole.len() implies #[trigger] m.leads_on(self.start, whole, k) by {
                if k > 0 {
                    assert(m.leads_on(e.target, other, k - 1));
                    assert(whole[k] == other[k - 1]);
                    assert(node_at(self.start, whole, k) == node_at(e.target, other, k - 1));
                }
            }
        }
        if self.within_keys(walk_cost(whole)) {
            self.law_no_cheaper_walk(m, whole);
        }
    }

    /// The agent's steps can be carried on to the goal: under the conditions
    /// of `law_agent_walk` with edges that all cost something, steps handed
    /// out by `try_next` are the beginning of such steps that end at the
    /// goal.
    pub proof fn lemma_agent_reaches_goal(&self, m: Terrain, steps: Seq<EdgeTo>) -> (whole: Seq<EdgeTo>)
        requires
            self.settled_in(m),
            m.admissible_from(self.start),
            m.costs_positive(),
            self.within_keys(self.rhs(self.start) as int),
            self.is_agent_walk(m, self.start, steps),
        ensures
            self.is_agent_walk(m, self.start, whole),
            walk_end(self.start, whole) == self.goal,
            steps.len() <= whole.len(),
            whole.take(steps.len() as int) == steps,
        decreases self.rhs(self.start) - walk_cost(steps),
    {
        self.law_agent_walk(m, steps);
        let end = walk_end(self.start, steps);
        if end == self.goal {
            assert(steps.take(steps.len() as int) == steps);
            steps
        } else {
            self.lemma_chosen_edge(m, end);
            let e = self.chosen_in(m, end);
            let next = steps.push(e);
            assert(e.cost >= 1) by {
                let j = choose|j: int| 0 <= j < m.succ(end).len() && m.succ(end)[j] == e;
                assert(m.succ(end)[j].cost >= 1);
            }
            assert(next.drop_last() == steps);
            assert forall|i: int| 0 <= i < next.len() implies #[trigger] self.agent_leads_on(
                m,
                self.start,
                next,
                i,
            ) by {
                if i < steps.len() {
                    assert(self.agent_leads_on(m, self.start, steps, i));
                    assert(next[i] == steps[i]);
                    assert(node_at(self.start, next, i) == node_at(self.start, steps, i));
                } else {
                    assert(node_at(self.start, next, i) == end);
                }
            }
            self.law_agent_walk(m, next);
            let whole = self.lemma_agent_reaches_goal(m, next);
            assert(whole.take(steps.len() as int) == steps) by {
                assert(whole.take(next.len() as int).take(steps.len() as int) == whole.take(steps.len() as int));
                assert(next.take(steps.len() as int) == steps);
            }
            whole
        }
    }

    /// Replanning and planning afresh agree: two planners over the same
    /// terrain, for the same goal and with the agent on the same node, that
    /// have both settled, give the agent's node the same `rhs`, however
    /// each of them came to its scores. This holds for a heuristic that is
    /// admissible from the agent's node, edges that all cost something, and
    /// a finite key at the agent's node in both planners.
    pub proof fn law_planners_agree(&self, other: &Self, m: Terrain)
        requires
            self.settled_in(m),
            other.settled_in(m),
            self.start == other.start,
            self.goal == other.goal,
            m.admissible_from(self.start),
            m.costs_positive(),
            self.within_keys(self.rhs(self.start) as int),
            other.within_keys(other.rhs(self.start) as int),
        ensures
            self.rhs(self.start) == other.rhs(self.start),
    {
        let mine = self.lemma_agent_reaches_goal(m, Seq::empty());
        let theirs = other.lemma_agent_reaches_goal(m, Seq::empty());
        self.law_agent_walk(m, mine);
        other.law_agent_walk(m, theirs);
        self.law_agent_takes_cheapest_walk(m, mine, theirs);
        other.law_agent_takes_cheapest_walk(m, theirs, mine);
    }
}

} // verus!
