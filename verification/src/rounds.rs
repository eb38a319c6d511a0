//! What one round of the planner's main loop does, as a relation between the
//! scores and the queue before it and after it, and what a run of rounds is.
//! The terrain enters through what its three functions return; each round
//! also says at which nodes they were called and returned.

use crate::open_queue::{key_le, key_lt};
use crate::scores::{g_in, least_through, lower_in, rhs_in, VertexScore};
use crate::terrain::{edges_of, edges_return, heuristic_returns, heuristic_value, EdgeTo};
use crate::weight::{infinity, plus};
use vstd::prelude::*;

verus! {

/// What a search goes by: the terrain functions, the agent's node, the goal
/// and the key modifier.
pub struct Setting<H, S, P> {
    pub heuristic: H,
    pub successors: S,
    pub predecessors: P,
    pub start: u64,
    pub goal: u64,
    pub k_m: u64,
}

/// The key of a node under the given scores.
pub open spec fn key_in<H: Fn(&u64, &u64) -> u64, S, P>(
    c: Setting<H, S, P>,
    scores: Map<u64, VertexScore>,
    n: u64,
) -> (u64, u64) {
    let low = lower_in(scores, n);
    (plus(plus(low, heuristic_value(c.heuristic, c.start, n)), c.k_m), low)
}

/// The queue after a node's place in it was brought in line with the given
/// scores: an inconsistent node is queued under its key, a consistent one is
/// not queued.
pub open spec fn requeue<H: Fn(&u64, &u64) -> u64, S, P>(
    c: Setting<H, S, P>,
    queued: Map<u64, (u64, u64)>,
    scores: Map<u64, VertexScore>,
    node: u64,
) -> Map<u64, (u64, u64)> {
    if g_in(scores, node) != rhs_in(scores, node) {
        queued.insert(node, key_in(c, scores, node))
    } else {
        queued.remove(node)
    }
}

/// Where a node is queued the heuristic has returned its part of the key.
pub open spec fn keyed<H: Fn(&u64, &u64) -> u64, S, P>(
    c: Setting<H, S, P>,
    scores: Map<u64, VertexScore>,
    node: u64,
) -> bool {
    g_in(scores, node) != rhs_in(scores, node) ==> heuristic_returns(c.heuristic, c.start, node)
}

/// One step of expanding a node whose `g` has come down to `g_u`: the node
/// at the near end of an edge into it has its `rhs` lowered to the cost
/// through that edge, where that is less, and its place in the queue brought
/// in line. The third part says that every call so far has returned.
pub open spec fn relax_one<H: Fn(&u64, &u64) -> u64, S, P>(
    c: Setting<H, S, P>,
    st: (Map<u64, VertexScore>, Map<u64, (u64, u64)>, bool),
    e: EdgeTo,
    g_u: u64,
) -> (Map<u64, VertexScore>, Map<u64, (u64, u64)>, bool) {
    let s = e.target;
    let scores = if plus(e.cost, g_u) < rhs_in(st.0, s) {
        st.0.insert(s, VertexScore { g: g_in(st.0, s), rhs: plus(e.cost, g_u) })
    } else {
        st.0
    };
    (scores, requeue(c, st.1, scores, s), st.2 && keyed(c, scores, s))
}

/// `relax_one` over the edges into a node, in their order.
pub open spec fn relax_all<H: Fn(&u64, &u64) -> u64, S, P>(
    c: Setting<H, S, P>,
    st: (Map<u64, VertexScore>, Map<u64, (u64, u64)>, bool),
    edges: Seq<EdgeTo>,
    g_u: u64,
) -> (Map<u64, VertexScore>, Map<u64, (u64, u64)>, bool)
    decreases edges.len(),
{
    if edges.len() == 0 {
        st
    } else {
        relax_one(c, relax_all(c, st, edges.drop_last(), g_u), edges.last(), g_u)
    }
}

/// One step of expanding a node whose `g`, until now `g_old`, is given up:
/// a node whose `rhs` was exactly `cost` plus `g_old`, and which is not the
/// goal, gets as `rhs` its lookahead over all its outgoing edges; then its
/// place in the queue is brought in line.
pub open spec fn look_again_one<H: Fn(&u64, &u64) -> u64, S: Fn(&u64) -> Vec<EdgeTo>, P>(
    c: Setting<H, S, P>,
    st: (Map<u64, VertexScore>, Map<u64, (u64, u64)>, bool),
    node: u64,
    cost: u64,
    g_old: u64,
) -> (Map<u64, VertexScore>, Map<u64, (u64, u64)>, bool) {
    let again = rhs_in(st.0, node) == plus(cost, g_old) && node != c.goal;
    let scores = if again {
        st.0.insert(
            node,
            VertexScore { g: g_in(st.0, node), rhs: least_through(st.0, edges_of(c.successors, node)) },
        )
    } else {
        st.0
    };
    (
        scores,
        requeue(c, st.1, scores, node),
        st.2 && (again ==> edges_return(c.successors, node)) && keyed(c, scores, node),
    )
}

/// `look_again_one` over the edges into a node, in their order.
pub open spec fn look_again_all<H: Fn(&u64, &u64) -> u64, S: Fn(&u64) -> Vec<EdgeTo>, P>(
    c: Setting<H, S, P>,
    st: (Map<u64, VertexScore>, Map<u64, (u64, u64)>, bool),
    edges: Seq<EdgeTo>,
    g_old: u64,
) -> (Map<u64, VertexScore>, Map<u64, (u64, u64)>, bool)
    decreases edges.len(),
{
    if edges.len() == 0 {
        st
    } else {
        look_again_one(
            c,
            look_again_all(c, st, edges.drop_last(), g_old),
            edges.last().target,
            edges.last().cost,
            g_old,
        )
    }
}

/// Scores and queue after the round in which the node `u` leaves the queue.
/// If the key that `u` was queued under is below its present key, `u` is
/// queued again under the present key. Else, if its `g` is above its `rhs`,
/// the `g` comes down to the `rhs` and the edges into `u` are relaxed. Else
/// the `g` becomes infinite, and the near ends of the edges into `u`, and
/// then `u` itself as if by an edge of cost zero, are looked at again. The
/// third part says that the heuristic and the enumerations returned at every
/// node that the round handed to them.
pub open spec fn round_of<
    H: Fn(&u64, &u64) -> u64,
    S: Fn(&u64) -> Vec<EdgeTo>,
    P: Fn(&u64) -> Vec<EdgeTo>,
>(c: Setting<H, S, P>, a: (Map<u64, VertexScore>, Map<u64, (u64, u64)>), u: u64) -> (
    Map<u64, VertexScore>,
    Map<u64, (u64, u64)>,
    bool,
) {
    let rest = a.1.remove(u);
    let g = g_in(a.0, u);
    let rhs = rhs_in(a.0, u);
    let keyed_u = heuristic_returns(c.heuristic, c.start, u);
    if key_lt(a.1[u], key_in(c, a.0, u)) {
        (a.0, rest.insert(u, key_in(c, a.0, u)), keyed_u)
    } else if g > rhs {
        let r = relax_all(
            c,
            (a.0.insert(u, VertexScore { g: rhs, rhs }), rest, true),
            edges_of(c.predecessors, u),
            rhs,
        );
        (r.0, r.1, r.2 && keyed_u && edges_return(c.predecessors, u))
    } else {
        let r = look_again_one(
            c,
            look_again_all(
                c,
                (a.0.insert(u, VertexScore { g: infinity(), rhs }), rest, true),
                edges_of(c.predecessors, u),
                g,
            ),
            u,
            0,
            g,
        );
        (r.0, r.1, r.2 && keyed_u && edges_return(c.predecessors, u))
    }
}

/// In the round from `a` to `b` the node `u` leaves the queue: it is queued
/// in `a` under a key that no queued key is below, and `b` is what the round
/// with `u` gives.
pub open spec fn takes<H: Fn(&u64, &u64) -> u64, S: Fn(&u64) -> Vec<EdgeTo>, P: Fn(&u64) -> Vec<EdgeTo>>(
    c: Setting<H, S, P>,
    a: (Map<u64, VertexScore>, Map<u64, (u64, u64)>),
    u: u64,
    b: (Map<u64, VertexScore>, Map<u64, (u64, u64)>),
) -> bool {
    &&& a.1.contains_key(u)
    &&& forall|n: u64| #[trigger] a.1.contains_key(n) ==> key_le(a.1[u], a.1[n])
    &&& round_of(c, a, u) == (b.0, b.1, true)
}

/// `b` comes from `a` by one round of the main loop.
pub open spec fn is_round<H: Fn(&u64, &u64) -> u64, S: Fn(&u64) -> Vec<EdgeTo>, P: Fn(&u64) -> Vec<EdgeTo>>(
    c: Setting<H, S, P>,
    a: (Map<u64, VertexScore>, Map<u64, (u64, u64)>),
    b: (Map<u64, VertexScore>, Map<u64, (u64, u64)>),
) -> bool {
    exists|u: u64| #[trigger] takes(c, a, u, b)
}

/// The search has nothing left to do: no queued key comes before the key of
/// the agent's node, and that node's `rhs` is not above its `g`.
pub open spec fn converged_in<H: Fn(&u64, &u64) -> u64, S, P>(
    c: Setting<H, S, P>,
    a: (Map<u64, VertexScore>, Map<u64, (u64, u64)>),
) -> bool {
    &&& forall|n: u64| #[trigger] a.1.contains_key(n) ==> key_le(key_in(c, a.0, c.start), a.1[n])
    &&& rhs_in(a.0, c.start) <= g_in(a.0, c.start)
}

/// The `i`-th state of the run has work left and the next state comes from
/// it by one round.
pub open spec fn run_step<H: Fn(&u64, &u64) -> u64, S: Fn(&u64) -> Vec<EdgeTo>, P: Fn(&u64) -> Vec<EdgeTo>>(
    c: Setting<H, S, P>,
    run: Seq<(Map<u64, VertexScore>, Map<u64, (u64, u64)>)>,
    i: int,
) -> bool {
    !converged_in(c, run[i]) && is_round(c, run[i], run[i + 1])
}

/// A run of the main loop: each state but the last has work left, and the
/// next comes from it by one round.
pub open spec fn is_run<H: Fn(&u64, &u64) -> u64, S: Fn(&u64) -> Vec<EdgeTo>, P: Fn(&u64) -> Vec<EdgeTo>>(
    c: Setting<H, S, P>,
    run: Seq<(Map<u64, VertexScore>, Map<u64, (u64, u64)>)>,
) -> bool {
    run.len() >= 1 && forall|i: int| 0 <= i < run.len() - 1 ==> #[trigger] run_step(c, run, i)
}

/// The main loop leads from `from` to `to` in exactly `rounds` rounds.
pub open spec fn searched<H: Fn(&u64, &u64) -> u64, S: Fn(&u64) -> Vec<EdgeTo>, P: Fn(&u64) -> Vec<EdgeTo>>(
    c: Setting<H, S, P>,
    from: (Map<u64, VertexScore>, Map<u64, (u64, u64)>),
    rounds: int,
    to: (Map<u64, VertexScore>, Map<u64, (u64, u64)>),
) -> bool {
    exists|run: Seq<(Map<u64, VertexScore>, Map<u64, (u64, u64)>)>| #[trigger]
        is_run(c, run) && run.len() == rounds + 1 && run[0] == from && run.last() == to
}

} // verus!
