//! The terrain as the planner knows it: edges with costs, handed out by
//! three functions of the caller's: a heuristic, the edges that leave a node
//! and the edges that enter it. Nodes are `u64` identifiers.

use vstd::prelude::*;

verus! {

/// A directed edge with its cost, as the search sees it: `predecessor` is the
/// end that lies toward the goal and `successor` the end whose lookahead runs
/// through the edge, so travelling along it leads from `successor` to
/// `predecessor`.
#[derive(Clone, Copy, Debug, PartialEq, Eq, Structural)]
pub struct Edge {
    pub predecessor: u64,
    pub successor: u64,
    pub cost: u64,
}

/// One entry of an edge enumeration: the node at the other end and the cost
/// of the edge.
#[derive(Clone, Copy, Debug, PartialEq, Eq, Structural)]
pub struct EdgeTo {
    pub target: u64,
    pub cost: u64,
}

/// What the heuristic returns for a pair of nodes.
pub open spec fn heuristic_value<H: Fn(&u64, &u64) -> u64>(h: H, a: u64, b: u64) -> u64 {
    choose|r: u64| h.ensures((&a, &b), r)
}

/// What an edge enumeration returns for a node.
pub open spec fn edges_of<S: Fn(&u64) -> Vec<EdgeTo>>(s: S, n: u64) -> Seq<EdgeTo> {
    (choose|r: Vec<EdgeTo>| s.ensures((&n,), r))@
}

/// The heuristic can be called on every pair of nodes and is a function of
/// them.
pub open spec fn heuristic_is_function<H: Fn(&u64, &u64) -> u64>(h: H) -> bool {
    &&& forall|a: u64, b: u64| #[trigger] h.requires((&a, &b))
    &&& forall|a: u64, b: u64, r: u64| #[trigger]
        h.ensures((&a, &b), r) ==> r == heuristic_value(h, a, b)
}

/// The enumeration can be called on every node and its result is a function
/// of the node.
pub open spec fn edges_is_function<S: Fn(&u64) -> Vec<EdgeTo>>(s: S) -> bool {
    &&& forall|n: u64| #[trigger] s.requires((&n,))
    &&& forall|n: u64, r: Vec<EdgeTo>| #[trigger]
        s.ensures((&n,), r) ==> r@ == edges_of(s, n)
}

/// The heuristic returns a value for the pair.
pub open spec fn heuristic_returns<H: Fn(&u64, &u64) -> u64>(h: H, a: u64, b: u64) -> bool {
    exists|r: u64| h.ensures((&a, &b), r)
}

/// The enumeration returns a list for the node.
pub open spec fn edges_return<S: Fn(&u64) -> Vec<EdgeTo>>(s: S, n: u64) -> bool {
    exists|r: Vec<EdgeTo>| s.ensures((&n,), r)
}

/// A terrain as a mathematical object: for every pair of nodes the value of
/// the heuristic, and for every node the edges that leave it and the edges
/// that enter it.
pub struct Terrain {
    pub heuristic: spec_fn(u64, u64) -> u64,
    pub successors: spec_fn(u64) -> Seq<EdgeTo>,
    pub predecessors: spec_fn(u64) -> Seq<EdgeTo>,
}

impl Terrain {
    /// The heuristic from `a` to `b`.
    pub open spec fn h(self, a: u64, b: u64) -> u64 {
        (self.heuristic)(a, b)
    }

    /// The edges that leave a node.
    pub open spec fn succ(self, n: u64) -> Seq<EdgeTo> {
        (self.successors)(n)
    }

    /// The edges that enter a node.
    pub open spec fn pred(self, n: u64) -> Seq<EdgeTo> {
        (self.predecessors)(n)
    }

    /// The `i`-th edge that leaves `n` is among the edges that enter its far
    /// end, with the same cost.
    pub open spec fn leaves_and_enters(self, n: u64, i: int) -> bool {
        self.pred(self.succ(n)[i].target).contains(EdgeTo { target: n, cost: self.succ(n)[i].cost })
    }

    /// The `i`-th edge that enters `n` is among the edges that leave its
    /// near end, with the same cost.
    pub open spec fn enters_and_leaves(self, n: u64, i: int) -> bool {
        self.succ(self.pred(n)[i].target).contains(EdgeTo { target: n, cost: self.pred(n)[i].cost })
    }

    /// The edges that leave nodes and the edges that enter nodes are the
    /// same edges.
    pub open spec fn agrees(self) -> bool {
        &&& forall|n: u64, i: int| 0 <= i < self.succ(n).len() ==> #[trigger] self.leaves_and_enters(n, i)
        &&& forall|n: u64, i: int| 0 <= i < self.pred(n).len() ==> #[trigger] self.enters_and_leaves(n, i)
    }
}

/// The three functions compute the terrain: whatever one of them returns is
/// what the terrain holds there. This follows from the functions'
/// postconditions.
pub open spec fn computes<H: Fn(&u64, &u64) -> u64, S: Fn(&u64) -> Vec<EdgeTo>, P: Fn(&u64) -> Vec<EdgeTo>>(
    heuristic: H,
    successors: S,
    predecessors: P,
    t: Terrain,
) -> bool {
    &&& forall|a: u64, b: u64, r: u64| #[trigger] heuristic.ensures((&a, &b), r) ==> r == t.h(a, b)
    &&& forall|n: u64, r: Vec<EdgeTo>| #[trigger] successors.ensures((&n,), r) ==> r@ == t.succ(n)
    &&& forall|n: u64, r: Vec<EdgeTo>| #[trigger] predecessors.ensures((&n,), r) ==> r@ == t.pred(n)
}

} // verus!
