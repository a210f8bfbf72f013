//! Walks through a graph and what a shortest distance is.
//!
//! A walk from node `s` is the sequence of edge handles it follows: each edge
//! is listed by the node where the walk stands, and leads to the next one.
use crate::graph::{Graph, INFINITY};
use vstd::prelude::*;

verus! {

/// Where the walk `p` from `s` ends.
pub open spec fn walk_end(g: Graph, s: int, p: Seq<usize>) -> int {
    if p.len() == 0 {
        s
    } else {
        g.target_of(p.last())
    }
}

/// `p` is a walk from node `s` in `g`.
pub open spec fn is_walk(g: Graph, s: int, p: Seq<usize>) -> bool
    decreases p.len(),
{
    if p.len() == 0 {
        0 <= s < g.node_count()
    } else {
        &&& is_walk(g, s, p.drop_last())
        &&& 0 <= walk_end(g, s, p.drop_last()) < g.node_count()
        &&& (p.last() as int) < g.edges@.len()
        &&& g.out(walk_end(g, s, p.drop_last())).contains(p.last())
    }
}

/// The sum of the weights of the edges of `p`.
pub open spec fn walk_cost(g: Graph, p: Seq<usize>) -> int
    decreases p.len(),
{
    if p.len() == 0 {
        0
    } else {
        walk_cost(g, p.drop_last()) + g.weight_of(p.last())
    }
}

/// `d` is the shortest distance from `s` to `v`, as far as a `usize` below
/// `INFINITY` can hold it: no walk from `s` to `v` costs less than `d`, and
/// unless `d` is `INFINITY` one costs exactly `d`. So `d` is `INFINITY`
/// exactly when no walk reaches `v` for less than `INFINITY`.
pub open spec fn is_distance(g: Graph, s: int, v: int, d: int) -> bool {
    &&& 0 <= d <= INFINITY
    &&& forall|p: Seq<usize>| #[trigger] is_walk(g, s, p) && walk_end(g, s, p) == v ==> d <= walk_cost(g, p)
    &&& d < INFINITY ==> exists|p: Seq<usize>|
        #[trigger] is_walk(g, s, p) && walk_end(g, s, p) == v && walk_cost(g, p) == d
}

/// Node `u` reaches node `v` by one of its edges, and the distances `du`
/// and `dv` differ by that edge's weight.
pub open spec fn is_tight(g: Graph, u: int, v: int, du: int, dv: int) -> bool {
    &&& 0 <= u < g.node_count()
    &&& exists|h: usize|
        #[trigger] g.out(u).contains(h) && g.target_of(h) == v && dv == du + g.weight_of(h)
}

/// A walk of a well-formed graph ends at a node, and costs no less than nothing.
pub proof fn lemma_walk_end(g: Graph, s: int, p: Seq<usize>)
    requires
        g.wf(),
        is_walk(g, s, p),
    ensures
        0 <= walk_end(g, s, p) < g.node_count(),
        walk_cost(g, p) >= 0,
    decreases p.len(),
{
    if p.len() > 0 {
        lemma_walk_end(g, s, p.drop_last());
    }
}

/// A walk followed by an edge that leaves its end is a walk.
pub proof fn lemma_walk_push(g: Graph, s: int, p: Seq<usize>, h: usize)
    requires
        is_walk(g, s, p),
        0 <= walk_end(g, s, p) < g.node_count(),
        (h as int) < g.edges@.len(),
        g.out(walk_end(g, s, p)).contains(h),
    ensures
        is_walk(g, s, p.push(h)),
        walk_end(g, s, p.push(h)) == g.target_of(h),
        walk_cost(g, p.push(h)) == walk_cost(g, p) + g.weight_of(h),
{
    assert(p.push(h).drop_last() =~= p);
}

} // verus!
