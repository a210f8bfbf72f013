//! What holds between searches on related graphs.
use crate::graph::{without, lemma_without_contains, Edge, Graph, INFINITY};
use crate::path::{is_distance, is_walk, walk_cost, walk_end};
use crate::shortest_path::is_search_result;
use vstd::prelude::*;

verus! {

/// Two graphs whose nodes list the same edge handles (in any order and
/// number) and whose edges are the same have the same walks, at the same cost.
pub proof fn lemma_walks_agree(g1: Graph, g2: Graph, s: int, p: Seq<usize>)
    requires
        g1.node_count() == g2.node_count(),
        g1.edges@ == g2.edges@,
        forall|u: int, h: usize| 0 <= u < g1.node_count() ==> #[trigger] g1.out(u).contains(h) == g2.out(u).contains(h),
    ensures
        is_walk(g1, s, p) == is_walk(g2, s, p),
        walk_cost(g1, p) == walk_cost(g2, p),
    decreases p.len(),
{
    if p.len() > 0 {
        lemma_walks_agree(g1, g2, s, p.drop_last());
        let x = walk_end(g1, s, p.drop_last());
        if 0 <= x < g1.node_count() {
            assert(g1.out(x).contains(p.last()) == g2.out(x).contains(p.last()));
        }
    }
}

/// There is one shortest distance: two values that both are it are equal.
pub proof fn lemma_distance_unique(g: Graph, s: int, v: int, d1: int, d2: int)
    requires
        is_distance(g, s, v, d1),
        is_distance(g, s, v, d2),
    ensures
        d1 == d2,
{
    if d1 < INFINITY {
        let p = choose|p: Seq<usize>| #[trigger] is_walk(g, s, p) && walk_end(g, s, p) == v && walk_cost(g, p) == d1;
        assert(d2 <= walk_cost(g, p));
    }
    if d2 < INFINITY {
        let p = choose|p: Seq<usize>| #[trigger] is_walk(g, s, p) && walk_end(g, s, p) == v && walk_cost(g, p) == d2;
        assert(d1 <= walk_cost(g, p));
    }
}

/// Over graphs with the same walks at the same costs, a shortest distance of
/// the one is a shortest distance of the other.
pub proof fn lemma_distance_agree(g1: Graph, g2: Graph, s: int, v: int, d: int)
    requires
        g1.node_count() == g2.node_count(),
        g1.edges@ == g2.edges@,
        forall|u: int, h: usize| 0 <= u < g1.node_count() ==> #[trigger] g1.out(u).contains(h) == g2.out(u).contains(h),
        is_distance(g2, s, v, d),
    ensures
        is_distance(g1, s, v, d),
{
    if d < INFINITY {
        let p = choose|p: Seq<usize>| #[trigger] is_walk(g2, s, p) && walk_end(g2, s, p) == v && walk_cost(g2, p) == d;
        lemma_walks_agree(g1, g2, s, p);
        assert(is_walk(g1, s, p) && walk_end(g1, s, p) == v && walk_cost(g1, p) == d);
    }
    assert forall|p: Seq<usize>| #[trigger] is_walk(g1, s, p) && walk_end(g1, s, p) == v implies d <= walk_cost(g1, p) by {
        lemma_walks_agree(g1, g2, s, p);
    }
}

/// Idempotence: two searches from the same start on graphs of the same shape
/// (say, the second after a reset) record the same distance on every node,
/// and leave the same nodes without a predecessor.
pub proof fn lemma_search_repeatable(g1: Graph, g2: Graph, s: int, r1: Graph, r2: Graph)
    requires
        g2.same_shape(g1),
        is_search_result(g1, s, r1),
        is_search_result(g2, s, r2),
    ensures
        forall|v: int| 0 <= v < g1.node_count() ==> #[trigger] r1.cost(v) == r2.cost(v),
        forall|v: int| 0 <= v < g1.node_count() ==> (#[trigger] r1.prev(v)).is_none() == r2.prev(v).is_none(),
{
    assert forall|u: int, h: usize| 0 <= u < g1.node_count() implies #[trigger] g1.out(u).contains(h) == g2.out(u).contains(h) by {
        assert(g2.out(u) == g1.out(u));
    }
    assert forall|v: int| 0 <= v < g1.node_count() implies #[trigger] r1.cost(v) == r2.cost(v) by {
        lemma_distance_agree(g1, g2, s, v, r2.cost(v));
        lemma_distance_unique(g1, s, v, r1.cost(v), r2.cost(v));
    }
}

/// Round trip: taking an edge out of a node's list and adding it back leaves
/// every node's distance from `s` (and so which nodes are reached) as it was.
/// `g1` is `g0` after `remove_edge(u, h)`, `g2` is `g1` after `add_edge(u, h)`.
pub proof fn lemma_remove_then_add_edge(
    g0: Graph,
    g1: Graph,
    g2: Graph,
    u: int,
    h: usize,
    s: int,
    r0: Graph,
    r2: Graph,
)
    requires
        0 <= u < g0.node_count(),
        g0.out(u).contains(h),
        g1.edges@ == g0.edges@,
        g1.nodes@ == g0.nodes@.update(u, g1.nodes@[u]),
        g1.out(u) == without(g0.out(u), h),
        g2.edges@ == g1.edges@,
        g2.nodes@ == g1.nodes@.update(u, g2.nodes@[u]),
        g2.out(u) == g1.out(u).push(h),
        is_search_result(g0, s, r0),
        is_search_result(g2, s, r2),
    ensures
        forall|v: int| 0 <= v < g0.node_count() ==> #[trigger] r0.cost(v) == r2.cost(v),
{
    lemma_without_contains(g0.out(u), h);
    assert forall|x: int, e: usize| 0 <= x < g0.node_count() implies #[trigger] g0.out(x).contains(e) == g2.out(x).contains(e) by {
        if x == u {
            if e == h {
                assert(g2.out(u)[g2.out(u).len() - 1] == h);
            } else if g2.out(u).contains(e) {
                let j = choose|j: int| 0 <= j < g2.out(u).len() && g2.out(u)[j] == e;
                assert(g1.out(u)[j] == e);
                assert(g1.out(u).contains(e));
            } else if g1.out(u).contains(e) {
                let j = choose|j: int| 0 <= j < g1.out(u).len() && g1.out(u)[j] == e;
                assert(g2.out(u)[j] == e);
            }
        } else {
            assert(g2.nodes@[x] == g0.nodes@[x]);
        }
    }
    assert forall|v: int| 0 <= v < g0.node_count() implies #[trigger] r0.cost(v) == r2.cost(v) by {
        lemma_distance_agree(g0, g2, s, v, r2.cost(v));
        lemma_distance_unique(g0, s, v, r0.cost(v), r2.cost(v));
    }
}

/// Lowering the weight of an edge keeps every walk, at no greater cost.
pub proof fn lemma_walk_lighter(g0: Graph, g1: Graph, h: usize, w: usize, s: int, p: Seq<usize>)
    requires
        (h as int) < g0.edges@.len(),
        w <= g0.edges@[h as int].weight,
        g1.nodes@ == g0.nodes@,
        g1.edges@ == g0.edges@.update(h as int, Edge { weight: w, node: g0.edges@[h as int].node }),
        is_walk(g0, s, p),
    ensures
        is_walk(g1, s, p),
        walk_end(g1, s, p) == walk_end(g0, s, p),
        walk_cost(g1, p) <= walk_cost(g0, p),
    decreases p.len(),
{
    if p.len() > 0 {
        lemma_walk_lighter(g0, g1, h, w, s, p.drop_last());
        assert(g1.out(walk_end(g0, s, p.drop_last())) == g0.out(walk_end(g0, s, p.drop_last())));
    }
}

/// Lowering the weight of an edge before a search gives no node a greater
/// distance than the search on the graph as it was. `g1` is `g0` after
/// `change_weight(h, w)`.
pub proof fn lemma_lower_weight_no_farther(g0: Graph, g1: Graph, h: usize, w: usize, s: int, r0: Graph, r1: Graph)
    requires
        (h as int) < g0.edges@.len(),
        w <= g0.edges@[h as int].weight,
        g1.nodes@ == g0.nodes@,
        g1.edges@ == g0.edges@.update(h as int, Edge { weight: w, node: g0.edges@[h as int].node }),
        is_search_result(g0, s, r0),
        is_search_result(g1, s, r1),
    ensures
        forall|v: int| 0 <= v < g0.node_count() ==> #[trigger] r1.cost(v) <= r0.cost(v),
{
    assert forall|v: int| 0 <= v < g0.node_count() implies #[trigger] r1.cost(v) <= r0.cost(v) by {
        assert(is_distance(g0, s, v, r0.cost(v)));
        assert(is_distance(g1, s, v, r1.cost(v)));
        if r0.cost(v) < INFINITY {
            let p = choose|p: Seq<usize>| #[trigger] is_walk(g0, s, p) && walk_end(g0, s, p) == v && walk_cost(g0, p) == r0.cost(v);
            lemma_walk_lighter(g0, g1, h, w, s, p);
        }
    }
}

} // verus!
