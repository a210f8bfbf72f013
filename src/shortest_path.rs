//! Dijkstra's single-source shortest-path search over a `Graph`.
//!
//! The search keeps its state in tables of its own (distance, predecessor,
//! settled) and writes the outcome onto the nodes when it is done, so a run
//! never depends on what an earlier run left there.
use crate::frontier::{queue_contents, queue_is_empty, queue_new, queue_pop, queue_push};
use crate::graph::{Graph, INFINITY};
use crate::path::{is_distance, is_tight, is_walk, lemma_walk_end, lemma_walk_push, walk_cost, walk_end};
use vstd::prelude::*;
use vstd::set_lib::{lemma_int_range, set_int_range};

verus! {

/// Every node in the frontier is an unsettled node that has been reached,
/// queued with a priority that puts nearer nodes first.
pub open spec fn frontier_ok(q: Map<usize, usize>, n: int, dist: Seq<usize>, settled: Seq<bool>) -> bool {
    &&& forall|v: usize| #[trigger]
        q.contains_key(v) <==> ((v as int) < n && !settled[v as int] && dist[v as int] < INFINITY)
    &&& forall|v: usize| q.contains_key(v) ==> #[trigger] q[v] == INFINITY - dist[v as int]
}

/// Each reached node has a walk from `s` that costs its distance.
pub open spec fn witnessed(g: Graph, s: int, dist: Seq<usize>, wit: Seq<Seq<usize>>) -> bool {
    forall|v: int|
        0 <= v < g.node_count() && dist[v] < INFINITY ==> {
            &&& is_walk(g, s, #[trigger] wit[v])
            &&& walk_end(g, s, wit[v]) == v
            &&& walk_cost(g, wit[v]) == dist[v]
        }
}

/// A node has a predecessor unless it is the start or unreached; the
/// predecessor is settled and reaches it by the edge `used[v]`, whose weight
/// is the difference of their distances.
pub open spec fn preds_ok(
    g: Graph,
    s: int,
    dist: Seq<usize>,
    pred: Seq<Option<usize>>,
    settled: Seq<bool>,
    used: Seq<usize>,
) -> bool {
    &&& forall|v: int|
        0 <= v < g.node_count() ==> ((#[trigger] pred[v]).is_none() <==> (v == s || dist[v] == INFINITY))
    &&& forall|v: int|
        0 <= v < g.node_count() && (#[trigger] pred[v]).is_some() ==> {
            let u = pred[v].unwrap() as int;
            &&& 0 <= u < g.node_count()
            &&& settled[u]
            &&& g.out(u).contains(used[v])
            &&& g.target_of(used[v]) == v
            &&& dist[v] == dist[u] + g.weight_of(used[v])
        }
}

/// A settled node has been reached, and no walk to it is shorter than its distance.
pub open spec fn settled_ok(g: Graph, s: int, dist: Seq<usize>, settled: Seq<bool>) -> bool {
    &&& forall|v: int| 0 <= v < g.node_count() && #[trigger] settled[v] ==> dist[v] < INFINITY
    &&& forall|p: Seq<usize>|
        #[trigger] is_walk(g, s, p) && settled[walk_end(g, s, p)] ==> dist[walk_end(g, s, p)] <= walk_cost(g, p)
}

/// The edges of settled nodes towards unsettled ones have been relaxed: all
/// of them, but those of node `cur` from position `upto` on.
pub open spec fn relaxed(g: Graph, dist: Seq<usize>, settled: Seq<bool>, cur: int, upto: int) -> bool {
    forall|x: int, k: int|
        0 <= x < g.node_count() && settled[x] && 0 <= k < g.out(x).len() && (x != cur || k < upto)
            && !settled[g.target_of(#[trigger] g.out(x)[k])] ==> dist[g.target_of(g.out(x)[k])] <= dist[x]
            + g.weight_of(g.out(x)[k])
}

/// `u` stands before `v` in `order`.
pub open spec fn settled_before(order: Seq<usize>, u: usize, v: usize) -> bool {
    exists|i: int, j: int| 0 <= i < j < order.len() && #[trigger] order[i] == u && #[trigger] order[j] == v
}

/// `pos` gives each settled node's place in `order`, and a settled node's
/// predecessor was settled before it.
pub open spec fn ranked(order: Seq<usize>, settled: Seq<bool>, pred: Seq<Option<usize>>, pos: Seq<int>) -> bool {
    &&& pos.len() == settled.len()
    &&& forall|v: int| 0 <= v < settled.len() && #[trigger] settled[v] ==> 0 <= pos[v] < order.len() && order[pos[v]] == v
    &&& forall|v: int|
        0 <= v < settled.len() && #[trigger] settled[v] && pred[v].is_some() ==> pos[pred[v].unwrap() as int] < pos[v]
}

/// While the settled nodes' edges are relaxed, a walk from `s` that ends at an
/// unsettled node costs at least `b`, when `b` is at most the distance of
/// every reached unsettled node.
pub proof fn lemma_frontier_bound(
    g: Graph,
    s: int,
    dist: Seq<usize>,
    settled: Seq<bool>,
    b: int,
    p: Seq<usize>,
)
    requires
        g.wf(),
        0 <= s < g.node_count(),
        dist.len() == g.node_count(),
        settled.len() == g.node_count(),
        dist[s] == 0,
        b <= INFINITY,
        forall|v: int| 0 <= v < g.node_count() && !settled[v] && dist[v] < INFINITY ==> b <= #[trigger] dist[v],
        settled_ok(g, s, dist, settled),
        relaxed(g, dist, settled, -1, 0),
        is_walk(g, s, p),
        !settled[walk_end(g, s, p)],
    ensures
        b <= walk_cost(g, p),
    decreases p.len(),
{
    lemma_walk_end(g, s, p);
    if p.len() > 0 {
        let q = p.drop_last();
        let h = p.last();
        lemma_walk_end(g, s, q);
        let x = walk_end(g, s, q);
        let y = g.target_of(h);
        if settled[x] {
            let k = choose|k: int| 0 <= k < g.out(x).len() && g.out(x)[k] == h;
            assert(g.out(x)[k] == h);
            assert(is_walk(g, s, q) && settled[walk_end(g, s, q)]);
            assert(dist[x] <= walk_cost(g, q));
            assert(dist[y] <= dist[x] + g.weight_of(h));
            if dist[y] < INFINITY {
                assert(b <= dist[y]);
            }
        } else {
            lemma_frontier_bound(g, s, dist, settled, b, q);
        }
    }
}

/// `r` is what a search from `s` leaves on `g`: the same nodes and edges;
/// on each node its shortest distance from `s`; a predecessor on every
/// reached node but `s`, which reaches it by an edge whose weight is the
/// difference of their distances.
pub open spec fn is_search_result(g: Graph, s: int, r: Graph) -> bool {
    &&& r.same_shape(g)
    &&& forall|v: int| 0 <= v < g.node_count() ==> is_distance(g, s, v, #[trigger] r.cost(v))
    &&& forall|v: int|
        0 <= v < g.node_count() ==> ((#[trigger] r.prev(v)).is_none() <==> (v == s || r.cost(v) == INFINITY))
    &&& forall|v: int|
        0 <= v < g.node_count() && (#[trigger] r.prev(v)).is_some() ==> is_tight(
            g,
            r.prev(v).unwrap() as int,
            v,
            r.cost(r.prev(v).unwrap() as int),
            r.cost(v),
        )
}

impl Graph {
    /// Computes the shortest distance from `start` to every node and records
    /// it, with a predecessor, on each node; returns the nodes that were
    /// reached, in the order the search settled them. What an earlier search
    /// left on the nodes is overwritten.
    pub fn shortest_path(&mut self, start: usize) -> (r: Vec<usize>)
        requires
            old(self).wf(),
            start < old(self).node_count(),
        ensures
            final(self).wf(),
            is_search_result(*old(self), start as int, *final(self)),
            final(self).cost(start as int) == 0,
            forall|v: usize| #[trigger] r@.contains(v) <==> ((v as int) < old(self).node_count() && final(self).cost(v as int) < INFINITY),
            r@.no_duplicates(),
            forall|v: int|
                0 <= v < old(self).node_count() && (#[trigger] final(self).prev(v)).is_some() ==> settled_before(
                    r@,
                    final(self).prev(v).unwrap(),
                    v as usize,
                ),
    {
        let (dist, pred, order) = self.search(start);
        let n = self.nodes.len();
        let mut i: usize = 0;
        while i < n
            invariant
                n == self.node_count(),
                0 <= i <= n,
                dist@.len() == n,
                pred@.len() == n,
                self.same_shape(*old(self)),
                forall|v: int| 0 <= v < i ==> #[trigger] self.cost(v) == dist@[v],
                forall|v: int| 0 <= v < i ==> #[trigger] self.prev(v) == pred@[v],
            decreases n - i,
        {
            let ghost before = *self;
            self.nodes[i].value.set_cost_to_start(dist[i]);
            self.nodes[i].value.spf_prev = pred[i];
            proof {
                assert(forall|u: int| 0 <= u < self.node_count() && u != i ==> self.nodes@[u] == before.nodes@[u]);
                assert(self.out(i as int) == before.out(i as int));
                assert(self.nodes@[i as int].id == before.nodes@[i as int].id);
                assert(self.same_shape(before));
                assert(before.same_shape(*old(self)));
                assert forall|v: int| 0 <= v < i implies #[trigger] self.cost(v) == dist@[v] by {
                    assert(before.cost(v) == dist@[v]);
                    assert(self.nodes@[v] == before.nodes@[v]);
                }
                assert forall|v: int| 0 <= v < i implies #[trigger] self.prev(v) == pred@[v] by {
                    assert(before.prev(v) == pred@[v]);
                    assert(self.nodes@[v] == before.nodes@[v]);
                }
            }
            i = i + 1;
        }
        proof {
            assert forall|u: int, k: int|
                0 <= u < self.node_count() && 0 <= k < self.out(u).len() implies (#[trigger] self.out(u)[k] as int)
                < self.edges@.len() by {
                assert(self.out(u) == old(self).out(u));
            }
            assert forall|h: int| 0 <= h < self.edges@.len() implies (#[trigger] self.edges@[h]).node
                < self.node_count() by {
                assert(old(self).edges@[h].node < self.node_count());
            }
            assert(is_walk(*old(self), start as int, Seq::<usize>::empty()));
            assert(is_distance(*old(self), start as int, start as int, dist@[start as int] as int));
        }
        order
    }

    /// Runs the search from `start` on tables of its own and returns, for each
    /// node, its distance and predecessor, and the settled nodes in the order
    /// they were settled.
    fn search(&self, start: usize) -> (r: (Vec<usize>, Vec<Option<usize>>, Vec<usize>))
        requires
            self.wf(),
            start < self.node_count(),
        ensures
            r.0@.len() == self.node_count(),
            r.1@.len() == self.node_count(),
            forall|v: int| 0 <= v < self.node_count() ==> is_distance(*self, start as int, v, #[trigger] r.0@[v] as int),
            forall|v: int|
                0 <= v < self.node_count() ==> ((#[trigger] r.1@[v]).is_none() <==> (v == start || r.0@[v]
                    == INFINITY)),
            forall|v: int|
                0 <= v < self.node_count() && (#[trigger] r.1@[v]).is_some() ==> is_tight(
                    *self,
                    r.1@[v].unwrap() as int,
                    v,
                    r.0@[r.1@[v].unwrap() as int] as int,
                    r.0@[v] as int,
                ),
            forall|v: usize| #[trigger] r.2@.contains(v) <==> ((v as int) < self.node_count() && r.0@[v as int] < INFINITY),
            r.2@.no_duplicates(),
            forall|v: int|
                0 <= v < self.node_count() && (#[trigger] r.1@[v]).is_some() ==> settled_before(r.2@, r.1@[v].unwrap(), v as usize),
    {
        let n = self.nodes.len();
        let ghost g = *self;
        let ghost s = start as int;
        let mut dist: Vec<usize> = Vec::new();
        let mut pred: Vec<Option<usize>> = Vec::new();
        let mut settled: Vec<bool> = Vec::new();
        let mut i: usize = 0;
        while i < n
            invariant
                n == self.node_count(),
                0 <= i <= n,
                dist@.len() == i,
                pred@.len() == i,
                settled@.len() == i,
                forall|v: int| 0 <= v < i ==> #[trigger] dist@[v] == INFINITY,
                forall|v: int| 0 <= v < i ==> (#[trigger] pred@[v]).is_none(),
                forall|v: int| 0 <= v < i ==> !#[trigger] settled@[v],
            decreases n - i,
        {
            dist.push(INFINITY);
            pred.push(None);
            settled.push(false);
            i = i + 1;
        }
        dist.set(start, 0);
        let mut order: Vec<usize> = Vec::new();
        // The queue hands out its greatest priority first, so a node at
        // distance d is queued with priority INFINITY - d.
        let mut queue = queue_new();
        queue_push(&mut queue, start, INFINITY);
        let ghost mut wit: Seq<Seq<usize>> = Seq::new(n as nat, |v: int| Seq::<usize>::empty());
        let ghost mut used: Seq<usize> = Seq::new(n as nat, |v: int| 0usize);
        let ghost mut unsettled: Set<int> = set_int_range(0, n as int);
        let ghost mut pos: Seq<int> = Seq::new(n as nat, |v: int| 0int);
        proof {
            lemma_int_range(0, n as int);
            assert(is_walk(g, s, wit[s]));
            assert(frontier_ok(queue_contents(queue), n as int, dist@, settled@));
        }
        while !queue_is_empty(&queue)
            invariant
                g == *self,
                self.wf(),
                n == self.node_count(),
                0 <= s < n,
                s == start,
                dist@.len() == n,
                pred@.len() == n,
                settled@.len() == n,
                wit.len() == n,
                used.len() == n,
                dist@[s] == 0,
                frontier_ok(queue_contents(queue), n as int, dist@, settled@),
                witnessed(g, s, dist@, wit),
                preds_ok(g, s, dist@, pred@, settled@, used),
                settled_ok(g, s, dist@, settled@),
                relaxed(g, dist@, settled@, -1, 0),
                forall|v: usize| #[trigger] order@.contains(v) <==> ((v as int) < n && settled@[v as int]),
                order@.no_duplicates(),
                ranked(order@, settled@, pred@, pos),
                unsettled.finite(),
                forall|v: int| #[trigger] unsettled.contains(v) <==> (0 <= v < n && !settled@[v]),
            decreases unsettled.len(),
        {
            let ghost q0 = queue_contents(queue);
            let popped = queue_pop(&mut queue);
            let (u, priority) = popped.unwrap();
            let du = dist[u];
            proof {
                assert(q0.contains_key(u));
                assert forall|v: int| 0 <= v < n && !settled@[v] && dist@[v] < INFINITY implies du <= #[trigger] dist@[v] by {
                    assert(q0.contains_key(v as usize));
                    assert(q0[v as usize] <= priority);
                }
                assert forall|p: Seq<usize>| #[trigger] is_walk(g, s, p) && walk_end(g, s, p) == u implies du <= walk_cost(g, p) by {
                    lemma_frontier_bound(g, s, dist@, settled@, du as int, p);
                }
            }
            let ghost st0 = settled@;
            let ghost ord0 = order@;
            settled.set(u, true);
            order.push(u);
            proof {
                unsettled = unsettled.remove(u as int);
                pos = pos.update(u as int, ord0.len() as int);
                assert(order@[ord0.len() as int] == u);
                assert forall|v: int| 0 <= v < n && #[trigger] settled@[v] implies 0 <= pos[v] < order@.len()
                    && order@[pos[v]] == v by {
                    if v != u {
                        assert(st0[v]);
                    }
                }
                assert forall|v: int| 0 <= v < n && #[trigger] settled@[v] && pred@[v].is_some() implies pos[
                    pred@[v].unwrap() as int] < pos[v] by {
                    if v != u {
                        assert(st0[v]);
                        assert(st0[pred@[v].unwrap() as int]);
                    } else {
                        assert(st0[pred@[v].unwrap() as int]);
                    }
                }
                assert(order@ == ord0.push(u));
                assert(!ord0.contains(u));
                assert forall|v: usize| #[trigger] order@.contains(v) <==> ((v as int) < n && settled@[v as int]) by {
                    if v != u {
                        if order@.contains(v) {
                            let j = choose|j: int| 0 <= j < order@.len() && order@[j] == v;
                            assert(ord0[j] == v);
                        }
                        if ord0.contains(v) {
                            let j = choose|j: int| 0 <= j < ord0.len() && ord0[j] == v;
                            assert(order@[j] == v);
                        }
                    } else {
                        assert(order@[order@.len() - 1] == u);
                    }
                }
                assert forall|a: int, b: int| 0 <= a < order@.len() && 0 <= b < order@.len() && a != b implies order@[a] != order@[b] by {
                    if a < ord0.len() && b < ord0.len() {
                        assert(ord0[a] != ord0[b]);
                    } else if a < ord0.len() {
                        assert(ord0.contains(ord0[a]));
                    } else if b < ord0.len() {
                        assert(ord0.contains(ord0[b]));
                    }
                }
                assert forall|p: Seq<usize>| #[trigger] is_walk(g, s, p) && settled@[walk_end(g, s, p)] implies dist@[walk_end(g, s, p)] <= walk_cost(g, p) by {
                    if walk_end(g, s, p) != u {
                        assert(st0[walk_end(g, s, p)]);
                    }
                }
            }
            let mut k: usize = 0;
            while k < self.nodes[u].value.edges.len()
                invariant
                    g == *self,
                    self.wf(),
                    n == self.node_count(),
                    0 <= s < n,
                    s == start,
                    (u as int) < n,
                    settled@[u as int],
                    du == dist@[u as int],
                    0 <= k <= g.out(u as int).len(),
                    dist@.len() == n,
                    pred@.len() == n,
                    settled@.len() == n,
                    wit.len() == n,
                    used.len() == n,
                    dist@[s] == 0,
                    frontier_ok(queue_contents(queue), n as int, dist@, settled@),
                    witnessed(g, s, dist@, wit),
                    preds_ok(g, s, dist@, pred@, settled@, used),
                    settled_ok(g, s, dist@, settled@),
                    relaxed(g, dist@, settled@, u as int, k as int),
                    ranked(order@, settled@, pred@, pos),
                decreases g.out(u as int).len() - k,
            {
                let h = self.nodes[u].value.edges[k];
                let e = self.edges[h];
                let y = e.node;
                proof {
                    assert(g.out(u as int)[k as int] == h);
                    assert(g.out(u as int).contains(h));
                }
                if !settled[y] && e.weight < INFINITY - du && du + e.weight < dist[y] {
                    let c = du + e.weight;
                    let ghost d0 = dist@;
                    dist.set(y, c);
                    pred.set(y, Some(u));
                    queue_push(&mut queue, y, INFINITY - c);
                    proof {
                        lemma_walk_push(g, s, wit[u as int], h);
                        wit = wit.update(y as int, wit[u as int].push(h));
                        used = used.update(y as int, h);
                        assert forall|v: int| 0 <= v < n && #[trigger] settled@[v] implies dist@[v] == d0[v] by {}
                        assert forall|p: Seq<usize>| #[trigger] is_walk(g, s, p) && settled@[walk_end(g, s, p)] implies dist@[walk_end(g, s, p)] <= walk_cost(g, p) by {
                            lemma_walk_end(g, s, p);
                            assert(dist@[walk_end(g, s, p)] == d0[walk_end(g, s, p)]);
                        }
                    }
                }
                k = k + 1;
            }
        }
        proof {
            assert forall|v: int| 0 <= v < n && !settled@[v] && dist@[v] < INFINITY implies INFINITY <= #[trigger] dist@[v] by {
                assert(queue_contents(queue).contains_key(v as usize));
                assert(queue_contents(queue).dom().contains(v as usize));
            }
            assert forall|v: int| 0 <= v < n implies is_distance(g, s, v, #[trigger] dist@[v] as int) by {
                if !settled@[v] {
                    assert(!queue_contents(queue).contains_key(v as usize));
                    assert forall|p: Seq<usize>| #[trigger] is_walk(g, s, p) && walk_end(g, s, p) == v implies dist@[v] <= walk_cost(g, p) by {
                        lemma_frontier_bound(g, s, dist@, settled@, INFINITY as int, p);
                    }
                } else {
                    assert(is_walk(g, s, wit[v]));
                }
            }
            assert forall|v: int| 0 <= v < n && (#[trigger] pred@[v]).is_some() implies is_tight(
                g, pred@[v].unwrap() as int, v, dist@[pred@[v].unwrap() as int] as int, dist@[v] as int) by {
                assert(g.out(pred@[v].unwrap() as int).contains(used[v]));
            }
            assert forall|v: int|
                0 <= v < n && (#[trigger] pred@[v]).is_some() implies settled_before(order@, pred@[v].unwrap(), v as usize) by {
                assert(settled@[v]);
                let w = pred@[v].unwrap() as int;
                assert(order@[pos[w]] == w as usize && order@[pos[v]] == v as usize);
            }
            assert forall|v: usize| #[trigger] order@.contains(v) <==> ((v as int) < n && dist@[v as int] < INFINITY) by {
                if (v as int) < n && dist@[v as int] < INFINITY {
                    assert(!queue_contents(queue).contains_key(v));
                }
            }
        }
        (dist, pred, order)
    }
}

} // verus!
