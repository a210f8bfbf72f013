//! The graph: nodes and edges held in two arenas and named by their index
//! there (a handle). An edge is owned by the node whose list holds its
//! handle and points at its target by the target's node handle.
use vstd::prelude::*;

verus! {

/// The distance of a node that no search has reached.
pub const INFINITY: usize = usize::MAX;

/// A directed edge: its weight and the handle of its target node.
#[derive(Clone, Copy, Debug, PartialEq, Eq, Structural)]
pub struct Edge {
    pub weight: usize,
    pub node: usize,
}

impl Edge {
    pub fn new(weight: usize, node: usize) -> (r: Edge)
        ensures
            r.weight == weight,
            r.node == node,
    {
        Edge { weight, node }
    }

    pub fn change_weight(&mut self, new_weight: usize)
        ensures
            final(self).weight == new_weight,
            final(self).node == old(self).node,
    {
        self.weight = new_weight;
    }

    pub fn change_node_ptr(&mut self, new_node: usize)
        ensures
            final(self).weight == old(self).weight,
            final(self).node == new_node,
    {
        self.node = new_node;
    }
}

/// A node's outgoing edges (as edge handles, in insertion order) and the
/// state that the last shortest-path search left on it.
#[derive(Debug)]
pub struct NodeValue {
    pub spf_prev: Option<usize>,
    pub edges: Vec<usize>,
    pub cost_to_start: usize,
}

impl NodeValue {
    pub fn set_cost_to_start(&mut self, new_cost: usize)
        ensures
            final(self).cost_to_start == new_cost,
            final(self).spf_prev == old(self).spf_prev,
            final(self).edges@ == old(self).edges@,
    {
        self.cost_to_start = new_cost;
    }

    pub fn set_prev_node(&mut self, prev_node: usize)
        ensures
            final(self).spf_prev == Some(prev_node),
            final(self).cost_to_start == old(self).cost_to_start,
            final(self).edges@ == old(self).edges@,
    {
        self.spf_prev = Some(prev_node);
    }

    pub fn is_empty(&self) -> (r: bool)
        ensures
            r == (self.edges@.len() == 0),
    {
        self.edges.len() == 0
    }
}

/// A node: its identity and its value.
#[derive(Debug)]
pub struct Node {
    pub id: usize,
    pub value: NodeValue,
}

/// `s` with every occurrence of `h` taken out, the rest in order.
pub open spec fn without(s: Seq<usize>, h: usize) -> Seq<usize>
    decreases s.len(),
{
    if s.len() == 0 {
        s
    } else if s.last() == h {
        without(s.drop_last(), h)
    } else {
        without(s.drop_last(), h).push(s.last())
    }
}

impl Node {
    pub fn new(id: usize) -> (r: Node)
        ensures
            r.id == id,
            r.value.edges@.len() == 0,
            r.value.cost_to_start == INFINITY,
            r.value.spf_prev.is_none(),
    {
        Node { id, value: NodeValue { spf_prev: None, edges: Vec::new(), cost_to_start: INFINITY } }
    }

    pub fn add_edge(&mut self, edge: usize)
        ensures
            final(self).value.edges@ == old(self).value.edges@.push(edge),
            final(self).id == old(self).id,
            final(self).value.cost_to_start == old(self).value.cost_to_start,
            final(self).value.spf_prev == old(self).value.spf_prev,
    {
        self.value.edges.push(edge);
    }

    /// Takes every occurrence of the edge handle `edge` out of the list,
    /// keeping the order of the others.
    pub fn remove_edge(&mut self, edge: usize)
        ensures
            final(self).value.edges@ == without(old(self).value.edges@, edge),
            final(self).id == old(self).id,
            final(self).value.cost_to_start == old(self).value.cost_to_start,
            final(self).value.spf_prev == old(self).value.spf_prev,
    {
        let mut kept: Vec<usize> = Vec::new();
        let mut i: usize = 0;
        while i < self.value.edges.len()
            invariant
                0 <= i <= self.value.edges@.len(),
                kept@ == without(self.value.edges@.take(i as int), edge),
            decreases self.value.edges@.len() - i,
        {
            let h = self.value.edges[i];
            proof {
                assert(self.value.edges@.take(i + 1).drop_last() =~= self.value.edges@.take(i as int));
            }
            if h != edge {
                kept.push(h);
            }
            i = i + 1;
        }
        proof {
            assert(self.value.edges@.take(i as int) =~= self.value.edges@);
        }
        self.value.edges = kept;
    }
}

/// The graph: an arena of nodes and an arena of edges, each element named by
/// its index.
#[derive(Debug)]
pub struct Graph {
    pub nodes: Vec<Node>,
    pub edges: Vec<Edge>,
}

impl Graph {
    pub open spec fn node_count(&self) -> int {
        self.nodes@.len() as int
    }

    /// The handles of the edges that leave node `u`.
    pub open spec fn out(&self, u: int) -> Seq<usize> {
        self.nodes@[u].value.edges@
    }

    pub open spec fn weight_of(&self, h: usize) -> int {
        self.edges@[h as int].weight as int
    }

    pub open spec fn target_of(&self, h: usize) -> int {
        self.edges@[h as int].node as int
    }

    /// The distance recorded on node `v`.
    pub open spec fn cost(&self, v: int) -> int {
        self.nodes@[v].value.cost_to_start as int
    }

    /// The predecessor recorded on node `v`.
    pub open spec fn prev(&self, v: int) -> Option<usize> {
        self.nodes@[v].value.spf_prev
    }

    /// Every listed edge handle names an edge, and every edge's target names a node.
    pub open spec fn wf(&self) -> bool {
        &&& forall|u: int, k: int|
            0 <= u < self.node_count() && 0 <= k < self.out(u).len() ==> (#[trigger] self.out(u)[k] as int)
                < self.edges@.len()
        &&& forall|h: int| 0 <= h < self.edges@.len() ==> (#[trigger] self.edges@[h]).node < self.node_count()
    }

    /// Both graphs have the same nodes (identities and edge lists) and edges;
    /// only the search state may differ.
    pub open spec fn same_shape(&self, other: Graph) -> bool {
        &&& self.node_count() == other.node_count()
        &&& self.edges@ == other.edges@
        &&& forall|u: int| 0 <= u < self.node_count() ==> #[trigger] self.out(u) == other.out(u)
        &&& forall|u: int| 0 <= u < self.node_count() ==> #[trigger] self.nodes@[u].id == other.nodes@[u].id
    }

    pub fn new() -> (r: Graph)
        ensures
            r.node_count() == 0,
            r.edges@.len() == 0,
            r.wf(),
    {
        Graph { nodes: Vec::new(), edges: Vec::new() }
    }

    /// Adds a node with no edges and no search state; returns its handle.
    pub fn add_node(&mut self, id: usize) -> (r: usize)
        requires
            old(self).wf(),
            old(self).node_count() < usize::MAX,
        ensures
            r == old(self).node_count(),
            final(self).wf(),
            final(self).edges@ == old(self).edges@,
            final(self).nodes@.drop_last() == old(self).nodes@,
            final(self).node_count() == old(self).node_count() + 1,
            final(self).nodes@[r as int].id == id,
            final(self).out(r as int).len() == 0,
            final(self).cost(r as int) == INFINITY,
            final(self).prev(r as int).is_none(),
    {
        let r = self.nodes.len();
        self.nodes.push(Node::new(id));
        proof {
            assert(self.nodes@.drop_last() =~= old(self).nodes@);
            assert forall|u: int, k: int|
                0 <= u < self.node_count() && 0 <= k < self.out(u).len() implies (#[trigger] self.out(u)[k] as int)
                < self.edges@.len() by {
                assert(u < old(self).node_count());
                assert(self.out(u) == old(self).out(u));
            }
        }
        r
    }

    /// Creates an edge of weight `weight` towards node `target`, owned by no
    /// node yet; returns its handle.
    pub fn new_edge(&mut self, weight: usize, target: usize) -> (r: usize)
        requires
            old(self).wf(),
            target < old(self).node_count(),
            old(self).edges@.len() < usize::MAX,
        ensures
            r == old(self).edges@.len(),
            final(self).wf(),
            final(self).nodes@ == old(self).nodes@,
            final(self).edges@ == old(self).edges@.push(Edge { weight, node: target }),
    {
        let r = self.edges.len();
        self.edges.push(Edge::new(weight, target));
        proof {
            assert forall|h: int| 0 <= h < self.edges@.len() implies (#[trigger] self.edges@[h]).node
                < self.node_count() by {
                if h < r {
                    assert(self.edges@[h] == old(self).edges@[h]);
                }
            }
            assert forall|u: int, k: int|
                0 <= u < self.node_count() && 0 <= k < self.out(u).len() implies (#[trigger] self.out(u)[k] as int)
                < self.edges@.len() by {
                assert(self.out(u) == old(self).out(u));
            }
        }
        r
    }

    /// Appends the edge handle `edge` to the list of node `node`.
    pub fn add_edge(&mut self, node: usize, edge: usize)
        requires
            old(self).wf(),
            node < old(self).node_count(),
            edge < old(self).edges@.len(),
        ensures
            final(self).wf(),
            final(self).edges@ == old(self).edges@,
            final(self).nodes@ == old(self).nodes@.update(node as int, final(self).nodes@[node as int]),
            final(self).out(node as int) == old(self).out(node as int).push(edge),
            final(self).nodes@[node as int].id == old(self).nodes@[node as int].id,
            final(self).cost(node as int) == old(self).cost(node as int),
            final(self).prev(node as int) == old(self).prev(node as int),
    {
        self.nodes[node].add_edge(edge);
        proof {
            assert forall|u: int, k: int|
                0 <= u < self.node_count() && 0 <= k < self.out(u).len() implies (#[trigger] self.out(u)[k] as int)
                < self.edges@.len() by {
                if u != node {
                    assert(self.out(u) == old(self).out(u));
                } else if k < old(self).out(u).len() {
                    assert(self.out(u)[k] == old(self).out(u)[k]);
                }
            }
        }
    }

    /// Takes every occurrence of the edge handle `edge` out of the list of
    /// node `node`; the edge itself stays in the arena.
    pub fn remove_edge(&mut self, node: usize, edge: usize)
        requires
            old(self).wf(),
            node < old(self).node_count(),
        ensures
            final(self).wf(),
            final(self).edges@ == old(self).edges@,
            final(self).nodes@ == old(self).nodes@.update(node as int, final(self).nodes@[node as int]),
            final(self).out(node as int) == without(old(self).out(node as int), edge),
            final(self).nodes@[node as int].id == old(self).nodes@[node as int].id,
            final(self).cost(node as int) == old(self).cost(node as int),
            final(self).prev(node as int) == old(self).prev(node as int),
    {
        self.nodes[node].remove_edge(edge);
        proof {
            assert forall|u: int, k: int|
                0 <= u < self.node_count() && 0 <= k < self.out(u).len() implies (#[trigger] self.out(u)[k] as int)
                < self.edges@.len() by {
                if u != node {
                    assert(self.out(u) == old(self).out(u));
                } else {
                    lemma_without_contains(old(self).out(u), edge);
                    assert(self.out(u).contains(self.out(u)[k]));
                }
            }
        }
    }

    /// Gives edge `edge` the weight `new_weight`.
    pub fn change_weight(&mut self, edge: usize, new_weight: usize)
        requires
            old(self).wf(),
            edge < old(self).edges@.len(),
        ensures
            final(self).wf(),
            final(self).nodes@ == old(self).nodes@,
            final(self).edges@ == old(self).edges@.update(
                edge as int,
                Edge { weight: new_weight, node: old(self).edges@[edge as int].node },
            ),
    {
        self.edges[edge].change_weight(new_weight);
        proof {
            assert forall|h: int| 0 <= h < self.edges@.len() implies (#[trigger] self.edges@[h]).node
                < self.node_count() by {
                assert(old(self).edges@[h].node < self.node_count());
            }
            assert forall|u: int, k: int|
                0 <= u < self.node_count() && 0 <= k < self.out(u).len() implies (#[trigger] self.out(u)[k] as int)
                < self.edges@.len() by {
                assert(self.out(u) == old(self).out(u));
            }
        }
    }

    /// Points edge `edge` at node `new_target`.
    pub fn change_target(&mut self, edge: usize, new_target: usize)
        requires
            old(self).wf(),
            edge < old(self).edges@.len(),
            new_target < old(self).node_count(),
        ensures
            final(self).wf(),
            final(self).nodes@ == old(self).nodes@,
            final(self).edges@ == old(self).edges@.update(
                edge as int,
                Edge { weight: old(self).edges@[edge as int].weight, node: new_target },
            ),
    {
        self.edges[edge].change_node_ptr(new_target);
        proof {
            assert forall|h: int| 0 <= h < self.edges@.len() implies (#[trigger] self.edges@[h]).node
                < self.node_count() by {
                if h != edge {
                    assert(old(self).edges@[h].node < self.node_count());
                }
            }
            assert forall|u: int, k: int|
                0 <= u < self.node_count() && 0 <= k < self.out(u).len() implies (#[trigger] self.out(u)[k] as int)
                < self.edges@.len() by {
                assert(self.out(u) == old(self).out(u));
            }
        }
    }

    /// Puts every node back to "not reached": distance `INFINITY`, no
    /// predecessor.
    pub fn reset(&mut self)
        requires
            old(self).wf(),
        ensures
            final(self).wf(),
            final(self).same_shape(*old(self)),
            forall|v: int| 0 <= v < final(self).node_count() ==> #[trigger] final(self).cost(v) == INFINITY,
            forall|v: int| 0 <= v < final(self).node_count() ==> (#[trigger] final(self).prev(v)).is_none(),
    {
        let mut i: usize = 0;
        while i < self.nodes.len()
            invariant
                0 <= i <= self.node_count(),
                self.same_shape(*old(self)),
                forall|v: int| 0 <= v < i ==> #[trigger] self.cost(v) == INFINITY,
                forall|v: int| 0 <= v < i ==> (#[trigger] self.prev(v)).is_none(),
            decreases self.node_count() - i,
        {
            let ghost before = *self;
            self.nodes[i].value.set_cost_to_start(INFINITY);
            self.nodes[i].value.spf_prev = None;
            proof {
                assert(self.nodes@.len() == before.nodes@.len());
                assert(self.edges@ == before.edges@);
                assert(forall|u: int| 0 <= u < self.node_count() && u != i ==> self.nodes@[u] == before.nodes@[u]);
                assert(self.out(i as int) == before.out(i as int));
                assert(self.nodes@[i as int].id == before.nodes@[i as int].id);
                assert(self.same_shape(before));
                assert(before.same_shape(*old(self)));
                assert forall|v: int| 0 <= v < i implies #[trigger] self.cost(v) == INFINITY by {
                    assert(before.cost(v) == INFINITY);
                    assert(self.nodes@[v] == before.nodes@[v]);
                    assert(self.cost(v) == before.cost(v));
                }
                assert forall|v: int| 0 <= v < i implies (#[trigger] self.prev(v)).is_none() by {
                    assert(before.prev(v).is_none());
                    assert(self.nodes@[v] == before.nodes@[v]);
                }
            }
            i = i + 1;
        }
        proof {
            assert forall|u: int, k: int|
                0 <= u < self.node_count() && 0 <= k < self.out(u).len() implies (#[trigger] self.out(u)[k] as int)
                < self.edges@.len() by {
                assert(self.out(u) == old(self).out(u));
            }
            assert forall|h: int| 0 <= h < self.edges@.len() implies (#[trigger] self.edges@[h]).node
                < self.node_count() by {
                assert(old(self).edges@[h].node < self.node_count());
            }
        }
    }

    /// The distance recorded on node `v` by the last search.
    pub fn distance(&self, v: usize) -> (r: usize)
        requires
            v < self.node_count(),
        ensures
            r == self.cost(v as int),
    {
        self.nodes[v].value.cost_to_start
    }

    /// The predecessor recorded on node `v` by the last search.
    pub fn predecessor(&self, v: usize) -> (r: Option<usize>)
        requires
            v < self.node_count(),
        ensures
            r == self.prev(v as int),
    {
        self.nodes[v].value.spf_prev
    }
}

/// What is left after taking out `h` is what was there but `h`.
pub proof fn lemma_without_contains(s: Seq<usize>, h: usize)
    ensures
        forall|x: usize| #[trigger] without(s, h).contains(x) <==> (s.contains(x) && x != h),
    decreases s.len(),
{
    if s.len() > 0 {
        let q = s.drop_last();
        let w = without(q, h);
        lemma_without_contains(q, h);
        assert forall|x: usize| #[trigger] without(s, h).contains(x) <==> (s.contains(x) && x != h) by {
            if s.contains(x) && x != h {
                let i = choose|i: int| 0 <= i < s.len() && s[i] == x;
                if i < q.len() {
                    assert(q[i] == x);
                    assert(w.contains(x));
                    let j = choose|j: int| 0 <= j < w.len() && w[j] == x;
                    if s.last() != h {
                        assert(without(s, h)[j] == x);
                    }
                } else {
                    assert(without(s, h) == w.push(x));
                    assert(without(s, h)[w.len() as int] == x);
                }
            }
            if without(s, h).contains(x) {
                let j = choose|j: int| 0 <= j < without(s, h).len() && without(s, h)[j] == x;
                if s.last() != h && j == w.len() {
                    assert(s[s.len() - 1] == x);
                } else {
                    assert(w[j] == x);
                    assert(w.contains(x));
                    let i = choose|i: int| 0 <= i < q.len() && q[i] == x;
                    assert(s[i] == x);
                }
            }
        }
    }
}

} // verus!
