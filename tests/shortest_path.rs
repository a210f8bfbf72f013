use dijkstra_graph::{Edge, Graph, Node, NodeValue, INFINITY};

/// Nodes 1, 2, 3, 4 (handles 0 to 3) with edges 1->2 (1), 1->3 (1), 2->3 (3), 2->1 (5).
fn sample() -> (Graph, Vec<usize>) {
    let mut g = Graph::new();
    let n1 = g.add_node(1);
    let n2 = g.add_node(2);
    let n3 = g.add_node(3);
    let n4 = g.add_node(4);
    let e1 = g.new_edge(1, n2);
    let e2 = g.new_edge(1, n3);
    let e3 = g.new_edge(3, n3);
    let e4 = g.new_edge(5, n1);
    g.add_edge(n1, e1);
    g.add_edge(n1, e2);
    g.add_edge(n2, e3);
    g.add_edge(n2, e4);
    (g, vec![n1, n2, n3, n4, e1, e2, e3, e4])
}

#[test]
fn sample_graph_distances() {
    let (mut g, h) = sample();
    let settled = g.shortest_path(h[0]);
    assert_eq!(g.distance(h[0]), 0);
    assert_eq!(g.distance(h[1]), 1);
    assert_eq!(g.distance(h[2]), 1);
    assert_eq!(g.distance(h[3]), INFINITY);
    assert_eq!(g.predecessor(h[2]), Some(h[0]));
    assert_eq!(g.nodes[g.predecessor(h[2]).unwrap()].id, 1);
    assert_eq!(g.predecessor(h[1]), Some(h[0]));
    assert_eq!(g.predecessor(h[0]), None);
    assert_eq!(g.predecessor(h[3]), None);
    assert_eq!(settled.len(), 3);
    assert_eq!(settled[0], h[0]);
    assert!(settled.contains(&h[1]) && settled.contains(&h[2]));
    assert!(!settled.contains(&h[3]));
}

#[test]
fn start_distance_is_zero_from_every_node() {
    for s in 0..4 {
        let (mut g, _) = sample();
        g.shortest_path(s);
        assert_eq!(g.distance(s), 0);
        assert_eq!(g.predecessor(s), None);
    }
}

#[test]
fn search_from_second_node() {
    let (mut g, h) = sample();
    g.shortest_path(h[1]);
    assert_eq!(g.distance(h[1]), 0);
    assert_eq!(g.distance(h[0]), 5);
    assert_eq!(g.distance(h[2]), 3);
    assert_eq!(g.predecessor(h[2]), Some(h[1]));
    assert_eq!(g.distance(h[3]), INFINITY);
}

#[test]
fn longer_path_beats_heavier_edge() {
    let mut g = Graph::new();
    let a = g.add_node(10);
    let b = g.add_node(20);
    let c = g.add_node(30);
    let ab = g.new_edge(2, b);
    let bc = g.new_edge(2, c);
    let ac = g.new_edge(7, c);
    g.add_edge(a, ac);
    g.add_edge(a, ab);
    g.add_edge(b, bc);
    g.shortest_path(a);
    assert_eq!(g.distance(c), 4);
    assert_eq!(g.predecessor(c), Some(b));
    assert_eq!(g.predecessor(b), Some(a));
}

#[test]
fn self_loop_changes_nothing() {
    let (mut g, h) = sample();
    let lp = g.new_edge(2, h[1]);
    g.add_edge(h[1], lp);
    g.shortest_path(h[0]);
    assert_eq!(g.distance(h[1]), 1);
    assert_eq!(g.predecessor(h[1]), Some(h[0]));
    assert_eq!(g.distance(h[2]), 1);
}

#[test]
fn self_loop_on_start() {
    let mut g = Graph::new();
    let a = g.add_node(1);
    let lp = g.new_edge(0, a);
    g.add_edge(a, lp);
    let settled = g.shortest_path(a);
    assert_eq!(g.distance(a), 0);
    assert_eq!(g.predecessor(a), None);
    assert_eq!(settled, vec![a]);
}

#[test]
fn rerun_after_reset_is_identical() {
    let (mut g, _) = sample();
    g.shortest_path(0);
    let first: Vec<(usize, Option<usize>)> = (0..4).map(|v| (g.distance(v), g.predecessor(v))).collect();
    g.reset();
    for v in 0..4 {
        assert_eq!(g.distance(v), INFINITY);
        assert_eq!(g.predecessor(v), None);
    }
    g.shortest_path(0);
    let second: Vec<(usize, Option<usize>)> = (0..4).map(|v| (g.distance(v), g.predecessor(v))).collect();
    assert_eq!(first, second);
}

#[test]
fn rerun_from_other_start_needs_no_reset() {
    let (mut g, h) = sample();
    g.shortest_path(h[0]);
    g.shortest_path(h[2]);
    assert_eq!(g.distance(h[2]), 0);
    assert_eq!(g.distance(h[0]), INFINITY);
    assert_eq!(g.predecessor(h[1]), None);
}

#[test]
fn remove_then_add_restores_distances() {
    let (mut g, h) = sample();
    g.shortest_path(h[0]);
    let before: Vec<usize> = (0..4).map(|v| g.distance(v)).collect();
    g.remove_edge(h[0], h[5]);
    assert_eq!(g.nodes[h[0]].value.edges, vec![h[4]]);
    g.shortest_path(h[0]);
    assert_eq!(g.distance(h[2]), 4);
    assert_eq!(g.predecessor(h[2]), Some(h[1]));
    g.add_edge(h[0], h[5]);
    g.shortest_path(h[0]);
    let after: Vec<usize> = (0..4).map(|v| g.distance(v)).collect();
    assert_eq!(before, after);
}

#[test]
fn removing_last_edge_makes_node_unreachable() {
    let (mut g, h) = sample();
    g.remove_edge(h[0], h[4]);
    g.shortest_path(h[0]);
    assert_eq!(g.distance(h[1]), INFINITY);
    assert_eq!(g.predecessor(h[1]), None);
}

#[test]
fn remove_edge_goes_by_handle_not_value() {
    let mut g = Graph::new();
    let a = g.add_node(1);
    let b = g.add_node(2);
    let e1 = g.new_edge(4, b);
    let e2 = g.new_edge(4, b);
    g.add_edge(a, e1);
    g.add_edge(a, e2);
    g.remove_edge(a, e1);
    assert_eq!(g.nodes[a].value.edges, vec![e2]);
    g.remove_edge(a, e1);
    assert_eq!(g.nodes[a].value.edges, vec![e2]);
}

#[test]
fn lower_weight_is_no_farther() {
    let (mut g, h) = sample();
    g.shortest_path(h[1]);
    let before: Vec<usize> = (0..4).map(|v| g.distance(v)).collect();
    g.change_weight(h[7], 1);
    g.shortest_path(h[1]);
    assert_eq!(g.distance(h[0]), 1);
    assert_eq!(g.distance(h[2]), 2);
    assert_eq!(g.predecessor(h[2]), Some(h[0]));
    for v in 0..4 {
        assert!(g.distance(v) <= before[v]);
    }
}

#[test]
fn change_target_redirects_edge() {
    let (mut g, h) = sample();
    g.change_target(h[4], h[3]);
    assert_eq!(g.edges[h[4]].node, h[3]);
    g.shortest_path(h[0]);
    assert_eq!(g.distance(h[3]), 1);
    assert_eq!(g.distance(h[1]), INFINITY);
}

#[test]
fn heavy_weights_stay_below_infinity() {
    let mut g = Graph::new();
    let a = g.add_node(1);
    let b = g.add_node(2);
    let c = g.add_node(3);
    let ab = g.new_edge(INFINITY - 1, b);
    let bc = g.new_edge(1, c);
    g.add_edge(a, ab);
    g.add_edge(b, bc);
    let settled = g.shortest_path(a);
    assert_eq!(g.distance(b), INFINITY - 1);
    assert_eq!(g.distance(c), INFINITY);
    assert_eq!(g.predecessor(c), None);
    assert_eq!(settled.len(), 2);
}

#[test]
fn parallel_edges_take_the_lighter() {
    let mut g = Graph::new();
    let a = g.add_node(1);
    let b = g.add_node(2);
    let heavy = g.new_edge(9, b);
    let light = g.new_edge(3, b);
    g.add_edge(a, heavy);
    g.add_edge(a, light);
    g.add_edge(a, light);
    g.shortest_path(a);
    assert_eq!(g.distance(b), 3);
}

#[test]
fn single_node_graph() {
    let mut g = Graph::new();
    let a = g.add_node(7);
    let settled = g.shortest_path(a);
    assert_eq!(settled, vec![a]);
    assert_eq!(g.distance(a), 0);
}

#[test]
fn node_and_edge_primitives() {
    let mut n = Node::new(5);
    assert_eq!(n.id, 5);
    assert!(n.value.is_empty());
    assert_eq!(n.value.cost_to_start, INFINITY);
    assert_eq!(n.value.spf_prev, None);
    n.add_edge(3);
    n.add_edge(4);
    n.add_edge(3);
    assert!(!n.value.is_empty());
    n.remove_edge(3);
    assert_eq!(n.value.edges, vec![4]);
    let mut v = NodeValue { spf_prev: None, edges: vec![], cost_to_start: INFINITY };
    v.set_cost_to_start(8);
    v.set_prev_node(2);
    assert_eq!(v.cost_to_start, 8);
    assert_eq!(v.spf_prev, Some(2));
    let mut e = Edge::new(6, 1);
    e.change_weight(9);
    e.change_node_ptr(0);
    assert_eq!(e, Edge::new(9, 0));
}

#[test]
fn predecessors_lead_back_to_start() {
    let mut g = Graph::new();
    let ids = [1, 2, 3, 4, 5];
    let n: Vec<usize> = ids.iter().map(|&i| g.add_node(i)).collect();
    let weights = [(0, 1, 2), (1, 2, 2), (0, 2, 5), (2, 3, 1), (3, 4, 0), (4, 3, 0), (1, 4, 9)];
    for &(a, b, w) in weights.iter() {
        let e = g.new_edge(w, n[b]);
        g.add_edge(n[a], e);
    }
    let settled = g.shortest_path(n[0]);
    assert_eq!(g.distance(n[4]), 5);
    let mut path = vec![n[4]];
    let mut cur = n[4];
    while let Some(p) = g.predecessor(cur) {
        let at = |x: usize| settled.iter().position(|&y| y == x).unwrap();
        assert!(at(p) < at(cur));
        path.push(p);
        cur = p;
    }
    path.reverse();
    let path_ids: Vec<usize> = path.iter().map(|&v| g.nodes[v].id).collect();
    assert_eq!(path_ids, vec![1, 2, 3, 4, 5]);
}
