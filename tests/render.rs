use dijkstra_graph::render::push_decimal;
use dijkstra_graph::Graph;

#[test]
fn decimal_digits() {
    let mut s = String::from("x=");
    push_decimal(&mut s, 0);
    assert_eq!(s, "x=0");
    let mut s = String::new();
    push_decimal(&mut s, 1207);
    assert_eq!(s, "1207");
    let mut s = String::new();
    push_decimal(&mut s, usize::MAX);
    assert_eq!(s, usize::MAX.to_string());
}

#[test]
fn node_rendering_lists_edges_in_order() {
    let mut g = Graph::new();
    let a = g.add_node(1);
    let b = g.add_node(2);
    let c = g.add_node(3);
    let ab = g.new_edge(1, b);
    let ac = g.new_edge(15, c);
    g.add_edge(a, ab);
    g.add_edge(a, ac);
    assert_eq!(
        g.node_to_string(a),
        "Node: 1, Connections:[(Weight: 1 to Node: 2)(Weight: 15 to Node: 3)]"
    );
    assert_eq!(g.node_to_string(b), "Node: 2, Connections:[]");
    g.remove_edge(a, ab);
    assert_eq!(g.node_to_string(a), "Node: 1, Connections:[(Weight: 15 to Node: 3)]");
}
