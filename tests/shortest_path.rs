use spatial_graph::{Edge, Graph, Node};

fn edge(a: i32, b: i32, w: i32) -> Edge {
    Edge { node_a_id: a, node_b_id: b, weight: w }
}

fn node(id: i32, x: i32, y: i32) -> Node {
    Node { id, x, y }
}

fn triangle() -> Graph {
    let mut g = Graph::new();
    g.add_node(node(1, 0, 0));
    g.add_node(node(2, 1, 0));
    g.add_node(node(3, 2, 0));
    g.add_edge(edge(1, 2, 4));
    g.add_edge(edge(2, 3, 5));
    g.add_edge(edge(1, 3, 10));
    g
}

#[test]
fn cheaper_route_through_middle_node() {
    let g = triangle();
    assert_eq!(g.shortest_path(1, 3), 9);
    assert_eq!(g.shortest_path(3, 1), 9);
    assert_eq!(g.shortest_path(1, 2), 4);
    assert_eq!(g.shortest_path(2, 3), 5);
}

#[test]
fn no_edge_gives_sentinel() {
    let mut g = Graph::new();
    g.add_node(node(1, 0, 0));
    g.add_node(node(2, 5, 5));
    assert_eq!(g.shortest_path(1, 2), i32::MAX);
    assert_eq!(g.shortest_path(2, 1), i32::MAX);
}

#[test]
fn cheaper_parallel_edge_wins() {
    let mut g = Graph::new();
    g.add_edge(edge(1, 2, 7));
    g.add_edge(edge(1, 2, 3));
    assert_eq!(g.shortest_path(1, 2), 3);
    assert_eq!(g.shortest_path(2, 1), 3);
}

#[test]
fn second_node_insertion_wins() {
    let mut g = Graph::new();
    g.add_node(node(7, 1, 2));
    g.add_node(node(7, 30, 40));
    let n = g.node(7).unwrap();
    assert_eq!((n.id, n.x, n.y), (7, 30, 40));
    assert!(g.node(8).is_none());
}

#[test]
fn node_coordinates_do_not_change_costs() {
    let mut g = triangle();
    g.add_node(node(2, -100, 100));
    assert_eq!(g.shortest_path(1, 3), 9);
}

#[test]
fn distance_to_self_is_zero() {
    let g = triangle();
    assert_eq!(g.shortest_path(2, 2), 0);
    let empty = Graph::new();
    assert_eq!(empty.shortest_path(42, 42), 0);
}

#[test]
fn edge_is_stored_in_both_directions() {
    let mut g = Graph::new();
    g.add_edge(edge(1, 2, 6));
    let from_a = g.arcs_of(1);
    let from_b = g.arcs_of(2);
    assert_eq!(from_a.len(), 1);
    assert_eq!(from_b.len(), 1);
    assert_eq!((from_a[0].node_a_id, from_a[0].node_b_id, from_a[0].weight), (1, 2, 6));
    assert_eq!((from_b[0].node_a_id, from_b[0].node_b_id, from_b[0].weight), (2, 1, 6));
    assert_eq!(g.shortest_path(1, 2), 6);
    assert_eq!(g.shortest_path(2, 1), 6);
    assert!(g.arcs_of(3).is_empty());
}

#[test]
fn self_loop_stores_two_arcs() {
    let mut g = Graph::new();
    g.add_edge(edge(5, 5, 2));
    assert_eq!(g.arcs_of(5).len(), 2);
    assert_eq!(g.shortest_path(5, 5), 0);
}

#[test]
fn costs_are_symmetric() {
    let mut g = Graph::new();
    g.add_edge(edge(1, 2, 3));
    g.add_edge(edge(2, 4, 8));
    g.add_edge(edge(1, 3, 1));
    g.add_edge(edge(3, 4, 20));
    g.add_edge(edge(4, 5, 2));
    for s in 1..=5 {
        for t in 1..=5 {
            assert_eq!(g.shortest_path(s, t), g.shortest_path(t, s));
        }
    }
    assert_eq!(g.shortest_path(1, 5), 13);
}

#[test]
fn triangle_inequality_holds() {
    let mut g = Graph::new();
    g.add_edge(edge(1, 2, 2));
    g.add_edge(edge(2, 3, 2));
    g.add_edge(edge(1, 3, 7));
    g.add_edge(edge(3, 4, 1));
    g.add_node(node(9, 0, 0));
    let ids = [1, 2, 3, 4, 9];
    for &a in ids.iter() {
        for &b in ids.iter() {
            for &c in ids.iter() {
                let ac = g.shortest_path(a, c) as i64;
                let ab = g.shortest_path(a, b) as i64;
                let bc = g.shortest_path(b, c) as i64;
                assert!(ac <= ab + bc);
            }
        }
    }
}

#[test]
fn unknown_nodes_give_sentinel() {
    let g = triangle();
    assert_eq!(g.shortest_path(1, 99), i32::MAX);
    assert_eq!(g.shortest_path(99, 1), i32::MAX);
}

#[test]
fn disconnected_components_give_sentinel() {
    let mut g = Graph::new();
    g.add_edge(edge(1, 2, 1));
    g.add_edge(edge(3, 4, 1));
    assert_eq!(g.shortest_path(1, 4), i32::MAX);
    assert_eq!(g.shortest_path(3, 4), 1);
}

#[test]
fn zero_weight_edges() {
    let mut g = Graph::new();
    g.add_edge(edge(1, 2, 0));
    g.add_edge(edge(2, 3, 0));
    assert_eq!(g.shortest_path(1, 3), 0);
}

#[test]
fn cost_reaching_max_is_sentinel() {
    let mut g = Graph::new();
    g.add_edge(edge(1, 2, i32::MAX - 1));
    g.add_edge(edge(2, 3, i32::MAX - 1));
    g.add_edge(edge(3, 4, i32::MAX));
    assert_eq!(g.shortest_path(1, 2), i32::MAX - 1);
    assert_eq!(g.shortest_path(1, 3), i32::MAX);
    assert_eq!(g.shortest_path(3, 4), i32::MAX);
}

#[test]
fn longer_path_with_more_hops_can_win() {
    let mut g = Graph::new();
    g.add_edge(edge(1, 5, 100));
    g.add_edge(edge(1, 2, 10));
    g.add_edge(edge(2, 3, 10));
    g.add_edge(edge(3, 4, 10));
    g.add_edge(edge(4, 5, 10));
    assert_eq!(g.shortest_path(1, 5), 40);
    assert_eq!(g.shortest_path(5, 2), 30);
}
