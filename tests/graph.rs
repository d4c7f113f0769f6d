use maze::nodes::{Connection, Node, NodeGraph, Position};

fn pos(row: usize, col: usize) -> Position {
    Position { row, col }
}

#[test]
fn connection_reports_its_far_cell_and_direction() {
    let out = Connection::Out(pos(1, 2));
    let inc = Connection::In(pos(3, 4));
    assert_eq!(out.get_position(), pos(1, 2));
    assert_eq!(inc.get_position(), pos(3, 4));
    assert!(out.is_out());
    assert!(!inc.is_out());
    assert_eq!(out.get_out(), pos(1, 2));
}

#[test]
fn all_out_keeps_outgoing_in_order() {
    let conns = vec![
        Connection::In(pos(0, 0)),
        Connection::Out(pos(0, 2)),
        Connection::In(pos(1, 1)),
        Connection::Out(pos(2, 1)),
    ];
    let outs = Connection::all_out(&conns);
    assert_eq!(outs, vec![Connection::Out(pos(0, 2)), Connection::Out(pos(2, 1))]);
    assert!(Connection::all_out(&vec![Connection::In(pos(0, 0))]).is_empty());
}

#[test]
fn new_node_has_no_edges() {
    let n = Node::new(pos(2, 3));
    assert_eq!(n.position, pos(2, 3));
    assert!(!n.is_connected());
    assert!(n.connected_nodes.is_empty());
}

#[test]
fn new_graph_is_bare_and_addressed_by_cell() {
    let g = NodeGraph::new(3);
    assert_eq!(g.size(), 3);
    for r in 0..3 {
        for c in 0..3 {
            let n = g.node_at(pos(r, c));
            assert_eq!(n.position, pos(r, c));
            assert!(!n.is_connected());
        }
    }
}

#[test]
fn connect_adds_out_end_at_first_and_in_end_at_second() {
    let mut g = NodeGraph::new(3);
    Node::connect(pos(0, 0), pos(0, 1), &mut g);
    assert_eq!(g.node_at(pos(0, 0)).connected_nodes, vec![Connection::Out(pos(0, 1))]);
    assert_eq!(g.node_at(pos(0, 1)).connected_nodes, vec![Connection::In(pos(0, 0))]);
    assert!(!g.node_at(pos(1, 1)).is_connected());
    Node::connect(pos(0, 0), pos(1, 0), &mut g);
    assert_eq!(
        g.node_at(pos(0, 0)).connected_nodes,
        vec![Connection::Out(pos(0, 1)), Connection::Out(pos(1, 0))]
    );
}

#[test]
fn after_connect_the_pair_counts_as_linked_both_ways() {
    // A second connect of the same pair, in either direction, is what `contains` rules out.
    let mut g = NodeGraph::new(2);
    let a = pos(0, 0);
    let b = pos(1, 0);
    assert!(!g.node_at(a).contains(g.node_at(b)));
    Node::connect(a, b, &mut g);
    assert!(g.node_at(a).contains(g.node_at(b)));
    assert!(g.node_at(b).contains(g.node_at(a)));
    assert!(!g.node_at(a).contains(g.node_at(pos(1, 1))));
}

#[test]
fn able_to_move_to_follows_only_outgoing_edges() {
    let mut g = NodeGraph::new(2);
    Node::connect(pos(0, 0), pos(0, 1), &mut g);
    assert!(g.node_at(pos(0, 0)).able_to_move_to(g.node_at(pos(0, 1))));
    assert!(!g.node_at(pos(0, 1)).able_to_move_to(g.node_at(pos(0, 0))));
    assert!(!g.node_at(pos(0, 0)).able_to_move_to(g.node_at(pos(1, 1))));
}

#[test]
fn random_neighbour_is_an_outgoing_cell() {
    let mut g = NodeGraph::new(3);
    Node::connect(pos(1, 1), pos(0, 1), &mut g);
    Node::connect(pos(1, 1), pos(2, 1), &mut g);
    Node::connect(pos(1, 1), pos(1, 2), &mut g);
    let n = g.node_at(pos(1, 1));
    let mut seen = Vec::new();
    for _ in 0..200 {
        let r = n.get_random_neighbour();
        assert!(r == pos(0, 1) || r == pos(2, 1) || r == pos(1, 2));
        if !seen.contains(&r) {
            seen.push(r);
        }
    }
    assert!(seen.len() >= 2);
}

#[test]
fn clear_removes_every_edge() {
    let mut g = NodeGraph::new(2);
    Node::connect(pos(0, 0), pos(0, 1), &mut g);
    Node::connect(pos(0, 1), pos(1, 1), &mut g);
    g.clear();
    assert_eq!(g.size(), 2);
    for r in 0..2 {
        for c in 0..2 {
            assert!(!g.node_at(pos(r, c)).is_connected());
            assert_eq!(g.node_at(pos(r, c)).position, pos(r, c));
        }
    }
}
