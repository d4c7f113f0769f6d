use maze::maze::{already_explored, generate, generate_maze, next_position, reset};
use maze::nodes::{Connection, NodeGraph, Position};
use maze::solver::{Done, MazeSolver, RandomStar};

fn pos(row: usize, col: usize) -> Position {
    Position { row, col }
}

fn adjacent(p: Position, q: Position) -> bool {
    (p.row == q.row && (p.col + 1 == q.col || q.col + 1 == p.col))
        || (p.col == q.col && (p.row + 1 == q.row || q.row + 1 == p.row))
}

/// Checks that `g` holds a spanning tree of the grid whose edges lead away from `(0, 0)`.
fn assert_perfect_maze(g: &NodeGraph) {
    let n = g.size();
    let mut outs = 0;
    let mut ins = 0;
    for r in 0..n {
        for c in 0..n {
            let node = g.node_at(pos(r, c));
            if n > 1 {
                assert!(node.is_connected(), "cell ({}, {}) has no edge", r, c);
            }
            let mut incoming = 0;
            for conn in &node.connected_nodes {
                assert!(adjacent(node.position, conn.get_position()));
                if conn.is_out() {
                    outs += 1;
                } else {
                    ins += 1;
                    incoming += 1;
                }
            }
            let expected_in = if r == 0 && c == 0 { 0 } else { 1 };
            assert_eq!(incoming, expected_in);
        }
    }
    // One edge per carved step: every cell but the first was entered once.
    assert_eq!(outs, n * n - 1);
    assert_eq!(ins, n * n - 1);
    // Every cell is reached from the corner along outgoing edges.
    let mut seen = vec![pos(0, 0)];
    let mut i = 0;
    while i < seen.len() {
        let here = seen[i];
        for conn in Connection::all_out(&g.node_at(here).connected_nodes) {
            let next = conn.get_out();
            assert!(!seen.contains(&next));
            seen.push(next);
        }
        i += 1;
    }
    assert_eq!(seen.len(), n * n);
}

#[test]
fn generated_mazes_are_spanning_trees() {
    for size in 2..9 {
        for _ in 0..5 {
            let g = generate(size);
            assert_eq!(g.size(), size);
            assert_perfect_maze(&g);
        }
    }
}

#[test]
fn larger_maze_is_a_spanning_tree() {
    let g = generate(30);
    assert_perfect_maze(&g);
}

#[test]
fn single_cell_grid_has_no_edges() {
    let g = generate(1);
    assert_eq!(g.size(), 1);
    assert!(!g.node_at(pos(0, 0)).is_connected());
}

#[test]
fn empty_grid_stays_empty() {
    let g = generate(0);
    assert_eq!(g.size(), 0);
    assert!(g.nodes.is_empty());
}

#[test]
fn generate_maze_carves_into_a_bare_grid() {
    let mut g = NodeGraph::new(4);
    generate_maze(4, &mut g);
    assert_perfect_maze(&g);
}

#[test]
fn two_by_two_maze_has_three_edges() {
    let g = generate(2);
    let total: usize = (0..2)
        .flat_map(|r| (0..2).map(move |c| (r, c)))
        .map(|(r, c)| g.node_at(pos(r, c)).connected_nodes.len())
        .sum();
    assert_eq!(total, 6);
}

#[test]
fn next_position_stays_inside_the_grid() {
    assert_eq!(next_position(pos(0, 0), 0, 3), Some(pos(1, 0)));
    assert_eq!(next_position(pos(0, 0), 1, 3), Some(pos(0, 1)));
    assert_eq!(next_position(pos(0, 0), 2, 3), None);
    assert_eq!(next_position(pos(0, 0), 3, 3), None);
    assert_eq!(next_position(pos(2, 2), 0, 3), None);
    assert_eq!(next_position(pos(2, 2), 1, 3), None);
    assert_eq!(next_position(pos(2, 2), 2, 3), Some(pos(1, 2)));
    assert_eq!(next_position(pos(2, 2), 3, 3), Some(pos(2, 1)));
    assert_eq!(next_position(pos(1, 1), 4, 3), None);
    assert_eq!(next_position(pos(3, 0), 2, 3), None);
}

#[test]
fn already_explored_finds_listed_cells() {
    let list = vec![pos(0, 0), pos(0, 1), pos(1, 1)];
    assert!(already_explored(&list, &pos(0, 1)));
    assert!(!already_explored(&list, &pos(1, 0)));
    assert!(!already_explored(&Vec::new(), &pos(0, 0)));
}

#[test]
fn reset_rebuilds_maze_and_solver() {
    let size = 6;
    let mut g = generate(size);
    let mut solver = RandomStar::new(pos(0, 0), pos(0, size - 1));
    for _ in 0..10 {
        solver.step(&g);
    }
    reset(&mut g, &mut solver, size);
    assert_perfect_maze(&g);
    assert_eq!(solver.start, pos(0, 0));
    assert_eq!(solver.end, pos(size - 1, size - 1));
    assert!(solver.path.is_empty());
    assert_eq!(solver.walkers.len(), 1);
    assert_eq!(solver.walkers[0].current_node, pos(0, 0));
    assert_eq!(solver.walkers[0].is_done, Done::NotFound(false));
    assert!(solver.walkers[0].path.is_empty());
}

#[test]
fn solver_finds_the_far_corner_of_a_generated_maze() {
    let size = 8;
    let g = generate(size);
    let mut solver = RandomStar::new(pos(0, 0), pos(size - 1, size - 1));
    let mut found = false;
    for _ in 0..(size * size + 1) {
        solver.step(&g);
        if solver.walkers.iter().any(|w| w.is_done == Done::Found) {
            found = true;
            break;
        }
    }
    assert!(found);
    let w = solver.walkers.iter().find(|w| w.is_done == Done::Found).unwrap();
    assert_eq!(w.current_node, pos(size - 1, size - 1));
    assert_eq!(*w.path.last().unwrap(), pos(size - 1, size - 1));
}
