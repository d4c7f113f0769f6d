use maze::nodes::{Node, NodeGraph, Position};
use maze::solver::{AStar, Done, MazeSolver, RandomStar, Walker};

fn pos(row: usize, col: usize) -> Position {
    Position { row, col }
}

fn stuck(w: &Walker) -> bool {
    w.is_done == Done::NotFound(true)
}

#[test]
fn walker_steps_record_the_path() {
    let mut w = Walker::new(pos(0, 0), vec![pos(0, 0)]);
    assert_eq!(w.current_node, pos(0, 0));
    assert_eq!(w.is_done, Done::NotFound(false));
    w.step(pos(0, 1));
    w.step(pos(1, 1));
    assert_eq!(w.current_node, pos(1, 1));
    assert_eq!(w.path, vec![pos(0, 0), pos(0, 1), pos(1, 1)]);
    assert_eq!(w.is_done, Done::NotFound(false));
}

#[test]
fn new_solver_has_one_walker_at_start() {
    let s = RandomStar::new(pos(0, 0), pos(2, 2));
    assert_eq!(s.start, pos(0, 0));
    assert_eq!(s.end, pos(2, 2));
    assert!(s.path.is_empty());
    assert_eq!(s.walkers.len(), 1);
    assert_eq!(s.walkers[0].current_node, pos(0, 0));
    assert!(s.walkers[0].path.is_empty());
    assert_eq!(s.walkers[0].is_done, Done::NotFound(false));
}

/// A 2x2 grid joined all round: A=(0,0), B=(0,1), C=(1,1), D=(1,0).
fn square_with_two_routes() -> NodeGraph {
    let mut g = NodeGraph::new(2);
    Node::connect(pos(0, 0), pos(0, 1), &mut g);
    Node::connect(pos(0, 0), pos(1, 0), &mut g);
    Node::connect(pos(0, 1), pos(1, 1), &mut g);
    Node::connect(pos(1, 0), pos(1, 1), &mut g);
    g
}

#[test]
fn cyclic_square_reaches_found_with_bounded_walkers() {
    let g = square_with_two_routes();
    let mut s = RandomStar::new(pos(0, 0), pos(1, 1));
    s.step(&g);
    assert_eq!(s.walkers.len(), 2);
    assert_eq!(s.walkers[0].current_node, pos(0, 1));
    assert_eq!(s.walkers[1].current_node, pos(1, 0));
    assert_eq!(s.walkers[1].path, vec![pos(1, 0)]);
    assert_eq!(s.path, vec![pos(1, 0), pos(0, 1)]);
    s.step(&g);
    assert_eq!(s.walkers.len(), 2);
    assert_eq!(s.walkers[0].current_node, pos(1, 1));
    assert_eq!(s.walkers[1].current_node, pos(1, 1));
    s.step(&g);
    assert_eq!(s.walkers[0].is_done, Done::Found);
    assert_eq!(s.walkers[1].is_done, Done::Found);
    for _ in 0..20 {
        s.step(&g);
        assert_eq!(s.walkers.len(), 2);
    }
    assert_eq!(s.walkers[0].path, vec![pos(0, 1), pos(1, 1)]);
}

#[test]
fn directed_cycle_reaches_found_without_forking() {
    let mut g = NodeGraph::new(2);
    Node::connect(pos(0, 0), pos(0, 1), &mut g);
    Node::connect(pos(0, 1), pos(1, 1), &mut g);
    Node::connect(pos(1, 1), pos(1, 0), &mut g);
    Node::connect(pos(1, 0), pos(0, 0), &mut g);
    let mut s = RandomStar::new(pos(0, 0), pos(1, 1));
    let mut ticks = 0;
    while s.walkers.iter().all(|w| w.is_done != Done::Found) && ticks < 10 {
        s.step(&g);
        ticks += 1;
        assert_eq!(s.walkers.len(), 1);
    }
    assert_eq!(ticks, 3);
    assert_eq!(s.walkers[0].current_node, pos(1, 1));
}

#[test]
fn chain_without_end_gets_stuck_within_five_ticks() {
    let mut g = NodeGraph::new(5);
    for c in 0..4 {
        Node::connect(pos(0, c), pos(0, c + 1), &mut g);
    }
    let mut s = RandomStar::new(pos(0, 0), pos(4, 4));
    for _ in 0..5 {
        s.step(&g);
        assert!(s.walkers.iter().all(|w| w.is_done != Done::Found));
    }
    assert!(s.walkers.iter().all(stuck));
    assert_eq!(s.walkers.len(), 1);
    assert_eq!(s.walkers[0].current_node, pos(0, 4));
    assert_eq!(s.walkers[0].path, vec![pos(0, 1), pos(0, 2), pos(0, 3), pos(0, 4)]);
    s.step(&g);
    assert!(s.walkers.iter().all(stuck));
}

#[test]
fn branch_onto_claimed_cell_marks_walker_stuck_but_it_still_moves() {
    // (0,0) has branches to (0,1) first and (1,0) second; the second is already claimed.
    let mut g = NodeGraph::new(2);
    Node::connect(pos(0, 0), pos(0, 1), &mut g);
    Node::connect(pos(0, 0), pos(1, 0), &mut g);
    let mut s = RandomStar::new(pos(0, 0), pos(1, 1));
    s.path.push(pos(1, 0));
    s.step(&g);
    assert_eq!(s.walkers.len(), 1);
    assert!(stuck(&s.walkers[0]));
    assert_eq!(s.walkers[0].current_node, pos(0, 1));
    assert_eq!(s.path, vec![pos(1, 0), pos(0, 1)]);
    // A stuck walker no longer moves.
    s.step(&g);
    assert_eq!(s.walkers[0].current_node, pos(0, 1));
}

#[test]
fn walker_at_end_is_found_even_with_exits() {
    let mut g = NodeGraph::new(2);
    Node::connect(pos(0, 0), pos(0, 1), &mut g);
    let mut s = RandomStar::new(pos(0, 0), pos(0, 0));
    s.step(&g);
    assert_eq!(s.walkers[0].is_done, Done::Found);
    assert_eq!(s.walkers[0].current_node, pos(0, 0));
    assert!(s.path.is_empty());
}

#[test]
fn astar_moves_only_the_best_walker() {
    let g = square_with_two_routes();
    let mut s = AStar::new(pos(0, 0), pos(1, 1));
    s.step(&g);
    assert_eq!(s.walkers.len(), 2);
    assert_eq!(s.walkers[0].current_node, pos(0, 1));
    assert_eq!(s.walkers[1].current_node, pos(1, 0));
    // Equal scores: the earlier walker moves, the other waits.
    s.step(&g);
    assert_eq!(s.walkers[0].current_node, pos(1, 1));
    assert_eq!(s.walkers[1].current_node, pos(1, 0));
    s.step(&g);
    assert_eq!(s.walkers[0].is_done, Done::Found);
    assert_eq!(s.walkers[1].is_done, Done::NotFound(false));
    s.step(&g);
    assert_eq!(s.walkers[1].current_node, pos(1, 1));
    s.step(&g);
    assert_eq!(s.walkers[1].is_done, Done::Found);
    // With no walker under way nothing changes.
    let before: Vec<Position> = s.walkers.iter().map(|w| w.current_node).collect();
    s.step(&g);
    let after: Vec<Position> = s.walkers.iter().map(|w| w.current_node).collect();
    assert_eq!(before, after);
}

#[test]
fn astar_prefers_the_walker_closer_to_the_end() {
    // From (0,0): first branch leads away along row 0, second straight towards (2,0).
    let mut g = NodeGraph::new(3);
    Node::connect(pos(0, 0), pos(0, 1), &mut g);
    Node::connect(pos(0, 0), pos(1, 0), &mut g);
    Node::connect(pos(0, 1), pos(0, 2), &mut g);
    Node::connect(pos(1, 0), pos(2, 0), &mut g);
    let mut s = AStar::new(pos(0, 0), pos(2, 0));
    s.step(&g);
    // Walker 0 at (0,1): 1 + 3 = 4. Walker 1 at (1,0): 1 + 1 = 2.
    s.step(&g);
    assert_eq!(s.walkers[0].current_node, pos(0, 1));
    assert_eq!(s.walkers[1].current_node, pos(2, 0));
    s.step(&g);
    assert_eq!(s.walkers[1].is_done, Done::Found);
    assert_eq!(s.walkers[0].current_node, pos(0, 1));
}

fn distinct_claimed(cells: &[Position]) -> usize {
    let mut seen: Vec<Position> = Vec::new();
    for c in cells {
        if !seen.contains(c) {
            seen.push(*c);
        }
    }
    seen.len()
}

#[test]
fn walkers_stay_within_one_plus_claimed_cells() {
    let g = square_with_two_routes();
    let mut s = RandomStar::new(pos(0, 0), pos(1, 1));
    for _ in 0..30 {
        s.step(&g);
        assert!(s.walkers.len() <= 1 + distinct_claimed(&s.path));
        assert!(distinct_claimed(&s.path) <= 4);
    }
}

#[test]
fn walkers_on_a_generated_maze_never_outnumber_its_cells() {
    let size = 7;
    let g = maze::maze::generate(size);
    let mut s = RandomStar::new(pos(0, 0), pos(size - 1, 0));
    for _ in 0..(3 * size * size) {
        s.step(&g);
        assert!(s.walkers.len() <= 1 + distinct_claimed(&s.path));
        assert!(s.walkers.len() <= 1 + size * size);
    }
}

#[test]
fn finished_walkers_are_left_alone() {
    let g = square_with_two_routes();
    let mut s = RandomStar::new(pos(0, 0), pos(0, 1));
    s.step(&g);
    s.step(&g);
    assert_eq!(s.walkers[0].is_done, Done::Found);
    let path = s.walkers[0].path.clone();
    for _ in 0..5 {
        s.step(&g);
        assert_eq!(s.walkers[0].is_done, Done::Found);
        assert_eq!(s.walkers[0].current_node, pos(0, 1));
        assert_eq!(s.walkers[0].path, path);
    }
}
