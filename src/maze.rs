//! Carving a perfect maze into a grid by a randomized backtracking walk.

use vstd::prelude::*;
use vstd::arithmetic::div_mod::{lemma_fundamental_div_mod, lemma_fundamental_div_mod_converse};
use vstd::relations::injective_on;
use vstd::set_lib::{
    lemma_int_range, lemma_len_subset, lemma_map_size, lemma_subset_equality, set_int_range,
};

use crate::nodes::{added_by, Connection, Node, NodeGraph, Position, random_below};
use crate::solver::{Done, MazeSolver, RandomStar, WalkerState};

verus! {

/// Whether `p` is a cell of the `size` by `size` grid.
pub open spec fn in_grid(size: usize, p: Position) -> bool {
    p.row < size && p.col < size
}

/// Every cell of the `size` by `size` grid.
pub open spec fn grid_cells(size: usize) -> Set<Position> {
    Set::new(|p: Position| in_grid(size, p))
}

/// The cell one step from `p` in direction `d` (`+row`, `+col`, `-row`, `-col` for `d` from
/// 0 to 3), if both lie in the grid.
pub open spec fn step_from(size: usize, p: Position, d: int) -> Option<Position> {
    if !in_grid(size, p) {
        None
    } else if d == 0 && p.row + 1 < size {
        Some(Position { row: (p.row + 1) as usize, col: p.col })
    } else if d == 1 && p.col + 1 < size {
        Some(Position { row: p.row, col: (p.col + 1) as usize })
    } else if d == 2 && p.row > 0 {
        Some(Position { row: (p.row - 1) as usize, col: p.col })
    } else if d == 3 && p.col > 0 {
        Some(Position { row: p.row, col: (p.col - 1) as usize })
    } else {
        None
    }
}

/// Whether `p` and `q` are side by side in a row or a column.
pub open spec fn adjacent(p: Position, q: Position) -> bool {
    ||| p.row == q.row && (p.col + 1 == q.col || q.col + 1 == p.col)
    ||| p.col == q.col && (p.row + 1 == q.row || q.row + 1 == p.row)
}

/// Every neighbour of `p` inside the grid is among `explored`.
pub open spec fn closed(size: usize, explored: Seq<Position>, p: Position) -> bool {
    forall|d: int|
        0 <= d < 4 && (#[trigger] step_from(size, p, d)) is Some ==> explored.contains(
            step_from(size, p, d)->0,
        )
}

/// `order` lists distinct cells of the grid, starting at the corner `(0, 0)`, and each cell
/// after the first is adjacent to the earlier cell whose index `parent` gives.
pub open spec fn is_partial_tree(size: usize, order: Seq<Position>, parent: Seq<int>) -> bool {
    &&& order.len() >= 1
    &&& order[0] == Position { row: 0, col: 0 }
    &&& order.no_duplicates()
    &&& forall|i: int| 0 <= i < order.len() ==> in_grid(size, #[trigger] order[i])
    &&& parent.len() == order.len()
    &&& forall|i: int|
        0 < i < order.len() ==> 0 <= #[trigger] parent[i] < i && adjacent(order[parent[i]], order[i])
}

/// A partial tree that reaches every cell of the grid: a spanning tree.
pub open spec fn is_spanning_tree(size: usize, order: Seq<Position>, parent: Seq<int>) -> bool {
    &&& is_partial_tree(size, order, parent)
    &&& order.len() == size * size
    &&& forall|p: Position| in_grid(size, p) ==> #[trigger] order.contains(p)
}

/// The edges of the tree, one per cell after the first, each from the cell's parent to the
/// cell, in the order the cells were found.
pub open spec fn tree_edges(order: Seq<Position>, parent: Seq<int>) -> Seq<(Position, Position)> {
    Seq::new((order.len() - 1) as nat, |i: int| (order[parent[i + 1]], order[i + 1]))
}

/// The connections that the edges of `edges`, added in their order to a bare grid, leave at
/// the node at `p`.
pub open spec fn conns_after(edges: Seq<(Position, Position)>, p: Position) -> Seq<Connection>
    decreases edges.len(),
{
    if edges.len() == 0 {
        Seq::empty()
    } else {
        conns_after(edges.drop_last(), p) + added_by(p, edges.last().0, edges.last().1)
    }
}

/// Every node of `g` holds exactly the connections that the edges of the tree leave at it.
pub open spec fn carved_from(g: NodeGraph, order: Seq<Position>, parent: Seq<int>) -> bool {
    forall|p: Position| g.in_bounds(p) ==> #[trigger] g.conns(p) == conns_after(tree_edges(order, parent), p)
}

/// The grid has `size * size` cells.
pub(crate) proof fn lemma_grid_len(size: usize)
    ensures
        grid_cells(size).finite(),
        grid_cells(size).len() == size * size,
{
    let n = size as int;
    if n == 0 {
        assert(grid_cells(size) =~= Set::empty());
    } else {
        let range = set_int_range(0, n * n);
        let f = |i: int| Position { row: (i / n) as usize, col: (i % n) as usize };
        lemma_int_range(0, n * n);
        assert forall|i: int| #[trigger] range.contains(i) implies 0 <= i / n < n && 0 <= i % n < n
            && i == n * (i / n) + i % n by {
            lemma_fundamental_div_mod(i, n);
            assert(0 <= i % n < n);
            assert(0 <= i / n < n) by (nonlinear_arith)
                requires
                    i == n * (i / n) + i % n,
                    0 <= i % n < n,
                    0 <= i < n * n,
                    n > 0,
            ;
        }
        assert(injective_on(f, range)) by {
            assert forall|x1: int, x2: int|
                range.contains(x1) && range.contains(x2) && #[trigger] f(x1) == #[trigger] f(
                    x2,
                ) implies x1 == x2 by {
                assert(x1 / n == x2 / n && x1 % n == x2 % n);
            }
        }
        assert(range.map(f) =~= grid_cells(size)) by {
            assert forall|p: Position| #[trigger] grid_cells(size).contains(p) implies range.map(
                f,
            ).contains(p) by {
                let i = p.row * n + p.col;
                assert(0 <= i < n * n) by (nonlinear_arith)
                    requires
                        i == p.row * n + p.col,
                        0 <= p.row < n,
                        0 <= p.col < n,
                ;
                lemma_fundamental_div_mod_converse(i, n, p.row as int, p.col as int);
                assert(range.contains(i) && p == f(i));
            }
        }
        lemma_map_size(range, grid_cells(size), f);
    }
}

/// Distinct cells of the grid number at most `size * size`, and they are all of the grid
/// exactly when they number that many.
proof fn lemma_distinct_cells(size: usize, cells: Seq<Position>)
    requires
        cells.no_duplicates(),
        forall|i: int| 0 <= i < cells.len() ==> in_grid(size, #[trigger] cells[i]),
    ensures
        cells.len() <= size * size,
        cells.len() == size * size <==> forall|p: Position| in_grid(size, p) ==> #[trigger] cells.contains(p),
{
    let s = cells.to_set();
    let g = grid_cells(size);
    lemma_grid_len(size);
    cells.unique_seq_to_set();
    assert(s.subset_of(g)) by {
        assert forall|p: Position| #[trigger] s.contains(p) implies g.contains(p) by {
            let i = choose|i: int| 0 <= i < cells.len() && cells[i] == p;
        }
    }
    lemma_len_subset(s, g);
    if cells.len() == size * size {
        lemma_subset_equality(s, g);
        assert forall|p: Position| in_grid(size, p) implies #[trigger] cells.contains(p) by {
            assert(g.contains(p));
        }
    }
    if forall|p: Position| in_grid(size, p) ==> #[trigger] cells.contains(p) {
        assert(g.subset_of(s));
        lemma_len_subset(g, s);
    }
}

/// Cells in the first row, up to column `col`, are among `explored` when the corner is and
/// no explored cell has an unexplored neighbour.
proof fn lemma_closed_reaches_row(size: usize, explored: Seq<Position>, col: usize)
    requires
        col < size,
        explored.contains(Position { row: 0, col: 0 }),
        forall|x: Position| #[trigger] explored.contains(x) ==> closed(size, explored, x),
    ensures
        explored.contains(Position { row: 0, col }),
    decreases col,
{
    if col > 0 {
        let left = Position { row: 0, col: (col - 1) as usize };
        lemma_closed_reaches_row(size, explored, (col - 1) as usize);
        assert(closed(size, explored, left));
        assert(step_from(size, left, 1) == Some(Position { row: 0, col }));
    }
}

/// Every cell of the grid is among `explored` when the corner is and no explored cell has
/// an unexplored neighbour.
proof fn lemma_closed_covers(size: usize, explored: Seq<Position>)
    requires
        explored.contains(Position { row: 0, col: 0 }),
        forall|x: Position| #[trigger] explored.contains(x) ==> closed(size, explored, x),
    ensures
        forall|p: Position| in_grid(size, p) ==> #[trigger] explored.contains(p),
{
    assert forall|p: Position| in_grid(size, p) implies #[trigger] explored.contains(p) by {
        lemma_closed_reaches_column(size, explored, p.row, p.col);
    }
}

proof fn lemma_closed_reaches_column(size: usize, explored: Seq<Position>, row: usize, col: usize)
    requires
        row < size,
        col < size,
        explored.contains(Position { row: 0, col: 0 }),
        forall|x: Position| #[trigger] explored.contains(x) ==> closed(size, explored, x),
    ensures
        explored.contains(Position { row, col }),
    decreases row,
{
    if row == 0 {
        lemma_closed_reaches_row(size, explored, col);
    } else {
        let up = Position { row: (row - 1) as usize, col };
        lemma_closed_reaches_column(size, explored, (row - 1) as usize, col);
        assert(closed(size, explored, up));
        assert(step_from(size, up, 0) == Some(Position { row, col }));
    }
}

/// The cell one step from `p` in direction `dir`, if both lie in the grid.
pub fn next_position(p: Position, dir: usize, size: usize) -> (r: Option<Position>)
    ensures
        r == step_from(size, p, dir as int),
{
    if p.row >= size || p.col >= size {
        None
    } else if dir == 0 && p.row + 1 < size {
        Some(Position { row: p.row + 1, col: p.col })
    } else if dir == 1 && p.col + 1 < size {
        Some(Position { row: p.row, col: p.col + 1 })
    } else if dir == 2 && p.row > 0 {
        Some(Position { row: p.row - 1, col: p.col })
    } else if dir == 3 && p.col > 0 {
        Some(Position { row: p.row, col: p.col - 1 })
    } else {
        None
    }
}

/// Whether `pos` is among `explored_nodes_list`.
pub fn already_explored(explored_nodes_list: &Vec<Position>, pos: &Position) -> (r: bool)
    ensures
        r == explored_nodes_list@.contains(*pos),
{
    let mut i: usize = 0;
    while i < explored_nodes_list.len()
        invariant
            i <= explored_nodes_list@.len(),
            forall|j: int| 0 <= j < i ==> explored_nodes_list@[j] != *pos,
        decreases explored_nodes_list@.len() - i,
    {
        if explored_nodes_list[i] == *pos {
            return true;
        }
        i += 1;
    }
    false
}

/// Explored indices that are known to have no unexplored neighbour left.
spec fn dead_indices(dead: Seq<bool>, len: int) -> Set<int> {
    Set::new(|j: int| 0 <= j < len && dead[j])
}

/// Every connection that edges among the cells of `cells` leave at a node leads to one of
/// those cells.
proof fn lemma_conns_after_targets(edges: Seq<(Position, Position)>, cells: Seq<Position>, p: Position)
    requires
        forall|j: int|
            0 <= j < edges.len() ==> cells.contains(#[trigger] edges[j].0) && cells.contains(
                edges[j].1,
            ),
    ensures
        forall|i: int|
            0 <= i < conns_after(edges, p).len() ==> cells.contains(
                (#[trigger] conns_after(edges, p)[i]).target(),
            ),
    decreases edges.len(),
{
    if edges.len() > 0 {
        let rest = edges.drop_last();
        assert forall|j: int| 0 <= j < rest.len() implies cells.contains(#[trigger] rest[j].0)
            && cells.contains(rest[j].1) by {
            assert(rest[j] == edges[j]);
            assert(cells.contains(edges[j].0));
        }
        lemma_conns_after_targets(rest, cells, p);
        let e = edges.last();
        assert(edges[edges.len() - 1] == e);
        let base = conns_after(rest, p);
        assert forall|i: int| 0 <= i < conns_after(edges, p).len() implies cells.contains(
            (#[trigger] conns_after(edges, p)[i]).target(),
        ) by {
            if i >= base.len() {
                assert(conns_after(edges, p)[i] == added_by(p, e.0, e.1)[i - base.len()]);
            } else {
                assert(conns_after(edges, p)[i] == base[i]);
            }
        }
    }
}

/// A node at an end of one of the edges holds at least one connection.
proof fn lemma_conns_after_nonempty(edges: Seq<(Position, Position)>, p: Position, j: int)
    requires
        0 <= j < edges.len(),
        edges[j].0 == p || edges[j].1 == p,
    ensures
        conns_after(edges, p).len() > 0,
    decreases edges.len(),
{
    if j < edges.len() - 1 {
        assert(edges.drop_last()[j] == edges[j]);
        lemma_conns_after_nonempty(edges.drop_last(), p, j);
    }
}

/// Carves a perfect maze into `nodes`, a bare `maze_size` by `maze_size` grid.
///
/// The walk starts at the corner `(0, 0)` and keeps the cells it has explored in the order
/// it found them. Each round it takes a random direction from the current cell. Into an
/// unexplored cell it simply moves. Onto an explored cell it retreats instead: it goes `k`
/// cells back in the order of discovery, skipping cells already known to be dead ends, and
/// moves from there to the first unexplored neighbour in the order `+row`, `+col`, `-row`,
/// `-col`; where there is none, that cell is marked a dead end and the round carves nothing.
/// Each move appends the new cell to the explored cells and adds the edge from the cell
/// it left to the cell it entered, so that every cell is reached from the corner along
/// outgoing edges. The walk stops once `k` reaches the number of cells.
///
/// A direction that leaves the grid changes nothing and is drawn again, so each round draws
/// among the directions that stay inside the grid.
#[verifier::loop_isolation(false)]
#[verifier::rlimit(40)]
pub fn generate_maze(maze_size: usize, nodes: &mut NodeGraph)
    requires
        old(nodes).wf(),
        old(nodes).is_bare(),
        old(nodes).size == maze_size,
        maze_size * maze_size <= usize::MAX,
    ensures
        final(nodes).wf(),
        final(nodes).size == maze_size,
        maze_size > 0 ==> exists|order: Seq<Position>, parent: Seq<int>|
            is_spanning_tree(maze_size, order, parent) && #[trigger] carved_from(
                *final(nodes),
                order,
                parent,
            ),
        maze_size > 1 ==> forall|p: Position|
            final(nodes).in_bounds(p) ==> (#[trigger] final(nodes).conns(p)).len() > 0,
{
    if maze_size == 0 {
        return ;
    }
    let n = maze_size;
    let total = n * n;
    let mut cur = Position { row: 0, col: 0 };
    let mut k: usize = 1;
    let mut explored: Vec<Position> = Vec::new();
    explored.push(cur);
    let mut dead: Vec<bool> = Vec::new();
    while dead.len() < total
        invariant
            dead@.len() <= total,
            forall|j: int| 0 <= j < dead@.len() ==> !dead@[j],
        decreases total - dead@.len(),
    {
        dead.push(false);
    }
    let ghost mut parent: Seq<int> = seq![0];
    let ghost mut cur_idx: int = 0;
    proof {
        assert(total >= 1) by (nonlinear_arith)
            requires
                total == n * n,
                n >= 1,
        ;
        assert forall|p: Position| nodes.in_bounds(p) implies #[trigger] nodes.conns(p)
            == conns_after(tree_edges(explored@, parent), p) by {
            assert(nodes.conns(p).len() == 0);
            assert(nodes.conns(p) =~= Seq::empty());
        }
    }
    while explored.len() <= total && k < total
        invariant
            total == n * n,
            n >= 1,
            nodes.wf(),
            nodes.size == n,
            is_partial_tree(n, explored@, parent),
            carved_from(*nodes, explored@, parent),
            explored@.len() <= total,
            0 <= cur_idx < explored@.len(),
            explored@[cur_idx] == cur,
            1 <= k <= total,
            k <= explored@.len(),
            dead@.len() == total,
            forall|j: int|
                0 <= j < explored@.len() && #[trigger] dead@[j] ==> closed(n, explored@, explored@[j]),
            forall|j: int| explored@.len() <= j < total ==> !#[trigger] dead@[j],
            forall|j: int| explored@.len() - k < j < explored@.len() ==> #[trigger] dead@[j],
        decreases
            total + 1 - explored@.len(),
            total - k,
            explored@.len() - dead_indices(dead@, explored@.len() as int).len(),
    {
        let ghost len = explored@.len() as int;
        let ghost k_start = k;
        proof {
            lemma_int_range(0, len);
            assert(dead_indices(dead@, len).subset_of(set_int_range(0, len)));
            lemma_len_subset(dead_indices(dead@, len), set_int_range(0, len));
            assert(n >= 2) by (nonlinear_arith)
                requires
                    total == n * n,
                    1 <= k < total,
                    n >= 1,
            ;
        }
        // The directions that stay inside the grid.
        let mut options: Vec<Position> = Vec::new();
        let mut d: usize = 0;
        while d < 4
            invariant
                d <= 4,
                forall|i: int|
                    0 <= i < options@.len() ==> in_grid(n, #[trigger] options@[i]) && adjacent(
                        cur,
                        options@[i],
                    ),
                options@.len() == 0 ==> forall|e: int| 0 <= e < d ==> #[trigger] step_from(n, cur, e) is None,
            decreases 4 - d,
        {
            match next_position(cur, d, n) {
                Some(q) => {
                    options.push(q);
                },
                None => {},
            }
            d += 1;
        }
        proof {
            assert(in_grid(n, cur));
            if cur.row + 1 < n {
                assert(step_from(n, cur, 0) is Some);
            } else {
                assert(step_from(n, cur, 2) is Some);
            }
        }
        let candidate = options[random_below(options.len())];
        let prev: Position;
        let ghost parent_idx: int;
        if already_explored(&explored, &candidate) {
            // Retreat along the order of discovery, past the cells known to be dead ends.
            while dead[explored.len() - k] && k < total
                invariant
                    k_start <= k <= total,
                    k <= explored@.len(),
                    forall|j: int| explored@.len() - k < j < explored@.len() ==> #[trigger] dead@[j],
                decreases total - k,
            {
                proof {
                    if k == explored@.len() {
                        assert forall|x: Position| #[trigger] explored@.contains(x) implies closed(
                            n,
                            explored@,
                            x,
                        ) by {
                            let j = choose|j: int| 0 <= j < explored@.len() && explored@[j] == x;
                            assert(dead@[j]);
                        }
                        lemma_closed_covers(n, explored@);
                        lemma_distinct_cells(n, explored@);
                    }
                }
                k += 1;
            }
            let t = explored.len() - k;
            let target = explored[t];
            cur = target;
            proof {
                cur_idx = t as int;
            }
            let mut found: Option<Position> = None;
            let mut searching = true;
            let mut d: usize = 0;
            while searching && d < 4
                invariant
                    d <= 4,
                    searching ==> found is None,
                    searching ==> forall|e: int|
                        0 <= e < d && (#[trigger] step_from(n, target, e)) is Some ==> explored@.contains(
                            step_from(n, target, e)->0,
                        ),
                    !searching ==> found is Some && in_grid(n, found->0) && adjacent(target, found->0)
                        && !explored@.contains(found->0),
                decreases 4 - d,
            {
                match next_position(target, d, n) {
                    Some(q) => {
                        if !already_explored(&explored, &q) {
                            found = Some(q);
                            searching = false;
                        }
                    },
                    None => {},
                }
                d += 1;
            }
            match found {
                None => {
                    proof {
                        assert(closed(n, explored@, target));
                        let grown = dead_indices(dead@.update(t as int, true), len);
                        assert(grown.subset_of(set_int_range(0, len)));
                        lemma_len_subset(grown, set_int_range(0, len));
                        if k == k_start {
                            assert(!dead@[t as int]);
                            assert(!dead_indices(dead@, len).contains(t as int));
                            assert(dead_indices(dead@.update(t as int, true), len) =~= dead_indices(
                                dead@,
                                len,
                            ).insert(t as int));
                            assert(dead_indices(dead@.update(t as int, true), len).len()
                                == dead_indices(dead@, len).len() + 1);
                        }
                    }
                    dead.set(t, true);
                    continue ;
                },
                Some(q) => {
                    prev = target;
                    cur = q;
                    proof {
                        parent_idx = t as int;
                    }
                },
            }
        } else {
            prev = cur;
            cur = candidate;
            proof {
                parent_idx = cur_idx;
            }
        }
        // `cur` is a new cell next to `prev`, an explored one.
        proof {
            let edges = tree_edges(explored@, parent);
            assert forall|j: int| 0 <= j < edges.len() implies explored@.contains(
                #[trigger] edges[j].0,
            ) && explored@.contains(edges[j].1) by {
                assert(explored@[parent[j + 1]] == edges[j].0);
                assert(explored@[j + 1] == edges[j].1);
            }
            lemma_conns_after_targets(edges, explored@, prev);
            assert(nodes.conns(prev) == conns_after(edges, prev));
            if nodes.node(prev).links_to(cur) {
                let i = choose|i: int|
                    0 <= i < nodes.conns(prev).len() && (#[trigger] nodes.conns(prev)[i]).target() == cur;
                assert(explored@.contains(nodes.conns(prev)[i].target()));
            }
            assert(prev == explored@[parent_idx]);
        }
        k = 1;
        let ghost old_nodes = *nodes;
        let ghost old_order = explored@;
        explored.push(cur);
        Node::connect(prev, cur, nodes);
        proof {
            let old_parent = parent;
            assert(explored@.drop_last() =~= old_order);
            lemma_distinct_cells(n, explored@);
            parent = parent.push(parent_idx);
            cur_idx = len;
            assert(tree_edges(explored@, parent).drop_last() =~= tree_edges(old_order, old_parent));
            assert(tree_edges(explored@, parent).last() == (prev, cur));
            assert forall|p: Position| nodes.in_bounds(p) implies #[trigger] nodes.conns(p)
                == conns_after(tree_edges(explored@, parent), p) by {
                assert(old_nodes.conns(p) == conns_after(tree_edges(old_order, old_parent), p));
            }
            assert forall|i: int| 0 <= i < explored@.len() implies in_grid(n, #[trigger] explored@[i]) by {
                if i < len {
                    assert(explored@[i] == old_order[i]);
                }
            }
            assert forall|j: int|
                0 <= j < explored@.len() && #[trigger] dead@[j] implies closed(n, explored@, explored@[j]) by {
                assert(explored@[j] == old_order[j]);
                assert(closed(n, old_order, old_order[j]));
                assert forall|e: int|
                    0 <= e < 4 && (#[trigger] step_from(n, explored@[j], e)) is Some implies explored@.contains(
                        step_from(n, explored@[j], e)->0,
                    ) by {
                    let w = step_from(n, explored@[j], e)->0;
                    let i = choose|i: int| 0 <= i < old_order.len() && old_order[i] == w;
                    assert(explored@[i] == w);
                }
            }
            lemma_distinct_cells(n, explored@);
        }
    }
    proof {
        lemma_distinct_cells(n, explored@);
        assert(is_spanning_tree(n, explored@, parent));
        assert(carved_from(*nodes, explored@, parent));
        if n > 1 {
            assert(total >= 4) by (nonlinear_arith)
                requires
                    total == n * n,
                    n > 1,
            ;
            let edges = tree_edges(explored@, parent);
            assert forall|p: Position| nodes.in_bounds(p) implies (#[trigger] nodes.conns(p)).len() > 0 by {
                assert(explored@.contains(p));
                let i = choose|i: int| 0 <= i < explored@.len() && explored@[i] == p;
                if i == 0 {
                    assert(parent[1] == 0);
                    assert(edges[0].0 == p);
                    lemma_conns_after_nonempty(edges, p, 0);
                } else {
                    assert(edges[i - 1].1 == p);
                    lemma_conns_after_nonempty(edges, p, i - 1);
                }
            }
        }
    }
}

/// Whether `path` is a simple path of `g`: distinct cells of the grid, each joined to the
/// next by an edge in one direction or the other.
pub open spec fn is_simple_path(g: NodeGraph, path: Seq<Position>) -> bool {
    &&& path.len() >= 1
    &&& path.no_duplicates()
    &&& forall|i: int| 0 <= i < path.len() ==> g.in_bounds(#[trigger] path[i])
    &&& forall|i: int| 0 <= i < path.len() - 1 ==> g.node(#[trigger] path[i]).links_to(path[i + 1])
}

/// Whether indices `a` and `b` are joined in the tree of `parent`: one is the other's parent.
spec fn tree_adjacent(parent: Seq<int>, a: int, b: int) -> bool {
    (a >= 1 && parent[a] == b) || (b >= 1 && parent[b] == a)
}

/// `p` is a simple path over the indices below `m` of the tree of `parent`.
spec fn is_index_path(parent: Seq<int>, m: int, p: Seq<int>) -> bool {
    &&& p.len() >= 1
    &&& p.no_duplicates()
    &&& forall|i: int| 0 <= i < p.len() ==> 0 <= #[trigger] p[i] < m
    &&& forall|i: int| 0 <= i < p.len() - 1 ==> tree_adjacent(parent, #[trigger] p[i], p[i + 1])
}

/// In the tree of `parent`, two simple paths over the indices below `m` with the same ends
/// are the same. Index `m - 1` is a leaf of that tree, so it can stand only at an end of a
/// path; the rest follows from the tree below `m - 1`.
proof fn lemma_index_paths_unique(parent: Seq<int>, m: int, p1: Seq<int>, p2: Seq<int>)
    requires
        m <= parent.len(),
        forall|i: int| 1 <= i < parent.len() ==> 0 <= #[trigger] parent[i] < i,
        is_index_path(parent, m, p1),
        is_index_path(parent, m, p2),
        p1[0] == p2[0],
        p1.last() == p2.last(),
    ensures
        p1 == p2,
    decreases m,
{
    let x = m - 1;
    assert(p1[0] < m);
    // A neighbour below `m` of the leaf `x` is its parent.
    assert forall|p: Seq<int>, t: int|
        is_index_path(parent, m, p) && 0 <= t < p.len() && #[trigger] p[t] == x implies (t == 0 || t
            == p.len() - 1) by {
        if 0 < t < p.len() - 1 {
            assert(tree_adjacent(parent, p[t - 1], p[t]));
            assert(tree_adjacent(parent, p[t], p[t + 1]));
            assert(p[t - 1] == parent[x]);
            assert(p[t + 1] == parent[x]);
        }
    }
    if p1[0] != x && p1.last() != x {
        assert forall|p: Seq<int>| #[trigger] is_index_path(parent, m, p) && p[0] != x && p.last() != x
            implies is_index_path(parent, m - 1, p) by {
            assert forall|i: int| 0 <= i < p.len() implies 0 <= #[trigger] p[i] < m - 1 by {
                if p[i] == x {
                    assert(i == 0 || i == p.len() - 1);
                }
            }
        }
        assert(is_index_path(parent, m, p2) && p2[0] != x && p2.last() != x);
        lemma_index_paths_unique(parent, m - 1, p1, p2);
    } else if p1.len() == 1 || p2.len() == 1 {
        if p1.len() > 1 {
            assert(p1[0] == p1[p1.len() - 1]);
        }
        if p2.len() > 1 {
            assert(p2[0] == p2[p2.len() - 1]);
        }
        assert(p1 =~= p2);
    } else if p1[0] == x {
        let t1 = p1.drop_first();
        let t2 = p2.drop_first();
        assert(tree_adjacent(parent, p1[0], p1[1]));
        assert(tree_adjacent(parent, p2[0], p2[1]));
        assert(p1[1] == parent[x] && p2[1] == parent[x]);
        assert forall|p: Seq<int>|
            #[trigger] is_index_path(parent, m, p) && p[0] == x && p.len() > 1 implies is_index_path(
                parent,
                m - 1,
                p.drop_first(),
            ) by {
            let t = p.drop_first();
            assert forall|i: int| 0 <= i < t.len() implies 0 <= #[trigger] t[i] < m - 1 by {
                assert(t[i] == p[i + 1]);
            }
            assert forall|i: int| 0 <= i < t.len() - 1 implies tree_adjacent(
                parent,
                #[trigger] t[i],
                t[i + 1],
            ) by {
                assert(t[i] == p[i + 1] && t[i + 1] == p[i + 2]);
            }
        }
        lemma_index_paths_unique(parent, m - 1, t1, t2);
        assert(p1 =~= seq![x] + t1);
        assert(p2 =~= seq![x] + t2);
    } else {
        let t1 = p1.drop_last();
        let t2 = p2.drop_last();
        let n1 = p1.len() - 1;
        let n2 = p2.len() - 1;
        assert(tree_adjacent(parent, p1[n1 - 1], p1[n1]));
        assert(tree_adjacent(parent, p2[n2 - 1], p2[n2]));
        assert(p1[n1 - 1] == parent[x] && p2[n2 - 1] == parent[x]);
        assert forall|p: Seq<int>|
            #[trigger] is_index_path(parent, m, p) && p.last() == x && p.len() > 1 implies is_index_path(
                parent,
                m - 1,
                p.drop_last(),
            ) by {
            let t = p.drop_last();
            assert forall|i: int| 0 <= i < t.len() implies 0 <= #[trigger] t[i] < m - 1 by {
                assert(t[i] == p[i]);
            }
            assert forall|i: int| 0 <= i < t.len() - 1 implies tree_adjacent(
                parent,
                #[trigger] t[i],
                t[i + 1],
            ) by {
                assert(t[i] == p[i] && t[i + 1] == p[i + 1]);
            }
        }
        assert(t1[0] == p1[0] && t2[0] == p2[0]);
        lemma_index_paths_unique(parent, m - 1, t1, t2);
        assert(p1 =~= t1.push(x));
        assert(p2 =~= t2.push(x));
    }
}

/// A connection that the edges of `edges` leave at `p` comes from an edge between `p` and
/// the cell at its other end.
proof fn lemma_conns_after_edge(edges: Seq<(Position, Position)>, p: Position, i: int)
    requires
        0 <= i < conns_after(edges, p).len(),
    ensures
        exists|j: int|
            0 <= j < edges.len() && (#[trigger] edges[j] == (p, conns_after(edges, p)[i].target())
                || edges[j] == (conns_after(edges, p)[i].target(), p)),
    decreases edges.len(),
{
    let rest = edges.drop_last();
    let base = conns_after(rest, p);
    let e = edges.last();
    let q = conns_after(edges, p)[i].target();
    if i < base.len() {
        assert(conns_after(edges, p)[i] == base[i]);
        lemma_conns_after_edge(rest, p, i);
        let j = choose|j: int|
            0 <= j < rest.len() && (#[trigger] rest[j] == (p, q) || rest[j] == (q, p));
        assert(edges[j] == rest[j]);
    } else {
        assert(conns_after(edges, p)[i] == added_by(p, e.0, e.1)[i - base.len()]);
        assert(edges[edges.len() - 1] == e);
    }
}

/// The index of `p` in `order`.
spec fn index_in(order: Seq<Position>, p: Position) -> int {
    choose|i: int| 0 <= i < order.len() && order[i] == p
}

/// In a maze carved along a spanning tree there is exactly one simple path between two
/// cells: two simple paths with the same first and last cells are the same path.
pub proof fn lemma_unique_simple_path(
    g: NodeGraph,
    order: Seq<Position>,
    parent: Seq<int>,
    path1: Seq<Position>,
    path2: Seq<Position>,
)
    requires
        is_spanning_tree(g.size, order, parent),
        carved_from(g, order, parent),
        is_simple_path(g, path1),
        is_simple_path(g, path2),
        path1[0] == path2[0],
        path1.last() == path2.last(),
    ensures
        path1 == path2,
{
    let m = order.len() as int;
    let edges = tree_edges(order, parent);
    let ix = |p: Position| index_in(order, p);
    assert forall|p: Position| g.in_bounds(p) implies 0 <= #[trigger] index_in(order, p) < m
        && order[index_in(order, p)] == p by {
        assert(order.contains(p));
    }
    assert forall|a: int, b: int| 0 <= a < m && 0 <= b < m && order[a] == order[b] implies a == b by {}
    assert forall|path: Seq<Position>| #[trigger] is_simple_path(g, path) implies is_index_path(
        parent,
        m,
        path.map_values(ix),
    ) by {
        let ip = path.map_values(ix);
        assert forall|i: int| 0 <= i < ip.len() implies 0 <= #[trigger] ip[i] < m by {
            assert(g.in_bounds(path[i]));
        }
        assert forall|i: int, j: int| 0 <= i < ip.len() && 0 <= j < ip.len() && i != j implies ip[i]
            != ip[j] by {
            assert(g.in_bounds(path[i]) && g.in_bounds(path[j]));
        }
        assert forall|i: int| 0 <= i < ip.len() - 1 implies tree_adjacent(
            parent,
            #[trigger] ip[i],
            ip[i + 1],
        ) by {
            let p = path[i];
            let q = path[i + 1];
            assert(g.in_bounds(p) && g.in_bounds(q));
            assert(g.node(p).links_to(q));
            let k = choose|k: int| 0 <= k < g.conns(p).len() && (#[trigger] g.conns(p)[k]).target() == q;
            assert(g.conns(p) == conns_after(edges, p));
            lemma_conns_after_edge(edges, p, k);
            let j = choose|j: int| 0 <= j < edges.len() && (#[trigger] edges[j] == (p, q) || edges[j] == (q, p));
            assert(edges[j] == (order[parent[j + 1]], order[j + 1]));
            assert(0 <= parent[j + 1] < j + 1);
        }
    }
    let i1 = path1.map_values(ix);
    let i2 = path2.map_values(ix);
    assert(g.in_bounds(path1[0]) && g.in_bounds(path1[path1.len() - 1]));
    assert(i1.last() == i2.last()) by {
        assert(path2[path2.len() - 1] == path1[path1.len() - 1]);
    }
    lemma_index_paths_unique(parent, m, i1, i2);
    assert forall|i: int| 0 <= i < path1.len() implies path1[i] == path2[i] by {
        assert(g.in_bounds(path1[i]) && g.in_bounds(path2[i]));
        assert(order[i1[i]] == path1[i]);
        assert(order[i2[i]] == path2[i]);
    }
    assert(path1 =~= path2);
}

/// A `size` by `size` grid with a perfect maze carved into it.
pub fn generate(size: usize) -> (r: NodeGraph)
    requires
        size * size <= usize::MAX,
    ensures
        r.wf(),
        r.size == size,
        size > 0 ==> exists|order: Seq<Position>, parent: Seq<int>|
            is_spanning_tree(size, order, parent) && #[trigger] carved_from(r, order, parent),
        size > 1 ==> forall|p: Position| r.in_bounds(p) ==> (#[trigger] r.conns(p)).len() > 0,
{
    let mut nodes = NodeGraph::new(size);
    generate_maze(size, &mut nodes);
    nodes
}

/// Clears every edge of `nodes`, carves a new maze into it, and replaces `random_star` with
/// a fresh solver from the corner `(0, 0)` to the far corner.
pub fn reset(nodes: &mut NodeGraph, random_star: &mut RandomStar, maze_size: usize)
    requires
        old(nodes).well_shaped(),
        old(nodes).size == maze_size,
        maze_size > 0,
        maze_size * maze_size <= usize::MAX,
    ensures
        final(nodes).wf(),
        final(nodes).size == maze_size,
        exists|order: Seq<Position>, parent: Seq<int>|
            is_spanning_tree(maze_size, order, parent) && #[trigger] carved_from(
                *final(nodes),
                order,
                parent,
            ),
        maze_size > 1 ==> forall|p: Position|
            final(nodes).in_bounds(p) ==> (#[trigger] final(nodes).conns(p)).len() > 0,
        final(random_star).start == (Position { row: 0, col: 0 }),
        final(random_star).end == (Position { row: (maze_size - 1) as usize, col: (maze_size - 1) as usize }),
        final(random_star).path@.len() == 0,
        final(random_star).walkers@.len() == 1,
        final(random_star).walkers@[0]@ == (WalkerState {
            current: Position { row: 0, col: 0 },
            path: Seq::empty(),
            status: Done::NotFound(false),
        }),
{
    nodes.clear();
    *random_star = RandomStar::new(
        Position { row: 0, col: 0 },
        Position { row: maze_size - 1, col: maze_size - 1 },
    );
    generate_maze(maze_size, nodes);
}

} // verus!
