//! Solvers that explore a maze with walkers, forking a new walker at every junction.

use vstd::prelude::*;

use vstd::set_lib::lemma_len_subset;

use crate::maze::{already_explored, grid_cells, lemma_grid_len};
use crate::nodes::{Connection, NodeGraph, Position, lemma_outs_are_among, out_targets};

verus! {

/// Where a walker stands: `Found` once it has reached the end; `NotFound(true)` once it is
/// stuck; `NotFound(false)` while it is still under way.
#[derive(Clone, Copy, PartialEq, Eq, Structural, Debug)]
pub enum Done {
    Found,
    NotFound(bool),
}

/// What a walker is, for contracts: its cell, the cells it has stepped to, its status.
pub struct WalkerState {
    pub current: Position,
    pub path: Seq<Position>,
    pub status: Done,
}

/// A cursor that walks the maze and remembers the cells it stepped to.
pub struct Walker {
    pub current_node: Position,
    pub path: Vec<Position>,
    pub is_done: Done,
}

impl View for Walker {
    type V = WalkerState;

    open spec fn view(&self) -> WalkerState {
        WalkerState { current: self.current_node, path: self.path@, status: self.is_done }
    }
}

/// The states of the walkers of `ws`, in their order.
pub open spec fn states(ws: Seq<Walker>) -> Seq<WalkerState> {
    ws.map_values(|w: Walker| w@)
}

pub open spec fn in_progress(w: WalkerState) -> bool {
    w.status == Done::NotFound(false)
}

/// A new walker that has stepped from a walker with history `path` onto `t`.
pub open spec fn fork_onto(path: Seq<Position>, t: Position) -> WalkerState {
    WalkerState { current: t, path: path.push(t), status: Done::NotFound(false) }
}

/// The branches `1..m` of `outs` seen from a walker with history `path`, in order, starting
/// from the claimed cells `visited`: a branch whose cell is already claimed marks the walker
/// stuck; any other gets a fork and its cell is claimed. Gives whether the walker was marked
/// stuck, the forks, and the claimed cells after.
pub open spec fn branches(outs: Seq<Position>, path: Seq<Position>, visited: Seq<Position>, m: int) -> (
    bool,
    Seq<WalkerState>,
    Seq<Position>,
)
    decreases m,
{
    if m <= 1 {
        (false, Seq::empty(), visited)
    } else {
        let before = branches(outs, path, visited, m - 1);
        let t = outs[m - 1];
        if before.2.contains(t) {
            (true, before.1, before.2)
        } else {
            (before.0, before.1.push(fork_onto(path, t)), before.2.push(t))
        }
    }
}

/// One walker's part of a tick, with the claimed cells `visited`: gives the walker after,
/// the walkers it forked, and the claimed cells after.
///
/// A walker that is not under way is left as it is. Otherwise every outgoing edge of its
/// cell but the first is a branch (see `branches`). Then a walker at `end` has found it; a
/// walker with no outgoing edge is stuck; any other steps along the first outgoing edge,
/// whose cell it claims.
pub open spec fn advance(g: NodeGraph, end: Position, w: WalkerState, visited: Seq<Position>) -> (
    WalkerState,
    Seq<WalkerState>,
    Seq<Position>,
) {
    if !in_progress(w) {
        (w, Seq::empty(), visited)
    } else {
        let outs = out_targets(g.conns(w.current));
        let b = branches(outs, w.path, visited, outs.len() as int);
        let status = if b.0 {
            Done::NotFound(true)
        } else {
            Done::NotFound(false)
        };
        if w.current == end {
            (WalkerState { status: Done::Found, ..w }, b.1, b.2)
        } else if outs.len() == 0 {
            (WalkerState { status: Done::NotFound(true), ..w }, b.1, b.2)
        } else {
            (
                WalkerState { current: outs[0], path: w.path.push(outs[0]), status },
                b.1,
                b.2.push(outs[0]),
            )
        }
    }
}

/// The first `m` walkers of `ws` each take their part of a tick, in order, each seeing the
/// cells claimed by those before it. Gives those walkers after, all their forks, and the
/// claimed cells after.
pub open spec fn sweep(
    g: NodeGraph,
    end: Position,
    ws: Seq<WalkerState>,
    visited: Seq<Position>,
    m: int,
) -> (Seq<WalkerState>, Seq<WalkerState>, Seq<Position>)
    decreases m,
{
    if m <= 0 {
        (Seq::empty(), Seq::empty(), visited)
    } else {
        let before = sweep(g, end, ws, visited, m - 1);
        let r = advance(g, end, ws[m - 1], before.2);
        (before.0.push(r.0), before.1 + r.1, r.2)
    }
}

/// The walkers after a whole tick: each walker after its part, then every fork.
pub open spec fn tick(g: NodeGraph, end: Position, ws: Seq<WalkerState>, visited: Seq<Position>) -> (
    Seq<WalkerState>,
    Seq<Position>,
) {
    let r = sweep(g, end, ws, visited, ws.len() as int);
    (r.0 + r.1, r.2)
}

/// Every walker of `ws` stands on a cell of `g`.
pub open spec fn walkers_in(g: NodeGraph, ws: Seq<WalkerState>) -> bool {
    forall|i: int| 0 <= i < ws.len() ==> g.in_bounds(#[trigger] ws[i].current)
}

/// The number of distinct cells among `visited`.
pub open spec fn claimed(visited: Seq<Position>) -> nat {
    visited.to_set().len()
}

/// Every cell among `cells` is a cell of `g`.
pub open spec fn cells_in(g: NodeGraph, cells: Seq<Position>) -> bool {
    forall|i: int| 0 <= i < cells.len() ==> g.in_bounds(#[trigger] cells[i])
}

/// Appending a cell never lowers the number of distinct cells, and raises it by one when the
/// cell is new.
proof fn lemma_claim_one(visited: Seq<Position>, t: Position)
    ensures
        claimed(visited.push(t)) == claimed(visited) + (if visited.contains(t) {
            0int
        } else {
            1int
        }),
{
    assert(visited.push(t).to_set() =~= visited.to_set().insert(t)) by {
        assert forall|x: Position| #[trigger] visited.push(t).contains(x) <==> visited.to_set().insert(
            t,
        ).contains(x) by {
            if visited.push(t).contains(x) && x != t {
                let i = choose|i: int| 0 <= i < visited.push(t).len() && visited.push(t)[i] == x;
                assert(visited[i] == x);
            }
            if visited.contains(x) {
                let i = choose|i: int| 0 <= i < visited.len() && visited[i] == x;
                assert(visited.push(t)[i] == x);
            }
            assert(visited.push(t)[visited.len() as int] == t);
        }
    }
    vstd::seq_lib::seq_to_set_is_finite(visited);
}

/// Each fork of `branches` claims a cell that was not claimed before it; the claimed cells
/// stay cells of `g` when the branches are.
proof fn lemma_branches_claim(
    g: NodeGraph,
    outs: Seq<Position>,
    path: Seq<Position>,
    visited: Seq<Position>,
    m: int,
)
    requires
        m <= outs.len(),
        cells_in(g, outs),
        cells_in(g, visited),
    ensures
        ({
            let b = branches(outs, path, visited, m);
            &&& b.1.len() + claimed(visited) <= claimed(b.2)
            &&& cells_in(g, b.2)
            &&& walkers_in(g, b.1)
        }),
    decreases m,
{
    if m > 1 {
        lemma_branches_claim(g, outs, path, visited, m - 1);
        let before = branches(outs, path, visited, m - 1);
        let t = outs[m - 1];
        lemma_claim_one(before.2, t);
        assert(g.in_bounds(t));
        let b = branches(outs, path, visited, m);
        assert forall|i: int| 0 <= i < b.2.len() implies g.in_bounds(#[trigger] b.2[i]) by {
            if i < before.2.len() {
                assert(b.2[i] == before.2[i]);
            }
        }
        assert forall|i: int| 0 <= i < b.1.len() implies g.in_bounds(#[trigger] b.1[i].current) by {
            if i < before.1.len() {
                assert(b.1[i] == before.1[i]);
            }
        }
    }
}

/// One walker's part of a tick forks at most as many walkers as it claims new cells, and
/// leaves every walker and claimed cell on the grid.
proof fn lemma_advance_claim(g: NodeGraph, end: Position, w: WalkerState, visited: Seq<Position>)
    requires
        g.wf(),
        g.in_bounds(w.current),
        cells_in(g, visited),
    ensures
        ({
            let r = advance(g, end, w, visited);
            &&& r.1.len() + claimed(visited) <= claimed(r.2)
            &&& cells_in(g, r.2)
            &&& walkers_in(g, r.1)
            &&& g.in_bounds(r.0.current)
        }),
{
    if in_progress(w) {
        let conns = g.conns(w.current);
        let outs = out_targets(conns);
        lemma_outs_are_among(conns);
        assert forall|i: int| 0 <= i < outs.len() implies g.in_bounds(#[trigger] outs[i]) by {
            let c = crate::nodes::outs(conns)[i];
            let j = choose|j: int| 0 <= j < conns.len() && conns[j] == c;
            assert(g.in_bounds(conns[j].target()));
        }
        lemma_branches_claim(g, outs, w.path, visited, outs.len() as int);
        let b = branches(outs, w.path, visited, outs.len() as int);
        if w.current != end && outs.len() > 0 {
            lemma_claim_one(b.2, outs[0]);
            assert forall|i: int| 0 <= i < b.2.push(outs[0]).len() implies g.in_bounds(
                #[trigger] b.2.push(outs[0])[i],
            ) by {
                if i < b.2.len() {
                    assert(b.2.push(outs[0])[i] == b.2[i]);
                }
            }
        }
    } else {
        assert(advance(g, end, w, visited).1.len() == 0);
    }
}

/// The first `m` walkers' parts of a tick fork at most as many walkers as they claim new
/// cells.
proof fn lemma_sweep_claim(
    g: NodeGraph,
    end: Position,
    ws: Seq<WalkerState>,
    visited: Seq<Position>,
    m: int,
)
    requires
        g.wf(),
        0 <= m <= ws.len(),
        walkers_in(g, ws),
        cells_in(g, visited),
    ensures
        ({
            let s = sweep(g, end, ws, visited, m);
            &&& s.0.len() == m
            &&& s.1.len() + claimed(visited) <= claimed(s.2)
            &&& cells_in(g, s.2)
            &&& walkers_in(g, s.0)
            &&& walkers_in(g, s.1)
        }),
    decreases m,
{
    if m > 0 {
        lemma_sweep_claim(g, end, ws, visited, m - 1);
        let before = sweep(g, end, ws, visited, m - 1);
        assert(g.in_bounds(ws[m - 1].current));
        lemma_advance_claim(g, end, ws[m - 1], before.2);
        let r = advance(g, end, ws[m - 1], before.2);
        let s = sweep(g, end, ws, visited, m);
        assert forall|i: int| 0 <= i < s.0.len() implies g.in_bounds(#[trigger] s.0[i].current) by {
            if i < before.0.len() {
                assert(s.0[i] == before.0[i]);
            }
        }
        assert forall|i: int| 0 <= i < s.1.len() implies g.in_bounds(#[trigger] s.1[i].current) by {
            if i < before.1.len() {
                assert(s.1[i] == before.1[i]);
            } else {
                assert(s.1[i] == r.1[i - before.1.len()]);
            }
        }
    }
}

/// The walkers never outgrow the maze: every fork claims a cell that no walker had
/// claimed, so a tick keeps the walkers at no more than one above the number of distinct
/// claimed cells, which are cells of the grid. A fresh solver (one walker, nothing claimed)
/// meets the condition, so however many ticks run, the walkers number at most one more than
/// the cells of the grid.
pub proof fn lemma_tick_keeps_walkers_bounded(
    g: NodeGraph,
    end: Position,
    ws: Seq<WalkerState>,
    visited: Seq<Position>,
)
    requires
        g.wf(),
        walkers_in(g, ws),
        cells_in(g, visited),
        ws.len() <= 1 + claimed(visited),
    ensures
        ({
            let t = tick(g, end, ws, visited);
            &&& t.0.len() <= 1 + claimed(t.1)
            &&& walkers_in(g, t.0)
            &&& cells_in(g, t.1)
            &&& claimed(t.1) <= g.size * g.size
        }),
{
    lemma_sweep_claim(g, end, ws, visited, ws.len() as int);
    let s = sweep(g, end, ws, visited, ws.len() as int);
    let t = tick(g, end, ws, visited);
    assert forall|i: int| 0 <= i < t.0.len() implies g.in_bounds(#[trigger] t.0[i].current) by {
        if i < s.0.len() {
            assert(t.0[i] == s.0[i]);
        } else {
            assert(t.0[i] == s.1[i - s.0.len()]);
        }
    }
    lemma_grid_len(g.size);
    assert(t.1.to_set().subset_of(grid_cells(g.size))) by {
        assert forall|p: Position| #[trigger] t.1.to_set().contains(p) implies grid_cells(
            g.size,
        ).contains(p) by {
            let i = choose|i: int| 0 <= i < t.1.len() && t.1[i] == p;
            assert(g.in_bounds(t.1[i]));
        }
    }
    lemma_len_subset(t.1.to_set(), grid_cells(g.size));
}

/// The first `m` walkers after their parts of a tick stand in the same order as before.
proof fn lemma_sweep_keeps_order(
    g: NodeGraph,
    end: Position,
    ws: Seq<WalkerState>,
    visited: Seq<Position>,
    m: int,
)
    requires
        0 <= m <= ws.len(),
    ensures
        ({
            let s = sweep(g, end, ws, visited, m);
            &&& s.0.len() == m
            &&& forall|i: int| 0 <= i < m ==> #[trigger] s.0[i] == advance(
                g,
                end,
                ws[i],
                sweep(g, end, ws, visited, i).2,
            ).0
        }),
    decreases m,
{
    if m > 0 {
        lemma_sweep_keeps_order(g, end, ws, visited, m - 1);
        let s = sweep(g, end, ws, visited, m);
        let before = sweep(g, end, ws, visited, m - 1);
        assert forall|i: int| 0 <= i < m implies #[trigger] s.0[i] == advance(
            g,
            end,
            ws[i],
            sweep(g, end, ws, visited, i).2,
        ).0 by {
            if i < m - 1 {
                assert(s.0[i] == before.0[i]);
            }
        }
    }
}

/// Found and stuck are final: a tick leaves every walker that is not under way exactly
/// as it was, in its place.
pub proof fn lemma_tick_keeps_finished_walkers(
    g: NodeGraph,
    end: Position,
    ws: Seq<WalkerState>,
    visited: Seq<Position>,
)
    ensures
        forall|i: int|
            0 <= i < ws.len() && !in_progress(#[trigger] ws[i]) ==> tick(g, end, ws, visited).0[i]
                == ws[i],
{
    lemma_sweep_keeps_order(g, end, ws, visited, ws.len() as int);
    let s = sweep(g, end, ws, visited, ws.len() as int);
    assert forall|i: int| 0 <= i < ws.len() && !in_progress(#[trigger] ws[i]) implies tick(
        g,
        end,
        ws,
        visited,
    ).0[i] == ws[i] by {
        assert(tick(g, end, ws, visited).0[i] == s.0[i]);
    }
}

impl Walker {
    pub fn new(start: Position, path: Vec<Position>) -> (r: Walker)
        ensures
            r@ == (WalkerState { current: start, path: path@, status: Done::NotFound(false) }),
    {
        Walker { current_node: start, path, is_done: Done::NotFound(false) }
    }

    /// Moves onto `next_node` and records it in the path.
    pub fn step(&mut self, next_node: Position)
        ensures
            final(self)@ == (WalkerState {
                current: next_node,
                path: old(self)@.path.push(next_node),
                status: old(self)@.status,
            }),
    {
        self.current_node = next_node;
        self.path.push(next_node);
    }
}

/// A copy of `path`.
fn copy_path(path: &Vec<Position>) -> (r: Vec<Position>)
    ensures
        r@ == path@,
{
    let mut r: Vec<Position> = Vec::new();
    let mut i: usize = 0;
    while i < path.len()
        invariant
            i <= path@.len(),
            r@ == path@.take(i as int),
        decreases path@.len() - i,
    {
        r.push(path[i]);
        i += 1;
        assert(r@ =~= path@.take(i as int));
    }
    assert(path@.take(i as int) =~= path@);
    r
}

/// One walker's part of a tick, as `advance` states it.
fn advance_walker(
    graph: &NodeGraph,
    end: Position,
    walker: &mut Walker,
    visited: &mut Vec<Position>,
    forks: &mut Vec<Walker>,
)
    requires
        graph.wf(),
        graph.in_bounds(old(walker).current_node),
    ensures
        ({
            let r = advance(*graph, end, old(walker)@, old(visited)@);
            &&& final(walker)@ == r.0
            &&& states(final(forks)@) == states(old(forks)@) + r.1
            &&& final(visited)@ == r.2
            &&& graph.in_bounds(r.0.current)
            &&& walkers_in(*graph, r.1)
        }),
{
    match walker.is_done {
        Done::NotFound(false) => {},
        _ => {
            assert(states(forks@) =~= states(old(forks)@) + Seq::empty());
            return ;
        },
    }
    let ghost w0 = walker@;
    let ghost forks0 = forks@;
    let ghost visited0 = visited@;
    let node = graph.node_at(walker.current_node);
    let next_nodes = Connection::all_out(&node.connected_nodes);
    let ghost outs = out_targets(graph.conns(w0.current));
    assert forall|i: int| 0 <= i < next_nodes@.len() implies graph.in_bounds(
        #[trigger] next_nodes@[i].target(),
    ) && next_nodes@[i].target() == outs[i] by {
        assert(graph.conns(w0.current).contains(next_nodes@[i]));
        let j = choose|j: int|
            0 <= j < graph.conns(w0.current).len() && graph.conns(w0.current)[j] == next_nodes@[i];
        assert(graph.in_bounds(graph.conns(w0.current)[j].target()));
    }
    let mut i: usize = 1;
    while i < next_nodes.len() && next_nodes.len() > 1
        invariant
            next_nodes@.len() <= 1 ==> i == 1,
            1 <= i,
            next_nodes@.len() > 1 ==> i <= next_nodes@.len(),
            next_nodes@.len() == outs.len(),
            forall|j: int|
                0 <= j < next_nodes@.len() ==> #[trigger] next_nodes@[j] is Out && graph.in_bounds(
                    next_nodes@[j].target(),
                ) && next_nodes@[j].target() == outs[j],
            walker.current_node == w0.current,
            walker.path@ == w0.path,
            ({
                let b = branches(outs, w0.path, visited0, i as int);
                &&& walker.is_done == (if b.0 {
                    Done::NotFound(true)
                } else {
                    Done::NotFound(false)
                })
                &&& states(forks@) == states(forks0) + b.1
                &&& visited@ == b.2
                &&& walkers_in(*graph, b.1)
            }),
        decreases next_nodes@.len() - i,
    {
        let t = next_nodes[i].get_out();
        let ghost before = branches(outs, w0.path, visited0, i as int);
        if already_explored(visited, &t) {
            walker.is_done = Done::NotFound(true);
        } else {
            let mut fork = Walker::new(walker.current_node, copy_path(&walker.path));
            visited.push(t);
            fork.step(t);
            let ghost fb = forks@;
            forks.push(fork);
            assert(states(forks@) =~= states(fb).push(fork@));
            assert(states(forks@) =~= states(forks0) + before.1.push(fork_onto(w0.path, t)));
        }
        i += 1;
    }
    let ghost b = branches(outs, w0.path, visited0, next_nodes@.len() as int);
    if walker.current_node == end {
        walker.is_done = Done::Found;
        return ;
    }
    if next_nodes.len() == 0 {
        walker.is_done = Done::NotFound(true);
        return ;
    }
    let first = next_nodes[0].get_out();
    walker.step(first);
    visited.push(first);
}

/// The exhaustive branch explorer: every walker under way moves each tick, and forks at
/// every junction onto the branches that no walker has claimed yet.
pub struct RandomStar {
    pub start: Position,
    pub end: Position,
    /// The cells claimed so far by walkers, shared by all of them.
    pub path: Vec<Position>,
    pub walkers: Vec<Walker>,
}

/// The cost-guided explorer: each tick only the walker under way with the least path
/// length plus Manhattan distance to the end moves, the earliest one among equals.
pub struct AStar {
    pub start: Position,
    pub end: Position,
    /// The cells claimed so far by walkers, shared by all of them.
    pub path: Vec<Position>,
    pub walkers: Vec<Walker>,
}

/// The distance from `p` to `q` along rows and columns.
pub open spec fn manhattan(p: Position, q: Position) -> int {
    (if p.row >= q.row {
        p.row - q.row
    } else {
        q.row - p.row
    }) + (if p.col >= q.col {
        p.col - q.col
    } else {
        q.col - p.col
    })
}

/// The priority of a walker: the length of its path plus its distance to `end`.
pub open spec fn score(w: WalkerState, end: Position) -> int {
    w.path.len() + manhattan(w.current, end)
}

/// Walker `i` of `ws` is under way, and no walker under way has a lower score, nor an
/// equal score at a lower index.
pub open spec fn is_best(ws: Seq<WalkerState>, end: Position, i: int) -> bool {
    &&& 0 <= i < ws.len()
    &&& in_progress(ws[i])
    &&& forall|j: int|
        0 <= j < ws.len() && in_progress(#[trigger] ws[j]) ==> score(ws[i], end) < score(ws[j], end) || (
        score(ws[i], end) == score(ws[j], end) && i <= j)
}

/// The two ways of solving a maze: each is made from a start and an end cell and then
/// advanced one tick at a time.
pub trait MazeSolver: Sized {
    /// The start, the end and every walker stand on cells of `graph`.
    spec fn fits(&self, graph: NodeGraph) -> bool;

    fn new(start: Position, end: Position) -> Self;

    fn step(&mut self, graph: &NodeGraph)
        requires
            graph.wf(),
            old(self).fits(*graph),
        ensures
            final(self).fits(*graph),
    ;
}

impl MazeSolver for RandomStar {
    open spec fn fits(&self, graph: NodeGraph) -> bool {
        &&& graph.in_bounds(self.start)
        &&& graph.in_bounds(self.end)
        &&& walkers_in(graph, states(self.walkers@))
    }

    /// A solver with one walker under way at `start`, with an empty path, and no cell
    /// claimed.
    fn new(start: Position, end: Position) -> (r: RandomStar)
        ensures
            r.start == start,
            r.end == end,
            r.path@.len() == 0,
            r.walkers@.len() == 1,
            r.walkers@[0]@ == (WalkerState {
                current: start,
                path: Seq::empty(),
                status: Done::NotFound(false),
            }),
    {
        let mut walkers: Vec<Walker> = Vec::new();
        walkers.push(Walker::new(start, Vec::new()));
        RandomStar { start, end, path: Vec::new(), walkers }
    }

    /// One tick: every walker takes its part in order, then all forks join the walkers.
    fn step(&mut self, graph: &NodeGraph)
        ensures
            final(self).start == old(self).start,
            final(self).end == old(self).end,
            (states(final(self).walkers@), final(self).path@) == tick(
                *graph,
                old(self).end,
                states(old(self).walkers@),
                old(self).path@,
            ),
    {
        let ghost ws0 = states(self.walkers@);
        let ghost visited0 = self.path@;
        let end = self.end;
        let n = self.walkers.len();
        let mut new_walkers: Vec<Walker> = Vec::new();
        let mut i: usize = 0;
        while i < n
            invariant
                graph.wf(),
                n == self.walkers@.len(),
                n == ws0.len(),
                i <= n,
                end == self.end,
                self.start == old(self).start,
                graph.in_bounds(self.start),
                graph.in_bounds(self.end),
                walkers_in(*graph, states(self.walkers@)),
                ({
                    let s = sweep(*graph, end, ws0, visited0, i as int);
                    &&& states(self.walkers@).take(i as int) == s.0
                    &&& states(self.walkers@).skip(i as int) == ws0.skip(i as int)
                    &&& states(new_walkers@) == s.1
                    &&& self.path@ == s.2
                    &&& walkers_in(*graph, s.1)
                }),
            decreases n - i,
        {
            let ghost before = states(self.walkers@);
            assert(before[i as int] == ws0[i as int]) by {
                assert(before.skip(i as int)[0] == ws0.skip(i as int)[0]);
            }
            assert(graph.in_bounds(before[i as int].current));
            assert(before[i as int].current == self.walkers@[i as int].current_node);
            advance_walker(graph, end, &mut self.walkers[i], &mut self.path, &mut new_walkers);
            let ghost s = sweep(*graph, end, ws0, visited0, i + 1);
            assert(states(self.walkers@) =~= before.update(i as int, s.0.last()));
            assert(states(self.walkers@).take(i + 1) =~= s.0);
            assert forall|k: int| 0 <= k < n - i - 1 implies #[trigger] before[i + 1 + k] == ws0[i + 1 + k] by {
                assert(before.skip(i as int)[k + 1] == ws0.skip(i as int)[k + 1]);
            }
            assert forall|k: int| 0 <= k < n - i - 1 implies #[trigger] states(self.walkers@).skip(
                i + 1,
            )[k] == ws0.skip(i + 1)[k] by {
                assert(states(self.walkers@)[i + 1 + k] == before[i + 1 + k]);
            }
            assert(states(self.walkers@).skip(i + 1) =~= ws0.skip(i + 1));
            i += 1;
        }
        let ghost s = sweep(*graph, end, ws0, visited0, n as int);
        assert(states(self.walkers@) =~= s.0) by {
            assert(states(self.walkers@).take(n as int) =~= states(self.walkers@));
        }
        let ghost kept = self.walkers@;
        let ghost fork_states = states(new_walkers@);
        self.walkers.append(&mut new_walkers);
        assert(states(self.walkers@) =~= states(kept) + fork_states);
    }
}

impl MazeSolver for AStar {
    open spec fn fits(&self, graph: NodeGraph) -> bool {
        &&& graph.in_bounds(self.start)
        &&& graph.in_bounds(self.end)
        &&& walkers_in(graph, states(self.walkers@))
    }

    /// A solver with one walker under way at `start`, with an empty path, and no cell
    /// claimed.
    fn new(start: Position, end: Position) -> (r: AStar)
        ensures
            r.start == start,
            r.end == end,
            r.path@.len() == 0,
            r.walkers@.len() == 1,
            r.walkers@[0]@ == (WalkerState {
                current: start,
                path: Seq::empty(),
                status: Done::NotFound(false),
            }),
    {
        let mut walkers: Vec<Walker> = Vec::new();
        walkers.push(Walker::new(start, Vec::new()));
        AStar { start, end, path: Vec::new(), walkers }
    }

    /// One tick: the best walker under way takes its part, then its forks join the
    /// walkers. With no walker under way nothing changes.
    fn step(&mut self, graph: &NodeGraph)
        ensures
            final(self).start == old(self).start,
            final(self).end == old(self).end,
            (forall|i: int|
                0 <= i < old(self).walkers@.len() ==> !in_progress(#[trigger] old(self).walkers@[i]@))
                ==> states(final(self).walkers@) == states(old(self).walkers@) && final(self).path@
                == old(self).path@,
            forall|i: int|
                is_best(states(old(self).walkers@), old(self).end, i) ==> {
                    let r = advance(
                        *graph,
                        old(self).end,
                        states(old(self).walkers@)[i],
                        old(self).path@,
                    );
                    &&& states(final(self).walkers@) == states(old(self).walkers@).update(i, r.0)
                        + r.1
                    &&& final(self).path@ == r.2
                },
    {
        let ghost ws0 = states(self.walkers@);
        let end = self.end;
        let mut best: usize = 0;
        let mut best_score: u128 = 0;
        let mut any = false;
        let mut i: usize = 0;
        while i < self.walkers.len()
            invariant
                i <= self.walkers@.len(),
                ws0 == states(self.walkers@),
                end == self.end,
                !any ==> forall|j: int| 0 <= j < i ==> !in_progress(#[trigger] ws0[j]),
                any ==> {
                    &&& best < i
                    &&& in_progress(ws0[best as int])
                    &&& best_score == score(ws0[best as int], end)
                    &&& forall|j: int|
                        0 <= j < i && in_progress(#[trigger] ws0[j]) ==> score(ws0[best as int], end)
                            < score(ws0[j], end) || (score(ws0[best as int], end) == score(
                            ws0[j],
                            end,
                        ) && best <= j)
                },
            decreases self.walkers@.len() - i,
        {
            let w = &self.walkers[i];
            match w.is_done {
                Done::NotFound(false) => {
                    let dr = if w.current_node.row >= end.row {
                        w.current_node.row - end.row
                    } else {
                        end.row - w.current_node.row
                    };
                    let dc = if w.current_node.col >= end.col {
                        w.current_node.col - end.col
                    } else {
                        end.col - w.current_node.col
                    };
                    let sc = w.path.len() as u128 + dr as u128 + dc as u128;
                    assert(sc == score(ws0[i as int], end));
                    if !any || sc < best_score {
                        best = i;
                        best_score = sc;
                        any = true;
                    }
                },
                _ => {},
            }
            i += 1;
        }
        if !any {
            return ;
        }
        assert(is_best(ws0, end, best as int));
        assert forall|j: int| is_best(ws0, end, j) implies j == best by {}
        let mut forks: Vec<Walker> = Vec::new();
        let ghost before = states(self.walkers@);
        let ghost visited0 = self.path@;
        advance_walker(graph, end, &mut self.walkers[best], &mut self.path, &mut forks);
        assert(states(self.walkers@) =~= ws0.update(best as int, advance(*graph, end, ws0[best as int], visited0).0));
        let ghost kept = self.walkers@;
        let ghost fork_states = states(forks@);
        self.walkers.append(&mut forks);
        assert(states(self.walkers@) =~= states(kept) + fork_states);
    }
}

} // verus!
