//! The grid graph: cells joined by directed connections.

use vstd::prelude::*;

verus! {

/// A cell of the grid, addressed by its row and column.
#[derive(Clone, Copy, PartialEq, Eq, Structural, Debug, Hash)]
pub struct Position {
    pub row: usize,
    pub col: usize,
}

/// One end of a directed edge, as seen from the node that holds it.
#[derive(Clone, Copy, PartialEq, Eq, Structural, Debug, Hash)]
pub enum Connection {
    /// An edge that arrives from the given cell.
    In(Position),
    /// An edge that leaves towards the given cell.
    Out(Position),
}

/// The outgoing connections of `conns`, in their order.
pub open spec fn outs(conns: Seq<Connection>) -> Seq<Connection> {
    conns.filter(|c: Connection| c is Out)
}

/// The cells at the far end of the outgoing connections of `conns`, in their order.
pub open spec fn out_targets(conns: Seq<Connection>) -> Seq<Position> {
    outs(conns).map_values(|c: Connection| c.target())
}

impl Connection {
    /// The cell at the other end of the edge.
    pub open spec fn target(self) -> Position {
        match self {
            Connection::In(p) => p,
            Connection::Out(p) => p,
        }
    }

    pub fn get_position(&self) -> (r: Position)
        ensures
            r == self.target(),
    {
        match self {
            Connection::In(p) => *p,
            Connection::Out(p) => *p,
        }
    }

    pub fn is_out(&self) -> (r: bool)
        ensures
            r == (*self is Out),
    {
        match self {
            Connection::Out(_) => true,
            _ => false,
        }
    }

    /// The outgoing connections among `connections`, in their order.
    pub fn all_out(connections: &Vec<Connection>) -> (r: Vec<Connection>)
        ensures
            r@ == outs(connections@),
            forall|i: int|
                0 <= i < r@.len() ==> #[trigger] r@[i] is Out && connections@.contains(r@[i]),
    {
        let mut r: Vec<Connection> = Vec::new();
        let mut i: usize = 0;
        while i < connections.len()
            invariant
                i <= connections@.len(),
                r@ == outs(connections@.take(i as int)),
                forall|j: int|
                    0 <= j < r@.len() ==> #[trigger] r@[j] is Out && connections@.contains(r@[j]),
            decreases connections@.len() - i,
        {
            let c = connections[i];
            proof {
                reveal(Seq::filter);
                assert(connections@.take(i + 1).drop_last() =~= connections@.take(i as int));
                assert(connections@.take(i + 1).last() == c);
                assert(connections@[i as int] == c);
            }
            if c.is_out() {
                r.push(c);
            }
            i += 1;
        }
        assert(connections@.take(i as int) =~= connections@);
        r
    }

    pub fn get_out(&self) -> (r: Position)
        requires
            *self is Out,
        ensures
            r == self.target(),
    {
        match self {
            Connection::Out(p) => *p,
            Connection::In(p) => *p,
        }
    }
}

/// A cell of the grid with the ends of edges it holds, in the order they were made.
pub struct Node {
    pub position: Position,
    pub connected_nodes: Vec<Connection>,
}

impl Node {
    /// Whether some connection of this node, in or out, has `p` at its other end.
    pub open spec fn links_to(self, p: Position) -> bool {
        exists|i: int|
            0 <= i < self.connected_nodes@.len() && (#[trigger] self.connected_nodes@[i]).target()
                == p
    }

    pub fn new(position: Position) -> (r: Node)
        ensures
            r.position == position,
            r.connected_nodes@.len() == 0,
    {
        Node { position, connected_nodes: Vec::new() }
    }

    /// Whether this node holds an edge, in either direction, with `other`.
    pub fn contains(&self, other: &Node) -> (r: bool)
        ensures
            r == self.links_to(other.position),
    {
        let mut i: usize = 0;
        while i < self.connected_nodes.len()
            invariant
                i <= self.connected_nodes@.len(),
                forall|j: int| 0 <= j < i ==> (#[trigger] self.connected_nodes@[j]).target()
                    != other.position,
            decreases self.connected_nodes@.len() - i,
        {
            if self.connected_nodes[i].get_position() == other.position {
                return true;
            }
            i += 1;
        }
        false
    }

    pub fn is_connected(&self) -> (r: bool)
        ensures
            r == (self.connected_nodes@.len() > 0),
    {
        self.connected_nodes.len() > 0
    }

    /// Whether an edge leaves this node towards `to`.
    pub fn able_to_move_to(&self, to: &Node) -> (r: bool)
        ensures
            r == self.connected_nodes@.contains(Connection::Out(to.position)),
    {
        let mut i: usize = 0;
        while i < self.connected_nodes.len()
            invariant
                i <= self.connected_nodes@.len(),
                forall|j: int| 0 <= j < i ==> self.connected_nodes@[j] != Connection::Out(
                    to.position,
                ),
            decreases self.connected_nodes@.len() - i,
        {
            let c = self.connected_nodes[i];
            if c.is_out() && c.get_out() == to.position {
                assert(self.connected_nodes@[i as int] == Connection::Out(to.position));
                return true;
            }
            i += 1;
        }
        false
    }

    /// A cell that an edge of this node leads to, picked at random.
    pub fn get_random_neighbour(&self) -> (r: Position)
        requires
            self.connected_nodes@.len() > 0,
            forall|i: int|
                0 <= i < self.connected_nodes@.len() ==> #[trigger] self.connected_nodes@[i] is Out,
        ensures
            self.connected_nodes@.contains(Connection::Out(r)),
    {
        let index = random_below(self.connected_nodes.len());
        let c = self.connected_nodes[index];
        let r = c.get_out();
        assert(self.connected_nodes@[index as int] == Connection::Out(r));
        r
    }
}

/// The connections that an edge from `a` to `b` adds to the node at `p`.
pub open spec fn added_by(p: Position, a: Position, b: Position) -> Seq<Connection> {
    if p == a {
        seq![Connection::Out(b)]
    } else if p == b {
        seq![Connection::In(a)]
    } else {
        Seq::empty()
    }
}

/// A square grid of nodes, stored by row and then by column.
pub struct NodeGraph {
    pub size: usize,
    pub nodes: Vec<Vec<Node>>,
}

impl NodeGraph {
    pub open spec fn in_bounds(self, p: Position) -> bool {
        p.row < self.size && p.col < self.size
    }

    pub open spec fn node(self, p: Position) -> Node {
        self.nodes@[p.row as int]@[p.col as int]
    }

    /// The connections held by the node at `p`, in the order they were made.
    pub open spec fn conns(self, p: Position) -> Seq<Connection> {
        self.node(p).connected_nodes@
    }

    /// The shape of the grid: `size` rows of `size` nodes, each at its own position.
    pub open spec fn well_shaped(self) -> bool {
        &&& self.nodes@.len() == self.size
        &&& forall|r: int| 0 <= r < self.size ==> (#[trigger] self.nodes@[r])@.len() == self.size
        &&& forall|p: Position| self.in_bounds(p) ==> (#[trigger] self.node(p)).position == p
    }

    /// The grid's shape, and the rules of its edges: each joins two distinct cells of the
    /// grid, no node holds two ends with the same far cell, and every edge is held at both
    /// of its ends.
    pub open spec fn wf(self) -> bool {
        &&& self.well_shaped()
        &&& forall|p: Position, i: int|
            self.in_bounds(p) && 0 <= i < self.conns(p).len() ==> {
                &&& self.in_bounds((#[trigger] self.conns(p)[i]).target())
                &&& self.conns(p)[i].target() != p
            }
        &&& forall|p: Position, i: int, j: int|
            self.in_bounds(p) && 0 <= i < j < self.conns(p).len() ==> (#[trigger] self.conns(
                p,
            )[i]).target() != (#[trigger] self.conns(p)[j]).target()
        &&& forall|p: Position, q: Position|
            self.in_bounds(p) && self.in_bounds(q) ==> (#[trigger] self.conns(p).contains(
                Connection::Out(q),
            ) <==> #[trigger] self.conns(q).contains(Connection::In(p)))
    }

    /// No node holds any edge.
    pub open spec fn is_bare(self) -> bool {
        forall|p: Position| self.in_bounds(p) ==> (#[trigger] self.conns(p)).len() == 0
    }

    /// What `connect(a, b)` asks: two distinct cells of a well-formed grid, with no edge
    /// between them yet in either direction.
    pub open spec fn can_connect(self, a: Position, b: Position) -> bool {
        &&& self.wf()
        &&& self.in_bounds(a)
        &&& self.in_bounds(b)
        &&& a != b
        &&& !self.node(a).links_to(b)
    }

    /// `next` is this grid with the edge from `a` to `b` added: an outgoing end
    /// appended at `a`, an incoming end appended at `b`, every other node unchanged.
    pub open spec fn connected_into(self, a: Position, b: Position, next: NodeGraph) -> bool {
        &&& next.wf()
        &&& next.size == self.size
        &&& forall|p: Position|
            self.in_bounds(p) ==> #[trigger] next.conns(p) == self.conns(p) + added_by(p, a, b)
    }

    /// A grid of `size` by `size` nodes with no edges.
    pub fn new(size: usize) -> (r: NodeGraph)
        ensures
            r.wf(),
            r.is_bare(),
            r.size == size,
    {
        let mut nodes: Vec<Vec<Node>> = Vec::new();
        let mut i: usize = 0;
        while i < size
            invariant
                i <= size,
                nodes@.len() == i,
                forall|r: int| 0 <= r < i ==> (#[trigger] nodes@[r])@.len() == size,
                forall|r: int, c: int|
                    0 <= r < i && 0 <= c < size ==> (#[trigger] nodes@[r]@[c]).position
                        == (Position { row: r as usize, col: c as usize }) && nodes@[r]@[c].connected_nodes@.len()
                        == 0,
            decreases size - i,
        {
            let mut row: Vec<Node> = Vec::new();
            let mut j: usize = 0;
            while j < size
                invariant
                    i < size,
                    j <= size,
                    row@.len() == j,
                    forall|c: int|
                        0 <= c < j ==> (#[trigger] row@[c]).position == (Position { row: i, col: c as usize }) && row@[c].connected_nodes@.len() == 0,
                decreases size - j,
            {
                row.push(Node::new(Position { row: i, col: j }));
                j += 1;
            }
            nodes.push(row);
            i += 1;
        }
        NodeGraph { size, nodes }
    }

    pub fn size(&self) -> (r: usize)
        ensures
            r == self.size,
    {
        self.size
    }

    /// The node at `p`.
    pub fn node_at(&self, p: Position) -> (r: &Node)
        requires
            self.well_shaped(),
            self.in_bounds(p),
        ensures
            *r == self.node(p),
    {
        &self.nodes[p.row][p.col]
    }

    /// Removes every edge, keeping the nodes where they are.
    pub fn clear(&mut self)
        requires
            old(self).well_shaped(),
        ensures
            final(self).wf(),
            final(self).is_bare(),
            final(self).size == old(self).size,
    {
        let size = self.size;
        let mut i: usize = 0;
        while i < size
            invariant
                size == self.size,
                i <= size,
                self.well_shaped(),
                forall|p: Position|
                    self.in_bounds(p) && p.row < i ==> (#[trigger] self.conns(p)).len() == 0,
            decreases size - i,
        {
            let mut j: usize = 0;
            while j < size
                invariant
                    size == self.size,
                    i < size,
                    j <= size,
                    self.well_shaped(),
                    forall|p: Position|
                        self.in_bounds(p) && (p.row < i || (p.row == i && p.col < j)) ==> (
                        #[trigger] self.conns(p)).len() == 0,
                decreases size - j,
            {
                let ghost before = *self;
                self.nodes[i][j].connected_nodes = Vec::new();
                assert(self.nodes@[i as int]@ == before.nodes@[i as int]@.update(
                    j as int,
                    self.node(Position { row: i, col: j }),
                ));
                assert forall|p: Position| self.in_bounds(p) implies (#[trigger] self.node(p)).position
                    == before.node(p).position && (p != (Position { row: i, col: j })
                    ==> self.node(p) == before.node(p)) && (p == (Position { row: i, col: j })
                    ==> self.conns(p).len() == 0) by {
                    if p.row != i {
                        assert(self.nodes@[p.row as int] == before.nodes@[p.row as int]);
                    } else if p.col != j {
                        assert(self.node(p) == before.node(p));
                    }
                }
                assert forall|r: int| 0 <= r < self.size implies (
                #[trigger] self.nodes@[r])@.len() == self.size by {
                    assert(r != i ==> self.nodes@[r] == before.nodes@[r]);
                }
                assert forall|p: Position|
                    self.in_bounds(p) && (p.row < i || (p.row == i && p.col < j + 1)) implies (
                    #[trigger] self.conns(p)).len() == 0 by {
                    if p != (Position { row: i, col: j }) {
                        assert(before.conns(p).len() == 0);
                    }
                }
                j += 1;
            }
            i += 1;
        }
    }
}

impl Node {
    /// Adds the edge from `self_index` to `other_index`: an outgoing end at the first, an
    /// incoming end at the second.
    pub fn connect(self_index: Position, other_index: Position, nodes: &mut NodeGraph)
        requires
            old(nodes).can_connect(self_index, other_index),
        ensures
            old(nodes).connected_into(self_index, other_index, *final(nodes)),
    {
        let a = self_index;
        let b = other_index;
        let ghost start = *nodes;
        nodes.nodes[a.row][a.col].connected_nodes.push(Connection::Out(b));
        let ghost mid = *nodes;
        assert(mid.nodes@[a.row as int]@ == start.nodes@[a.row as int]@.update(
            a.col as int,
            mid.node(a),
        ));
        assert forall|p: Position| start.in_bounds(p) implies (#[trigger] mid.node(p)).position
            == p && (p != a ==> mid.node(p) == start.node(p)) by {
            if p.row != a.row {
                assert(mid.nodes@[p.row as int] == start.nodes@[p.row as int]);
            } else if p.col != a.col {
                assert(mid.node(p) == start.node(p));
            }
            assert(start.node(p).position == p);
        }
        nodes.nodes[b.row][b.col].connected_nodes.push(Connection::In(a));
        assert(nodes.nodes@[b.row as int]@ == mid.nodes@[b.row as int]@.update(
            b.col as int,
            nodes.node(b),
        ));
        assert forall|p: Position| start.in_bounds(p) implies (#[trigger] nodes.node(p)).position
            == p && (p != b ==> nodes.node(p) == mid.node(p)) by {
            if p.row != b.row {
                assert(nodes.nodes@[p.row as int] == mid.nodes@[p.row as int]);
            } else if p.col != b.col {
                assert(nodes.node(p) == mid.node(p));
            }
            assert(mid.node(p).position == p);
        }
        assert forall|p: Position| start.in_bounds(p) implies #[trigger] nodes.conns(p)
            == start.conns(p) + added_by(p, a, b) by {
            if p == a {
                assert(nodes.conns(p) =~= start.conns(p).push(Connection::Out(b)));
            } else if p == b {
                assert(nodes.conns(p) =~= start.conns(p).push(Connection::In(a)));
            } else {
                assert(nodes.conns(p) =~= start.conns(p));
            }
        }
        assert forall|r: int| 0 <= r < nodes.size implies (#[trigger] nodes.nodes@[r])@.len()
            == nodes.size by {
            assert(r != a.row ==> mid.nodes@[r] == start.nodes@[r]);
            assert(r != b.row ==> nodes.nodes@[r] == mid.nodes@[r]);
        }
        proof {
            lemma_connect_keeps_wf(start, *nodes, a, b);
        }
    }
}

/// Appending one element to a sequence adds exactly that element to what it contains.
proof fn lemma_push_contains<T>(s: Seq<T>, x: T, y: T)
    ensures
        s.push(x).contains(y) <==> (s.contains(y) || x == y),
{
    if s.contains(y) {
        let i = choose|i: int| 0 <= i < s.len() && s[i] == y;
        assert(s.push(x)[i] == y);
    }
    if x == y {
        assert(s.push(x)[s.len() as int] == y);
    }
    if s.push(x).contains(y) {
        let i = choose|i: int| 0 <= i < s.push(x).len() && s.push(x)[i] == y;
        if i < s.len() {
            assert(s[i] == y);
        }
    }
}

/// Adding an edge that `can_connect` allows keeps the rules of the grid's edges.
proof fn lemma_connect_keeps_wf(g: NodeGraph, next: NodeGraph, a: Position, b: Position)
    requires
        g.can_connect(a, b),
        next.well_shaped(),
        next.size == g.size,
        forall|p: Position| g.in_bounds(p) ==> #[trigger] next.conns(p) == g.conns(p) + added_by(p, a, b),
    ensures
        g.connected_into(a, b, next),
{
    assert forall|p: Position, i: int|
        next.in_bounds(p) && 0 <= i < next.conns(p).len() implies {
            &&& next.in_bounds((#[trigger] next.conns(p)[i]).target())
            &&& next.conns(p)[i].target() != p
        } by {
        if i >= g.conns(p).len() {
            assert(next.conns(p)[i] == added_by(p, a, b)[i - g.conns(p).len()]);
        } else {
            assert(next.conns(p)[i] == g.conns(p)[i]);
        }
    }
    // The far cell that an edge between `a` and `b` adds was not linked to before.
    assert(!g.node(b).links_to(a)) by {
        if g.node(b).links_to(a) {
            let i = choose|i: int| 0 <= i < g.conns(b).len() && (#[trigger] g.conns(b)[i]).target() == a;
            let c = g.conns(b)[i];
            assert(g.conns(b).contains(c));
            if c is Out {
                assert(c == Connection::Out(a));
                assert(g.conns(a).contains(Connection::In(b)));
            } else {
                assert(c == Connection::In(a));
                assert(g.conns(a).contains(Connection::Out(b)));
            }
            let j = choose|j: int| 0 <= j < g.conns(a).len() && g.conns(a)[j] == (if c is Out { Connection::In(b) } else { Connection::Out(b) });
            assert(g.conns(a)[j].target() == b);
        }
    }
    assert forall|p: Position, i: int, j: int|
        next.in_bounds(p) && 0 <= i < j < next.conns(p).len() implies (#[trigger] next.conns(
            p,
        )[i]).target() != (#[trigger] next.conns(p)[j]).target() by {
        let n = g.conns(p).len();
        assert(next.conns(p)[i] == g.conns(p)[i]) by {
            if i >= n {
                assert(added_by(p, a, b).len() <= 1);
            }
        }
        if j >= n {
            assert(next.conns(p)[j] == added_by(p, a, b)[j - n]);
            assert(g.conns(p)[i] == g.node(p).connected_nodes@[i]);
        } else {
            assert(next.conns(p)[j] == g.conns(p)[j]);
        }
    }
    assert forall|p: Position, q: Position|
        next.in_bounds(p) && next.in_bounds(q) implies (#[trigger] next.conns(p).contains(
            Connection::Out(q),
        ) <==> #[trigger] next.conns(q).contains(Connection::In(p))) by {
        let sp = g.conns(p);
        let sq = g.conns(q);
        if p == a {
            assert(next.conns(p) =~= sp.push(Connection::Out(b)));
            lemma_push_contains(sp, Connection::Out(b), Connection::Out(q));
        } else if p == b {
            assert(next.conns(p) =~= sp.push(Connection::In(a)));
            lemma_push_contains(sp, Connection::In(a), Connection::Out(q));
        } else {
            assert(next.conns(p) =~= sp);
        }
        if q == a {
            assert(next.conns(q) =~= sq.push(Connection::Out(b)));
            lemma_push_contains(sq, Connection::Out(b), Connection::In(p));
        } else if q == b {
            assert(next.conns(q) =~= sq.push(Connection::In(a)));
            lemma_push_contains(sq, Connection::In(a), Connection::In(p));
        } else {
            assert(next.conns(q) =~= sq);
        }
    }
}

/// Each outgoing connection picked out by `outs` is one of the connections it was given.
pub proof fn lemma_outs_are_among(conns: Seq<Connection>)
    ensures
        forall|i: int|
            0 <= i < outs(conns).len() ==> #[trigger] outs(conns)[i] is Out && conns.contains(
                outs(conns)[i],
            ),
    decreases conns.len(),
{
    reveal(Seq::filter);
    if conns.len() > 0 {
        let rest = conns.drop_last();
        lemma_outs_are_among(rest);
        assert forall|i: int| 0 <= i < outs(conns).len() implies #[trigger] outs(conns)[i] is Out
            && conns.contains(outs(conns)[i]) by {
            if i < outs(rest).len() {
                assert(outs(conns)[i] == outs(rest)[i]);
                let j = choose|j: int| 0 <= j < rest.len() && rest[j] == outs(rest)[i];
                assert(conns[j] == rest[j]);
            } else {
                assert(outs(conns)[i] == conns.last());
                assert(conns[conns.len() - 1] == conns.last());
            }
        }
    }
}

/// An edge between two cells is made once: after `connect(a, b)`, neither `connect(a, b)`
/// nor `connect(b, a)` is allowed.
pub proof fn lemma_connect_twice_refused(g: NodeGraph, next: NodeGraph, a: Position, b: Position)
    requires
        g.can_connect(a, b),
        g.connected_into(a, b, next),
    ensures
        !next.can_connect(a, b),
        !next.can_connect(b, a),
{
    assert(next.conns(a) == g.conns(a) + seq![Connection::Out(b)]);
    assert(next.conns(a)[g.conns(a).len() as int].target() == b);
    assert(next.conns(b) == g.conns(b) + seq![Connection::In(a)]);
    assert(next.conns(b)[g.conns(b).len() as int].target() == a);
}

/// No cell can be connected to itself.
pub proof fn lemma_connect_self_refused(g: NodeGraph, a: Position)
    ensures
        !g.can_connect(a, a),
{
}

/// Relies on nannou::rand::random_range: a value drawn from `[0, n)`.
#[verifier::external_body]
pub(crate) fn random_below(n: usize) -> (r: usize)
    requires
        n > 0,
    ensures
        r < n,
{
    nannou::rand::random_range(0usize, n)
}

} // verus!
