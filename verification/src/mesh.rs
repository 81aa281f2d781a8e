//! Geometry of the two-dimensional mesh: tile addresses, the dimension-order
//! routing decision that every mesh router makes, and the links a packet
//! crosses on its way from one tile to another.
//!
//! A tile sits at row `x` and column `y`.  North is row `x - 1`, south is row
//! `x + 1`, west is column `y - 1` and east is column `y + 1`.  A packet carries
//! the address `x * y_dim + y` of the tile it is headed for.
use vstd::prelude::*;

verus! {

/// One of the five ports of a mesh router, in the order in which the router
/// scans them: north, south, east, west, local.
#[derive(Clone, Copy, Debug, PartialEq, Eq, Hash, Structural)]
pub enum Port {
    North,
    South,
    East,
    West,
    Local,
}

/// Number of ports of a mesh router.
pub const NUM_PORTS: usize = 5;

impl Port {
    /// Position of the port in the scan order.
    pub open spec fn scan_index(self) -> nat {
        match self {
            Port::North => 0,
            Port::South => 1,
            Port::East => 2,
            Port::West => 3,
            Port::Local => 4,
        }
    }

    /// The port at a position of the scan order.
    pub open spec fn spec_at(i: nat) -> Option<Port> {
        if i == 0 {
            Some(Port::North)
        } else if i == 1 {
            Some(Port::South)
        } else if i == 2 {
            Some(Port::East)
        } else if i == 3 {
            Some(Port::West)
        } else if i == 4 {
            Some(Port::Local)
        } else {
            None
        }
    }

    /// Position of the port in the scan order.
    pub fn index(self) -> (i: usize)
        ensures
            i == self.scan_index(),
            i < NUM_PORTS,
    {
        match self {
            Port::North => 0,
            Port::South => 1,
            Port::East => 2,
            Port::West => 3,
            Port::Local => 4,
        }
    }

    /// The port at a position of the scan order; `None` past the last one.
    pub fn at(i: usize) -> (p: Option<Port>)
        ensures
            p == Port::spec_at(i as nat),
    {
        if i == 0 {
            Some(Port::North)
        } else if i == 1 {
            Some(Port::South)
        } else if i == 2 {
            Some(Port::East)
        } else if i == 3 {
            Some(Port::West)
        } else if i == 4 {
            Some(Port::Local)
        } else {
            None
        }
    }
}

/// Scan position and port are two names for the same thing.
pub proof fn lemma_port_index_roundtrip(p: Port, i: nat)
    ensures
        Port::spec_at(p.scan_index()) == Some(p),
        Port::spec_at(i) matches Some(q) ==> q.scan_index() == i,
        Port::spec_at(i) is Some <==> i < NUM_PORTS,
{
}

/// The address of tile `(x, y)` in a mesh with `y_dim` columns.
pub open spec fn spec_address(x: nat, y: nat, y_dim: nat) -> nat {
    x * y_dim + y
}

/// The address that a tile's outgoing packets carry: `x * y_dim + y`.
pub fn tile_address(x: usize, y: usize, y_dim: usize) -> (a: usize)
    requires
        x * y_dim + y <= usize::MAX,
    ensures
        a == spec_address(x as nat, y as nat, y_dim as nat),
{
    assert(0 <= x * y_dim <= x * y_dim + y) by (nonlinear_arith)
        requires
            0 <= x,
            0 <= y_dim,
            0 <= y,
    ;
    x * y_dim + y
}

/// The row and column that an address designates.
pub fn split_address(data: usize, y_dim: usize) -> (xy: (usize, usize))
    requires
        y_dim > 0,
    ensures
        xy.0 == data / y_dim,
        xy.1 == data % y_dim,
        xy.0 * y_dim + xy.1 == data,
        xy.1 < y_dim,
{
    assert(data == (data / y_dim) * y_dim + data % y_dim) by (nonlinear_arith)
        requires
            y_dim > 0,
    ;
    (data / y_dim, data % y_dim)
}

/// Splitting an address gives back the tile it was made from.
pub proof fn lemma_address_roundtrip(x: nat, y: nat, y_dim: nat)
    requires
        y < y_dim,
    ensures
        spec_address(x, y, y_dim) / y_dim == x,
        spec_address(x, y, y_dim) % y_dim == y,
{
    assert((x * y_dim + y) / y_dim == x && (x * y_dim + y) % y_dim == y) by (nonlinear_arith)
        requires
            y < y_dim,
    ;
}

/// The port by which a router at `(x, y)` sends on a packet headed for
/// `(dst_x, dst_y)`: the local port when it has arrived, west or east when
/// only the column differs, and north or south otherwise (rows first, then
/// columns, except that a packet already in its row never leaves it).
pub open spec fn spec_route(dst_x: nat, dst_y: nat, x: nat, y: nat) -> Port {
    if dst_x == x && dst_y == y {
        Port::Local
    } else if dst_x == x && dst_y < y {
        Port::West
    } else if dst_x < x {
        Port::North
    } else if dst_x == x {
        Port::East
    } else {
        Port::South
    }
}

/// The routing decision of a mesh router at `(x, y)` for a packet headed for
/// `(dst_x, dst_y)`.
pub fn route(dst_x: usize, dst_y: usize, x: usize, y: usize) -> (p: Port)
    ensures
        p == spec_route(dst_x as nat, dst_y as nat, x as nat, y as nat),
{
    if dst_x == x && dst_y == y {
        Port::Local
    } else if dst_x == x && dst_y < y {
        Port::West
    } else if dst_x < x && dst_y < y {
        Port::North
    } else if dst_x < x && dst_y == y {
        Port::North
    } else if dst_x < x && dst_y > y {
        Port::North
    } else if dst_x == x && dst_y > y {
        Port::East
    } else if dst_x > x && dst_y > y {
        Port::South
    } else if dst_x > x && dst_y == y {
        Port::South
    } else {
        // The remaining case is `dst_x > x && dst_y < y`: every other
        // combination of the two comparisons was taken above.
        Port::South
    }
}

/// The routing decision for a packet that carries the address `data`.
pub fn route_address(data: usize, y_dim: usize, x: usize, y: usize) -> (p: Port)
    requires
        y_dim > 0,
    ensures
        p == spec_route((data / y_dim) as nat, (data % y_dim) as nat, x as nat, y as nat),
{
    let (dst_x, dst_y) = split_address(data, y_dim);
    route(dst_x, dst_y, x, y)
}

/// Manhattan distance between two tiles.
pub open spec fn dist(x: nat, y: nat, dx: nat, dy: nat) -> nat {
    ((if x <= dx { dx - x } else { x - dx }) + (if y <= dy { dy - y } else { y - dy })) as nat
}

/// The tile that a port of the router at `(x, y)` leads to.
pub open spec fn neighbor(x: nat, y: nat, p: Port) -> (nat, nat) {
    match p {
        Port::North => ((x - 1) as nat, y),
        Port::South => (x + 1, y),
        Port::East => (x, y + 1),
        Port::West => (x, (y - 1) as nat),
        Port::Local => (x, y),
    }
}

/// Each routing decision brings a packet one hop closer to its destination,
/// and only a packet at its destination is handed to the local port.
pub proof fn lemma_route_progress(dx: nat, dy: nat, x: nat, y: nat)
    ensures
        spec_route(dx, dy, x, y) == Port::Local <==> dist(x, y, dx, dy) == 0,
        spec_route(dx, dy, x, y) != Port::Local ==> {
            let n = neighbor(x, y, spec_route(dx, dy, x, y));
            dist(n.0, n.1, dx, dy) + 1 == dist(x, y, dx, dy)
        },
        spec_route(dx, dy, x, y) == Port::North ==> x > 0,
        spec_route(dx, dy, x, y) == Port::West ==> y > 0,
        spec_route(dx, dy, x, y) == Port::South ==> x < dx,
        spec_route(dx, dy, x, y) == Port::East ==> y < dy,
{
}

/// A side of a router that a link leaves from or arrives at; the local sides
/// stand for the link between a router and the tile attached to it.
#[derive(Clone, Copy, Debug, PartialEq, Eq, Hash, Structural)]
pub enum Side {
    North,
    South,
    East,
    West,
    FromLocal,
    ToLocal,
}

/// A directed link of the mesh, from a side of one router to a side of another.
#[derive(Clone, Copy, Debug, PartialEq, Eq, Hash, Structural)]
pub struct Link {
    pub from_x: usize,
    pub from_y: usize,
    pub from_side: Side,
    pub to_x: usize,
    pub to_y: usize,
    pub to_side: Side,
}

/// The side of a router that a port sends through.
pub open spec fn port_side(p: Port) -> Side {
    match p {
        Port::North => Side::North,
        Port::South => Side::South,
        Port::East => Side::East,
        Port::West => Side::West,
        Port::Local => Side::ToLocal,
    }
}

/// The side of the next router that a port's link arrives at.
pub open spec fn facing_side(p: Port) -> Side {
    match p {
        Port::North => Side::South,
        Port::South => Side::North,
        Port::East => Side::West,
        Port::West => Side::East,
        Port::Local => Side::ToLocal,
    }
}

/// The link that leaves router `(x, y)` by port `p`.
pub open spec fn hop_link(x: nat, y: nat, p: Port) -> Link {
    let n = neighbor(x, y, p);
    Link {
        from_x: x as usize,
        from_y: y as usize,
        from_side: port_side(p),
        to_x: n.0 as usize,
        to_y: n.1 as usize,
        to_side: facing_side(p),
    }
}

/// The link by which a tile hands its packets to its router.
pub open spec fn from_local_link(x: usize, y: usize) -> Link {
    Link { from_x: x, from_y: y, from_side: Side::FromLocal, to_x: x, to_y: y, to_side: Side::FromLocal }
}

/// The link by which a router hands packets to its tile.
pub open spec fn to_local_link(x: usize, y: usize) -> Link {
    Link { from_x: x, from_y: y, from_side: Side::ToLocal, to_x: x, to_y: y, to_side: Side::ToLocal }
}

/// The links between routers that a packet crosses from `(x, y)` to `(dx, dy)`.
pub open spec fn spec_path(x: nat, y: nat, dx: nat, dy: nat) -> Seq<Link>
    decreases dist(x, y, dx, dy),
{
    if x == dx && y == dy {
        Seq::empty()
    } else {
        let p = spec_route(dx, dy, x, y);
        let n = neighbor(x, y, p);
        seq![hop_link(x, y, p)] + spec_path(n.0, n.1, dx, dy)
    }
}

/// A route is as long as the Manhattan distance between its ends.
pub proof fn lemma_path_len(x: nat, y: nat, dx: nat, dy: nat)
    ensures
        spec_path(x, y, dx, dy).len() == dist(x, y, dx, dy),
    decreases dist(x, y, dx, dy),
{
    if !(x == dx && y == dy) {
        lemma_route_progress(dx, dy, x, y);
        let n = neighbor(x, y, spec_route(dx, dy, x, y));
        lemma_path_len(n.0, n.1, dx, dy);
    }
}

/// The tile a packet has reached after `i` hops on its way from `(x, y)` to
/// `(dx, dy)`.
pub open spec fn walk(x: nat, y: nat, dx: nat, dy: nat, i: nat) -> (nat, nat)
    decreases i,
{
    if i == 0 || (x == dx && y == dy) {
        (x, y)
    } else {
        let n = neighbor(x, y, spec_route(dx, dy, x, y));
        walk(n.0, n.1, dx, dy, (i - 1) as nat)
    }
}

/// Routing delivers: after as many hops as the Manhattan distance, a packet
/// is at its destination.
pub proof fn lemma_walk_arrives(x: nat, y: nat, dx: nat, dy: nat)
    ensures
        walk(x, y, dx, dy, dist(x, y, dx, dy)) == (dx, dy),
    decreases dist(x, y, dx, dy),
{
    lemma_route_progress(dx, dy, x, y);
    if !(x == dx && y == dy) {
        let n = neighbor(x, y, spec_route(dx, dy, x, y));
        lemma_walk_arrives(n.0, n.1, dx, dy);
    }
}

/// The `i`-th link of a route leaves the tile reached after `i` hops, by the
/// port that the router there chooses; that tile is `i` hops further from the
/// destination than the start is, and it lies between start and destination.
pub proof fn lemma_path_index(x: nat, y: nat, dx: nat, dy: nat, i: nat)
    requires
        i < spec_path(x, y, dx, dy).len(),
    ensures
        ({
            let w = walk(x, y, dx, dy, i);
            &&& spec_path(x, y, dx, dy)[i as int] == hop_link(w.0, w.1, spec_route(dx, dy, w.0, w.1))
            &&& dist(w.0, w.1, dx, dy) + i == dist(x, y, dx, dy)
            &&& (w.0 <= x || w.0 <= dx)
            &&& (w.1 <= y || w.1 <= dy)
        }),
    decreases i,
{
    lemma_route_progress(dx, dy, x, y);
    let p = spec_route(dx, dy, x, y);
    let n = neighbor(x, y, p);
    let tail = spec_path(n.0, n.1, dx, dy);
    assert(spec_path(x, y, dx, dy) == seq![hop_link(x, y, p)] + tail);
    if i > 0 {
        lemma_path_index(n.0, n.1, dx, dy, (i - 1) as nat);
        assert(spec_path(x, y, dx, dy)[i as int] == tail[i - 1]);
    }
}

/// A route never crosses the same link twice.
pub proof fn lemma_path_no_repeat(x: usize, y: usize, dx: usize, dy: usize)
    ensures
        spec_path(x as nat, y as nat, dx as nat, dy as nat).no_duplicates(),
{
    let path = spec_path(x as nat, y as nat, dx as nat, dy as nat);
    assert forall|i: int, j: int| 0 <= i < path.len() && 0 <= j < path.len() && i != j implies path[i]
        != path[j] by {
        lemma_path_index(x as nat, y as nat, dx as nat, dy as nat, i as nat);
        lemma_path_index(x as nat, y as nat, dx as nat, dy as nat, j as nat);
        let wi = walk(x as nat, y as nat, dx as nat, dy as nat, i as nat);
        let wj = walk(x as nat, y as nat, dx as nat, dy as nat, j as nat);
        if path[i] == path[j] {
            assert(wi.0 as usize == wj.0 as usize);
            assert(wi.1 as usize == wj.1 as usize);
            assert(wi == wj);
        }
    }
}

/// The link that leaves router `(x, y)` by port `p`, which is not the local one.
fn make_hop_link(x: usize, y: usize, p: Port) -> (l: Link)
    requires
        p != Port::Local,
        p == Port::North ==> x > 0,
        p == Port::South ==> x < usize::MAX,
        p == Port::West ==> y > 0,
        p == Port::East ==> y < usize::MAX,
    ensures
        l == hop_link(x as nat, y as nat, p),
{
    match p {
        Port::North => Link {
            from_x: x,
            from_y: y,
            from_side: Side::North,
            to_x: x - 1,
            to_y: y,
            to_side: Side::South,
        },
        Port::South => Link {
            from_x: x,
            from_y: y,
            from_side: Side::South,
            to_x: x + 1,
            to_y: y,
            to_side: Side::North,
        },
        Port::East => Link {
            from_x: x,
            from_y: y,
            from_side: Side::East,
            to_x: x,
            to_y: y + 1,
            to_side: Side::West,
        },
        _ => Link {
            from_x: x,
            from_y: y,
            from_side: Side::West,
            to_x: x,
            to_y: y - 1,
            to_side: Side::East,
        },
    }
}

/// The links between routers that a packet sent from tile `(x, y)` to tile
/// `(dx, dy)` crosses, in order.
pub fn route_links(x: usize, y: usize, dx: usize, dy: usize) -> (links: Vec<Link>)
    ensures
        links@ == spec_path(x as nat, y as nat, dx as nat, dy as nat),
{
    let mut links: Vec<Link> = Vec::new();
    let mut cx = x;
    let mut cy = y;
    while !(cx == dx && cy == dy)
        invariant
            links@ + spec_path(cx as nat, cy as nat, dx as nat, dy as nat) == spec_path(
                x as nat,
                y as nat,
                dx as nat,
                dy as nat,
            ),
        decreases dist(cx as nat, cy as nat, dx as nat, dy as nat),
    {
        let p = route(dx, dy, cx, cy);
        proof {
            lemma_route_progress(dx as nat, dy as nat, cx as nat, cy as nat);
        }
        let l = make_hop_link(cx, cy, p);
        let ghost old_links = links@;
        let ghost ocx = cx;
        let ghost ocy = cy;
        links.push(l);
        match p {
            Port::North => {
                cx = cx - 1;
            },
            Port::South => {
                cx = cx + 1;
            },
            Port::East => {
                cy = cy + 1;
            },
            _ => {
                cy = cy - 1;
            },
        }
        proof {
            assert(links@ + spec_path(cx as nat, cy as nat, dx as nat, dy as nat) =~= old_links
                + spec_path(ocx as nat, ocy as nat, dx as nat, dy as nat));
        }
    }
    proof {
        assert(links@ =~= links@ + Seq::<Link>::empty());
    }
    links
}

} // verus!
