//! Traffic on the links of the mesh.  Every connection of a configuration
//! sends its packets from a tile, through the tile's router, along the
//! dimension-order route, and out of the destination router into the
//! destination tile; the link usage table counts, for every link, how many
//! connections cross it.
use crate::mesh::{
    dist, from_local_link, lemma_path_index, lemma_path_len, lemma_path_no_repeat, lemma_route_progress,
    route_links, spec_path, to_local_link, walk, Link, Side,
};
use vstd::prelude::*;

verus! {

/// The kind of tile at one end of a connection.
#[derive(Clone, Copy, Debug, PartialEq, Eq, Structural)]
pub enum TileKind {
    /// A compute tile.
    Pcu,
    /// A memory tile.
    Pmu,
    /// Any other name that a configuration uses.
    Other,
}

/// The tile kind that a configuration names: `pcu`, `pmu`, anything else.
pub open spec fn tile_kind_named(name: Seq<char>) -> TileKind {
    if name == seq!['p', 'c', 'u'] {
        TileKind::Pcu
    } else if name == seq!['p', 'm', 'u'] {
        TileKind::Pmu
    } else {
        TileKind::Other
    }
}

/// The tile kind that a configuration names, as [`tile_kind_named`] says.
pub fn parse_tile_kind(name: &Vec<char>) -> (k: TileKind)
    ensures
        k == tile_kind_named(name@),
{
    if name.len() == 3 && name[0] == 'p' && name[2] == 'u' {
        let c = name[1];
        if c == 'c' {
            proof {
                assert(name@ =~= seq!['p', 'c', 'u']);
            }
            return TileKind::Pcu;
        } else if c == 'm' {
            proof {
                assert(name@ =~= seq!['p', 'm', 'u']);
                assert(name@ != seq!['p', 'c', 'u']);
            }
            return TileKind::Pmu;
        }
    }
    proof {
        if name@ == seq!['p', 'c', 'u'] || name@ == seq!['p', 'm', 'u'] {
            assert(name@.len() == 3);
            assert(name@[0] == 'p' && name@[2] == 'u');
            assert(name@[1] == 'c' || name@[1] == 'm');
        }
    }
    TileKind::Other
}

/// A connection of a configuration: packets flow from the first tile to the
/// second one.
#[derive(Clone, Copy, Debug, PartialEq, Eq, Structural)]
pub struct Connection {
    pub from_kind: TileKind,
    pub from_x: usize,
    pub from_y: usize,
    pub to_kind: TileKind,
    pub to_x: usize,
    pub to_y: usize,
}

/// The links a connection occupies: the link from the source tile into its
/// router, the link from the destination router into the destination tile,
/// and the route between the two routers.
pub open spec fn connection_links(c: Connection) -> Seq<Link> {
    seq![from_local_link(c.from_x, c.from_y), to_local_link(c.to_x, c.to_y)] + spec_path(
        c.from_x as nat,
        c.from_y as nat,
        c.to_x as nat,
        c.to_y as nat,
    )
}

/// The links that a list of connections occupies, one after the other.
pub open spec fn all_links(conns: Seq<Connection>) -> Seq<Link>
    decreases conns.len(),
{
    if conns.len() == 0 {
        Seq::empty()
    } else {
        all_links(conns.drop_last()) + connection_links(conns.last())
    }
}

/// How often `l` occurs in `s`.
pub open spec fn occurrences(s: Seq<Link>, l: Link) -> nat
    decreases s.len(),
{
    if s.len() == 0 {
        0
    } else {
        occurrences(s.drop_last(), l) + if s.last() == l {
            1nat
        } else {
            0nat
        }
    }
}

/// Appending a link adds one occurrence of it and none of any other.
pub proof fn lemma_occurrences_push(s: Seq<Link>, x: Link, l: Link)
    ensures
        occurrences(s.push(x), l) == occurrences(s, l) + if x == l {
            1nat
        } else {
            0nat
        },
{
    assert(s.push(x).drop_last() =~= s);
}

/// The occurrences in two sequences, one after the other, add up.
pub proof fn lemma_occurrences_add(a: Seq<Link>, b: Seq<Link>, l: Link)
    ensures
        occurrences(a + b, l) == occurrences(a, l) + occurrences(b, l),
    decreases b.len(),
{
    if b.len() == 0 {
        assert(a + b =~= a);
    } else {
        lemma_occurrences_add(a, b.drop_last(), l);
        assert((a + b).drop_last() =~= a + b.drop_last());
    }
}

/// A sequence without repeated links holds each link at most once.
pub proof fn lemma_occurrences_no_dup(s: Seq<Link>, l: Link)
    requires
        s.no_duplicates(),
    ensures
        occurrences(s, l) <= 1,
        !s.contains(l) ==> occurrences(s, l) == 0,
    decreases s.len(),
{
    if s.len() > 0 {
        let t = s.drop_last();
        assert(t.no_duplicates()) by {
            assert forall|i: int, j: int| 0 <= i < t.len() && 0 <= j < t.len() && i != j implies t[i]
                != t[j] by {
                assert(t[i] == s[i] && t[j] == s[j]);
            }
        }
        lemma_occurrences_no_dup(t, l);
        if s.last() == l {
            assert(!t.contains(l)) by {
                if t.contains(l) {
                    let k = choose|k: int| 0 <= k < t.len() && t[k] == l;
                    assert(s[k] == s[s.len() - 1]);
                }
            }
        } else if !s.contains(l) {
            assert(!t.contains(l)) by {
                if t.contains(l) {
                    let k = choose|k: int| 0 <= k < t.len() && t[k] == l;
                    assert(s[k] == l);
                }
            }
        }
    }
}

/// Every link of a route joins two routers; none is a local link.
pub proof fn lemma_path_global(x: nat, y: nat, dx: nat, dy: nat)
    ensures
        forall|i: int|
            #![trigger spec_path(x, y, dx, dy)[i]]
            0 <= i < spec_path(x, y, dx, dy).len() ==> spec_path(x, y, dx, dy)[i].from_side
                != Side::FromLocal && spec_path(x, y, dx, dy)[i].from_side != Side::ToLocal,
{
    let path = spec_path(x, y, dx, dy);
    assert forall|i: int| #![trigger path[i]] 0 <= i < path.len() implies path[i].from_side
        != Side::FromLocal && path[i].from_side != Side::ToLocal by {
        lemma_path_len(x, y, dx, dy);
        lemma_path_index(x, y, dx, dy, i as nat);
        let w = walk(x, y, dx, dy, i as nat);
        lemma_route_progress(dx, dy, w.0, w.1);
    }
}

/// A connection occupies every link at most once.
pub proof fn lemma_connection_links_no_dup(c: Connection)
    ensures
        connection_links(c).no_duplicates(),
{
    let path = spec_path(c.from_x as nat, c.from_y as nat, c.to_x as nat, c.to_y as nat);
    let s = connection_links(c);
    lemma_path_no_repeat(c.from_x, c.from_y, c.to_x, c.to_y);
    lemma_path_global(c.from_x as nat, c.from_y as nat, c.to_x as nat, c.to_y as nat);
    assert forall|i: int, j: int| 0 <= i < s.len() && 0 <= j < s.len() && i != j implies s[i]
        != s[j] by {
        if i >= 2 {
            assert(s[i] == path[i - 2]);
        }
        if j >= 2 {
            assert(s[j] == path[j - 2]);
        }
    }
}

/// The number of connections that cross each link of the mesh.
pub struct LinkUsage {
    entries: Vec<(Link, usize)>,
}

impl LinkUsage {
    /// Every link is listed once, with a positive count.
    pub closed spec fn wf(self) -> bool {
        &&& forall|i: int, j: int|
            0 <= i < j < self.entries@.len() ==> self.entries@[i].0 != self.entries@[j].0
        &&& forall|i: int| 0 <= i < self.entries@.len() ==> self.entries@[i].1 >= 1
    }

    /// How many connections cross link `l`.
    pub closed spec fn count_of(self, l: Link) -> nat {
        if exists|i: int| 0 <= i < self.entries@.len() && self.entries@[i].0 == l {
            self.entries@[choose|i: int|
                0 <= i < self.entries@.len() && self.entries@[i].0 == l].1 as nat
        } else {
            0
        }
    }

    proof fn lemma_count_at(self, i: int)
        requires
            self.wf(),
            0 <= i < self.entries@.len(),
        ensures
            self.count_of(self.entries@[i].0) == self.entries@[i].1,
    {
        let l = self.entries@[i].0;
        let j = choose|j: int| 0 <= j < self.entries@.len() && self.entries@[j].0 == l;
        if j != i {
            if i < j {
                assert(self.entries@[i].0 != self.entries@[j].0);
            } else {
                assert(self.entries@[j].0 != self.entries@[i].0);
            }
        }
    }

    /// A table in which no link is used.
    pub fn new() -> (u: LinkUsage)
        ensures
            u.wf(),
            forall|l: Link| u.count_of(l) == 0,
    {
        LinkUsage { entries: Vec::new() }
    }

    fn find(&self, l: &Link) -> (r: Option<usize>)
        ensures
            r matches Some(k) ==> k < self.entries@.len() && self.entries@[k as int].0 == *l,
            r is None ==> forall|i: int| 0 <= i < self.entries@.len() ==> self.entries@[i].0 != *l,
    {
        let mut k: usize = 0;
        while k < self.entries.len()
            invariant
                k <= self.entries@.len(),
                forall|i: int| 0 <= i < k ==> self.entries@[i].0 != *l,
            decreases self.entries@.len() - k,
        {
            if self.entries[k].0 == *l {
                return Some(k);
            }
            k = k + 1;
        }
        None
    }

    /// How many connections cross link `l`; 0 when none does.
    pub fn count(&self, l: &Link) -> (c: usize)
        requires
            self.wf(),
        ensures
            c == self.count_of(*l),
    {
        match self.find(l) {
            Some(k) => {
                proof {
                    self.lemma_count_at(k as int);
                }
                self.entries[k].1
            },
            None => 0,
        }
    }

    /// The count of a link that some connection crosses; `None` for a link
    /// that none crosses.
    pub fn lookup(&self, l: &Link) -> (c: Option<usize>)
        requires
            self.wf(),
        ensures
            c == (if self.count_of(*l) > 0 {
                Some(self.count_of(*l) as usize)
            } else {
                None::<usize>
            }),
    {
        match self.find(l) {
            Some(k) => {
                proof {
                    self.lemma_count_at(k as int);
                }
                Some(self.entries[k].1)
            },
            None => None,
        }
    }

    /// The links that at least one connection crosses, each once.
    pub fn used_links(&self) -> (v: Vec<Link>)
        requires
            self.wf(),
        ensures
            v@.no_duplicates(),
            forall|l: Link| v@.contains(l) <==> self.count_of(l) > 0,
    {
        let mut v: Vec<Link> = Vec::new();
        let mut k: usize = 0;
        while k < self.entries.len()
            invariant
                self.wf(),
                k <= self.entries@.len(),
                v@.len() == k,
                forall|i: int| 0 <= i < k ==> v@[i] == self.entries@[i].0,
            decreases self.entries@.len() - k,
        {
            v.push(self.entries[k].0);
            k = k + 1;
        }
        proof {
            assert forall|l: Link| v@.contains(l) <==> self.count_of(l) > 0 by {
                if v@.contains(l) {
                    let i = choose|i: int| 0 <= i < v@.len() && v@[i] == l;
                    self.lemma_count_at(i);
                }
                if self.count_of(l) > 0 {
                    let i = choose|i: int| 0 <= i < self.entries@.len() && self.entries@[i].0 == l;
                    assert(v@[i] == l);
                }
            }
            assert forall|i: int, j: int| 0 <= i < v@.len() && 0 <= j < v@.len() && i != j implies v@[i]
                != v@[j] by {
                if i < j {
                    assert(self.entries@[i].0 != self.entries@[j].0);
                } else {
                    assert(self.entries@[j].0 != self.entries@[i].0);
                }
            }
        }
        v
    }

    /// Counts one more crossing of `l`.
    fn add(&mut self, l: Link)
        requires
            old(self).wf(),
            old(self).count_of(l) < usize::MAX,
        ensures
            final(self).wf(),
            final(self).count_of(l) == old(self).count_of(l) + 1,
            forall|m: Link| m != l ==> final(self).count_of(m) == old(self).count_of(m),
    {
        match self.find(&l) {
            Some(k) => {
                proof {
                    self.lemma_count_at(k as int);
                }
                let c = self.entries[k].1;
                let ghost before = *self;
                self.entries.set(k, (l, c + 1));
                proof {
                    self.lemma_count_at(k as int);
                    assert forall|m: Link| m != l implies self.count_of(m) == before.count_of(m) by {
                        if exists|i: int| 0 <= i < before.entries@.len() && before.entries@[i].0 == m {
                            let i = choose|i: int|
                                0 <= i < before.entries@.len() && before.entries@[i].0 == m;
                            before.lemma_count_at(i);
                            self.lemma_count_at(i);
                        }
                        if exists|i: int| 0 <= i < self.entries@.len() && self.entries@[i].0 == m {
                            let i = choose|i: int|
                                0 <= i < self.entries@.len() && self.entries@[i].0 == m;
                            assert(i != k);
                            assert(before.entries@[i].0 == m);
                        }
                    }
                }
            },
            None => {
                let ghost before = *self;
                self.entries.push((l, 1));
                proof {
                    let n = before.entries@.len() as int;
                    assert(self.entries@[n].0 == l);
                    self.lemma_count_at(n);
                    assert forall|m: Link| m != l implies self.count_of(m) == before.count_of(m) by {
                        if exists|i: int| 0 <= i < before.entries@.len() && before.entries@[i].0 == m {
                            let i = choose|i: int|
                                0 <= i < before.entries@.len() && before.entries@[i].0 == m;
                            before.lemma_count_at(i);
                            assert(self.entries@[i] == before.entries@[i]);
                            self.lemma_count_at(i);
                        }
                        if exists|i: int| 0 <= i < self.entries@.len() && self.entries@[i].0 == m {
                            let i = choose|i: int|
                                0 <= i < self.entries@.len() && self.entries@[i].0 == m;
                            assert(i != n);
                            assert(before.entries@[i].0 == m);
                        }
                    }
                }
            },
        }
    }
}

/// The links of one connection, in the order in which they are counted.
pub fn connection_link_list(c: &Connection) -> (v: Vec<Link>)
    ensures
        v@ == connection_links(*c),
{
    let mut v: Vec<Link> = Vec::new();
    v.push(
        Link {
            from_x: c.from_x,
            from_y: c.from_y,
            from_side: Side::FromLocal,
            to_x: c.from_x,
            to_y: c.from_y,
            to_side: Side::FromLocal,
        },
    );
    v.push(
        Link {
            from_x: c.to_x,
            from_y: c.to_y,
            from_side: Side::ToLocal,
            to_x: c.to_x,
            to_y: c.to_y,
            to_side: Side::ToLocal,
        },
    );
    let mut path = route_links(c.from_x, c.from_y, c.to_x, c.to_y);
    let ghost head = v@;
    v.append(&mut path);
    proof {
        assert(v@ =~= connection_links(*c));
    }
    v
}

/// The link usage of a configuration: for every link, the number of
/// connections that cross it.
pub fn count_link_usage(conns: &Vec<Connection>) -> (u: LinkUsage)
    ensures
        u.wf(),
        forall|l: Link| u.count_of(l) == occurrences(all_links(conns@), l),
{
    let mut u = LinkUsage::new();
    let mut i: usize = 0;
    while i < conns.len()
        invariant
            i <= conns@.len(),
            u.wf(),
            forall|l: Link| u.count_of(l) == occurrences(all_links(conns@.take(i as int)), l),
            forall|l: Link| occurrences(all_links(conns@.take(i as int)), l) <= i,
        decreases conns@.len() - i,
    {
        let c = conns[i];
        let cl = connection_link_list(&c);
        let ghost done = all_links(conns@.take(i as int));
        proof {
            lemma_connection_links_no_dup(c);
        }
        let mut k: usize = 0;
        while k < cl.len()
            invariant
                i < conns.len(),
                k <= cl@.len(),
                cl@ == connection_links(c),
                cl@.no_duplicates(),
                u.wf(),
                forall|l: Link| u.count_of(l) == occurrences(done + cl@.take(k as int), l),
                forall|l: Link| occurrences(done, l) <= i,
            decreases cl@.len() - k,
        {
            let l = cl[k];
            proof {
                let pre = cl@.take(k as int);
                assert(pre.no_duplicates()) by {
                    assert forall|a: int, b: int| 0 <= a < pre.len() && 0 <= b < pre.len() && a != b implies pre[a]
                        != pre[b] by {
                        assert(pre[a] == cl@[a] && pre[b] == cl@[b]);
                    }
                }
                assert(!pre.contains(l)) by {
                    if pre.contains(l) {
                        let a = choose|a: int| 0 <= a < pre.len() && pre[a] == l;
                        assert(cl@[a] == cl@[k as int]);
                    }
                }
                lemma_occurrences_no_dup(pre, l);
                lemma_occurrences_add(done, pre, l);
                assert(u.count_of(l) == occurrences(done + pre, l));
                assert(occurrences(done, l) <= i);
            }
            u.add(l);
            proof {
                assert(cl@.take(k + 1) =~= cl@.take(k as int).push(l));
                assert forall|m: Link| u.count_of(m) == occurrences(done + cl@.take(k + 1), m) by {
                    assert(done + cl@.take(k + 1) =~= (done + cl@.take(k as int)).push(l));
                    lemma_occurrences_push(done + cl@.take(k as int), l, m);
                }
            }
            k = k + 1;
        }
        proof {
            assert(cl@.take(cl@.len() as int) =~= cl@);
            assert(conns@.take(i + 1).drop_last() =~= conns@.take(i as int));
            assert(all_links(conns@.take(i + 1)) == done + connection_links(c));
            assert forall|l: Link| #[trigger] occurrences(all_links(conns@.take(i + 1)), l) <= i + 1 by {
                lemma_occurrences_add(done, cl@, l);
                lemma_occurrences_no_dup(cl@, l);
            }
        }
        i = i + 1;
    }
    proof {
        assert(conns@.take(conns@.len() as int) =~= conns@);
    }
    u
}

} // verus!
