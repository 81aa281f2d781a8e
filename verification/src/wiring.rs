//! Wiring of the mesh routers.  Every link between two routers that some
//! connection crosses gets a channel; each router takes the channels of the
//! links that arrive at it and of the links that leave it, in the order
//! north, south, east, west, and then the links to and from its own tile.
use crate::links::LinkUsage;
use crate::mesh::{from_local_link, to_local_link, Link, Port, Side};
use crate::ports::{PortEntry, PortMap, RouterPorts};
use vstd::prelude::*;

verus! {

/// A link between two routers, as opposed to one between a router and its tile.
pub open spec fn is_global(l: Link) -> bool {
    l.from_side != Side::FromLocal && l.from_side != Side::ToLocal
}

/// The link that arrives at router `(x, y)` through input port `p`, when the
/// neighbour on that side exists.
pub open spec fn incoming_link(x: usize, y: usize, p: Port) -> Option<Link> {
    match p {
        Port::North => if x > 0 {
            Some(
                Link {
                    from_x: (x - 1) as usize,
                    from_y: y,
                    from_side: Side::South,
                    to_x: x,
                    to_y: y,
                    to_side: Side::North,
                },
            )
        } else {
            None
        },
        Port::South => if x < usize::MAX {
            Some(
                Link {
                    from_x: (x + 1) as usize,
                    from_y: y,
                    from_side: Side::North,
                    to_x: x,
                    to_y: y,
                    to_side: Side::South,
                },
            )
        } else {
            None
        },
        Port::East => if y < usize::MAX {
            Some(
                Link {
                    from_x: x,
                    from_y: (y + 1) as usize,
                    from_side: Side::West,
                    to_x: x,
                    to_y: y,
                    to_side: Side::East,
                },
            )
        } else {
            None
        },
        Port::West => if y > 0 {
            Some(
                Link {
                    from_x: x,
                    from_y: (y - 1) as usize,
                    from_side: Side::East,
                    to_x: x,
                    to_y: y,
                    to_side: Side::West,
                },
            )
        } else {
            None
        },
        Port::Local => None,
    }
}

/// The link that leaves router `(x, y)` through output port `p`, when the
/// neighbour on that side exists.
pub open spec fn outgoing_link(x: usize, y: usize, p: Port) -> Option<Link> {
    match p {
        Port::North => if x > 0 {
            Some(
                Link {
                    from_x: x,
                    from_y: y,
                    from_side: Side::North,
                    to_x: (x - 1) as usize,
                    to_y: y,
                    to_side: Side::South,
                },
            )
        } else {
            None
        },
        Port::South => if x < usize::MAX {
            Some(
                Link {
                    from_x: x,
                    from_y: y,
                    from_side: Side::South,
                    to_x: (x + 1) as usize,
                    to_y: y,
                    to_side: Side::North,
                },
            )
        } else {
            None
        },
        Port::East => if y < usize::MAX {
            Some(
                Link {
                    from_x: x,
                    from_y: y,
                    from_side: Side::East,
                    to_x: x,
                    to_y: (y + 1) as usize,
                    to_side: Side::West,
                },
            )
        } else {
            None
        },
        Port::West => if y > 0 {
            Some(
                Link {
                    from_x: x,
                    from_y: y,
                    from_side: Side::West,
                    to_x: x,
                    to_y: (y - 1) as usize,
                    to_side: Side::East,
                },
            )
        } else {
            None
        },
        Port::Local => None,
    }
}

/// The link that arrives at (`incoming`) or leaves router `(x, y)` through
/// port `p`, as [`incoming_link`] and [`outgoing_link`] say.
pub fn port_link(x: usize, y: usize, p: Port, incoming: bool) -> (l: Option<Link>)
    ensures
        l == (if incoming {
            incoming_link(x, y, p)
        } else {
            outgoing_link(x, y, p)
        }),
{
    match p {
        Port::North => if x > 0 {
            if incoming {
                Some(
                    Link {
                        from_x: x - 1,
                        from_y: y,
                        from_side: Side::South,
                        to_x: x,
                        to_y: y,
                        to_side: Side::North,
                    },
                )
            } else {
                Some(
                    Link {
                        from_x: x,
                        from_y: y,
                        from_side: Side::North,
                        to_x: x - 1,
                        to_y: y,
                        to_side: Side::South,
                    },
                )
            }
        } else {
            None
        },
        Port::South => if x < usize::MAX {
            if incoming {
                Some(
                    Link {
                        from_x: x + 1,
                        from_y: y,
                        from_side: Side::North,
                        to_x: x,
                        to_y: y,
                        to_side: Side::South,
                    },
                )
            } else {
                Some(
                    Link {
                        from_x: x,
                        from_y: y,
                        from_side: Side::South,
                        to_x: x + 1,
                        to_y: y,
                        to_side: Side::North,
                    },
                )
            }
        } else {
            None
        },
        Port::East => if y < usize::MAX {
            if incoming {
                Some(
                    Link {
                        from_x: x,
                        from_y: y + 1,
                        from_side: Side::West,
                        to_x: x,
                        to_y: y,
                        to_side: Side::East,
                    },
                )
            } else {
                Some(
                    Link {
                        from_x: x,
                        from_y: y,
                        from_side: Side::East,
                        to_x: x,
                        to_y: y + 1,
                        to_side: Side::West,
                    },
                )
            }
        } else {
            None
        },
        Port::West => if y > 0 {
            if incoming {
                Some(
                    Link {
                        from_x: x,
                        from_y: y - 1,
                        from_side: Side::East,
                        to_x: x,
                        to_y: y,
                        to_side: Side::West,
                    },
                )
            } else {
                Some(
                    Link {
                        from_x: x,
                        from_y: y,
                        from_side: Side::West,
                        to_x: x,
                        to_y: y - 1,
                        to_side: Side::East,
                    },
                )
            }
        } else {
            None
        },
        Port::Local => None,
    }
}

/// The port on the other side of a link: a link that leaves a router to
/// the north arrives at its neighbour from the south, and so on.
pub open spec fn facing(p: Port) -> Port {
    match p {
        Port::North => Port::South,
        Port::South => Port::North,
        Port::East => Port::West,
        Port::West => Port::East,
        Port::Local => Port::Local,
    }
}

/// The two ends of a link between routers meet: the link that arrives at
/// a router through port `p` is the one that leaves the neighbour on that
/// side through the facing port, and it joins the two routers.
pub proof fn lemma_links_meet(x: usize, y: usize, p: Port)
    ensures
        incoming_link(x, y, p) matches Some(l) ==> {
            &&& l.to_x == x && l.to_y == y
            &&& is_global(l)
            &&& outgoing_link(l.from_x, l.from_y, facing(p)) == Some(l)
        },
        outgoing_link(x, y, p) matches Some(l) ==> {
            &&& l.from_x == x && l.from_y == y
            &&& is_global(l)
            &&& incoming_link(l.to_x, l.to_y, facing(p)) == Some(l)
        },
{
}

/// 1 for `true`, 0 for `false`.
pub open spec fn b2n(b: bool) -> nat {
    if b {
        1
    } else {
        0
    }
}

/// Why a router could not be wired.
#[derive(Clone, Copy, Debug, PartialEq, Eq, Structural)]
pub enum WiringError {
    /// The router's tile sends packets, but no connection leaves that tile.
    NoTrafficFromTile,
    /// The router's tile receives packets, but no connection ends at that tile.
    NoTrafficToTile,
}

/// The channels of the links between routers, as the routers take them.
pub struct Wiring {
    usage: LinkUsage,
    links: Vec<Link>,
    input_taken: Vec<bool>,
    output_taken: Vec<bool>,
}

impl Wiring {
    /// The channel table's invariant: one entry for each link between
    /// routers that some connection crosses, each once.
    pub closed spec fn wf(self) -> bool {
        &&& self.usage.wf()
        &&& self.links@.no_duplicates()
        &&& self.input_taken@.len() == self.links@.len()
        &&& self.output_taken@.len() == self.links@.len()
        &&& forall|l: Link|
            self.links@.contains(l) <==> is_global(l) && self.usage.count_of(l) > 0
    }

    /// The number of connections that cross link `l`.
    pub closed spec fn count_of(self, l: Link) -> nat {
        self.usage.count_of(l)
    }

    /// Whether the channel of link `l` still waits for the router it leads to.
    pub closed spec fn input_open(self, l: Link) -> bool {
        exists|i: int| 0 <= i < self.links@.len() && self.links@[i] == l && !self.input_taken@[i]
    }

    /// Whether the channel of link `l` still waits for the router it leaves.
    pub closed spec fn output_open(self, l: Link) -> bool {
        exists|i: int| 0 <= i < self.links@.len() && self.links@[i] == l && !self.output_taken@[i]
    }

    /// Whether link `l` joins two routers and some connection crosses it.
    pub closed spec fn has_channel(self, l: Link) -> bool {
        self.links@.contains(l)
    }

    /// A channel for every link between routers that some connection
    /// crosses; no router has taken any yet.
    pub fn new(usage: LinkUsage) -> (w: Wiring)
        requires
            usage.wf(),
        ensures
            w.wf(),
            forall|l: Link| #[trigger] w.count_of(l) == usage.count_of(l),
            forall|l: Link| #[trigger] w.has_channel(l) <==> is_global(l) && usage.count_of(l) > 0,
            forall|l: Link| #[trigger] w.input_open(l) <==> w.has_channel(l),
            forall|l: Link| #[trigger] w.output_open(l) <==> w.has_channel(l),
    {
        let all = usage.used_links();
        let mut links: Vec<Link> = Vec::new();
        let mut k: usize = 0;
        while k < all.len()
            invariant
                usage.wf(),
                k <= all@.len(),
                all@.no_duplicates(),
                forall|l: Link| all@.contains(l) <==> usage.count_of(l) > 0,
                links@.no_duplicates(),
                forall|l: Link|
                    links@.contains(l) <==> (exists|i: int|
                        0 <= i < k && all@[i] == l && is_global(l)),
            decreases all@.len() - k,
        {
            let l = all[k];
            let ghost before = links@;
            if l.from_side != Side::FromLocal && l.from_side != Side::ToLocal {
                links.push(l);
                proof {
                    assert(!before.contains(l)) by {
                        if before.contains(l) {
                            let i = choose|i: int| 0 <= i < k && all@[i] == l && is_global(l);
                            assert(all@[i] == all@[k as int]);
                        }
                    }
                    assert forall|a: int, b: int|
                        0 <= a < links@.len() && 0 <= b < links@.len() && a != b implies links@[a]
                        != links@[b] by {
                        if a < before.len() && b < before.len() {
                            assert(links@[a] == before[a] && links@[b] == before[b]);
                        } else if a < before.len() {
                            assert(links@[a] == before[a]);
                            assert(before.contains(links@[a]));
                        } else if b < before.len() {
                            assert(links@[b] == before[b]);
                            assert(before.contains(links@[b]));
                        }
                    }
                    assert forall|m: Link|
                        links@.contains(m) <==> (exists|i: int|
                            0 <= i < k + 1 && all@[i] == m && is_global(m)) by {
                        if links@.contains(m) {
                            let j = choose|j: int| 0 <= j < links@.len() && links@[j] == m;
                            if j < before.len() {
                                assert(before[j] == m);
                                assert(before.contains(m));
                            } else {
                                assert(all@[k as int] == m);
                            }
                        }
                        if exists|i: int| 0 <= i < k + 1 && all@[i] == m && is_global(m) {
                            let i = choose|i: int| 0 <= i < k + 1 && all@[i] == m && is_global(m);
                            if i < k {
                                assert(before.contains(m));
                                let j = choose|j: int| 0 <= j < before.len() && before[j] == m;
                                assert(links@[j] == m);
                            } else {
                                assert(links@[before.len() as int] == m);
                            }
                        }
                    }
                }
            } else {
                proof {
                    assert forall|m: Link|
                        links@.contains(m) <==> (exists|i: int|
                            0 <= i < k + 1 && all@[i] == m && is_global(m)) by {
                        if exists|i: int| 0 <= i < k + 1 && all@[i] == m && is_global(m) {
                            let i = choose|i: int| 0 <= i < k + 1 && all@[i] == m && is_global(m);
                            assert(i != k);
                        }
                    }
                }
            }
            k = k + 1;
        }
        let n = links.len();
        let mut input_taken: Vec<bool> = Vec::new();
        let mut output_taken: Vec<bool> = Vec::new();
        let mut j: usize = 0;
        while j < n
            invariant
                n == links@.len(),
                j <= n,
                input_taken@.len() == j,
                output_taken@.len() == j,
                forall|i: int| 0 <= i < j ==> !input_taken@[i] && !output_taken@[i],
            decreases n - j,
        {
            input_taken.push(false);
            output_taken.push(false);
            j = j + 1;
        }
        let w = Wiring { usage, links, input_taken, output_taken };
        proof {
            assert forall|l: Link| w.links@.contains(l) <==> is_global(l) && w.usage.count_of(l) > 0 by {
                if is_global(l) && usage.count_of(l) > 0 {
                    assert(all@.contains(l));
                    let i = choose|i: int| 0 <= i < all@.len() && all@[i] == l;
                    assert(exists|i: int| 0 <= i < all@.len() && all@[i] == l && is_global(l));
                }
                if w.links@.contains(l) {
                    let i = choose|i: int| 0 <= i < all@.len() && all@[i] == l && is_global(l);
                    assert(all@.contains(l));
                }
            }
            assert forall|l: Link| #[trigger] w.input_open(l) <==> w.has_channel(l) by {
                if w.has_channel(l) {
                    let i = choose|i: int| 0 <= i < w.links@.len() && w.links@[i] == l;
                    assert(!w.input_taken@[i]);
                }
            }
            assert forall|l: Link| #[trigger] w.output_open(l) <==> w.has_channel(l) by {
                if w.has_channel(l) {
                    let i = choose|i: int| 0 <= i < w.links@.len() && w.links@[i] == l;
                    assert(!w.output_taken@[i]);
                }
            }
        }
        w
    }

    fn index_of(&self, l: &Link) -> (r: Option<usize>)
        requires
            self.wf(),
        ensures
            r matches Some(k) ==> k < self.links@.len() && self.links@[k as int] == *l,
            r is None ==> !self.links@.contains(*l),
    {
        let mut k: usize = 0;
        while k < self.links.len()
            invariant
                k <= self.links@.len(),
                forall|i: int| 0 <= i < k ==> self.links@[i] != *l,
            decreases self.links@.len() - k,
        {
            if self.links[k] == *l {
                return Some(k);
            }
            k = k + 1;
        }
        None
    }

    /// Lets the router at `(x, y)` take the channel of the link that reaches
    /// (or leaves) it through port `p`, as its stream number `stream`.
    fn take_port(&mut self, x: usize, y: usize, p: Port, incoming: bool, stream: usize) -> (e: Option<
        PortEntry,
    >)
        requires
            old(self).wf(),
        ensures
            final(self).wf(),
            ({
                let l = if incoming {
                    incoming_link(x, y, p)
                } else {
                    outgoing_link(x, y, p)
                };
                let open = l matches Some(m) && (if incoming {
                    old(self).input_open(m)
                } else {
                    old(self).output_open(m)
                });
                &&& e == (if open {
                    Some(PortEntry { stream, per_item: old(self).count_of(l.unwrap()) as usize })
                } else {
                    None::<PortEntry>
                })
                &&& forall|m: Link|
                    #[trigger] final(self).input_open(m) == (old(self).input_open(m) && !(open
                        && incoming && l == Some(m)))
                &&& forall|m: Link|
                    #[trigger] final(self).output_open(m) == (old(self).output_open(m) && !(open
                        && !incoming && l == Some(m)))
            }),
            forall|m: Link| #[trigger] final(self).count_of(m) == old(self).count_of(m),
            forall|m: Link| #[trigger] final(self).has_channel(m) == old(self).has_channel(m),
    {
        let ghost before = *self;
        let lo = port_link(x, y, p, incoming);
        match lo {
            None => None,
            Some(l) => match self.index_of(&l) {
                None => {
                    proof {
                        assert(!before.input_open(l));
                        assert(!before.output_open(l));
                    }
                    None
                },
                Some(k) => {
                    proof {
                        assert forall|i: int|
                            0 <= i < self.links@.len() && self.links@[i] == l implies i == k by {
                            if i != k {
                                assert(self.links@[i] != self.links@[k as int]);
                            }
                        }
                    }
                    if incoming {
                        if self.input_taken[k] {
                            None
                        } else {
                            self.input_taken.set(k, true);
                            let c = self.usage.count(&l);
                            proof {
                                assert(before.input_open(l));
                                assert forall|m: Link| #[trigger]
                                    self.input_open(m) == (before.input_open(m) && m != l) by {
                                    if before.input_open(m) && m != l {
                                        let i = choose|i: int|
                                            0 <= i < before.links@.len() && before.links@[i] == m
                                                && !before.input_taken@[i];
                                        assert(self.input_taken@[i] == before.input_taken@[i]);
                                    }
                                    if self.input_open(m) {
                                        let i = choose|i: int|
                                            0 <= i < self.links@.len() && self.links@[i] == m
                                                && !self.input_taken@[i];
                                        assert(i != k);
                                    }
                                }
                                assert forall|m: Link| #[trigger]
                                    self.output_open(m) == before.output_open(m) by {
                                    if before.output_open(m) {
                                        let i = choose|i: int|
                                            0 <= i < before.links@.len() && before.links@[i] == m
                                                && !before.output_taken@[i];
                                    }
                                }
                            }
                            Some(PortEntry { stream, per_item: c })
                        }
                    } else {
                        if self.output_taken[k] {
                            None
                        } else {
                            self.output_taken.set(k, true);
                            let c = self.usage.count(&l);
                            proof {
                                assert(before.output_open(l));
                                assert forall|m: Link| #[trigger]
                                    self.output_open(m) == (before.output_open(m) && m != l) by {
                                    if before.output_open(m) && m != l {
                                        let i = choose|i: int|
                                            0 <= i < before.links@.len() && before.links@[i] == m
                                                && !before.output_taken@[i];
                                        assert(self.output_taken@[i] == before.output_taken@[i]);
                                    }
                                    if self.output_open(m) {
                                        let i = choose|i: int|
                                            0 <= i < self.links@.len() && self.links@[i] == m
                                                && !self.output_taken@[i];
                                        assert(i != k);
                                    }
                                }
                                assert forall|m: Link| #[trigger]
                                    self.input_open(m) == before.input_open(m) by {
                                    if before.input_open(m) {
                                        let i = choose|i: int|
                                            0 <= i < before.links@.len() && before.links@[i] == m
                                                && !before.input_taken@[i];
                                    }
                                }
                            }
                            Some(PortEntry { stream, per_item: c })
                        }
                    }
                },
            },
        }
    }
}

impl Wiring {
    /// Whether the router at `(x, y)` takes, through port `p`, the channel of
    /// a link that arrives there (`incoming`) or leaves there.
    pub open spec fn takes(self, x: usize, y: usize, p: Port, incoming: bool) -> bool {
        if incoming {
            incoming_link(x, y, p) matches Some(l) && self.input_open(l)
        } else {
            outgoing_link(x, y, p) matches Some(l) && self.output_open(l)
        }
    }

    /// The stream number that port `p` gets: the number of ports before it,
    /// in the order north, south, east, west, that take a channel.
    pub open spec fn rank(self, x: usize, y: usize, p: Port, incoming: bool) -> nat {
        let n = b2n(self.takes(x, y, Port::North, incoming));
        let s = b2n(self.takes(x, y, Port::South, incoming));
        let e = b2n(self.takes(x, y, Port::East, incoming));
        let w = b2n(self.takes(x, y, Port::West, incoming));
        match p {
            Port::North => 0,
            Port::South => n,
            Port::East => n + s,
            Port::West => n + s + e,
            Port::Local => n + s + e + w,
        }
    }

    /// The entry of port `p` (not the local one) of the router at `(x, y)`:
    /// wired when the link through it still has an untaken channel, with
    /// the stream number `rank` and as many packets per item as connections
    /// cross the link.
    pub open spec fn entry(self, x: usize, y: usize, p: Port, incoming: bool) -> Option<PortEntry> {
        if self.takes(x, y, p, incoming) {
            let l = if incoming {
                incoming_link(x, y, p)
            } else {
                outgoing_link(x, y, p)
            };
            Some(
                PortEntry {
                    stream: self.rank(x, y, p, incoming) as usize,
                    per_item: self.count_of(l.unwrap()) as usize,
                },
            )
        } else {
            None
        }
    }

    /// The input (`incoming`) or output port map that the router at `(x, y)`
    /// gets; its local port is wired, after the others, when `local` is set,
    /// and carries as many packets per item as connections leave (or reach)
    /// its tile.
    pub open spec fn port_map(self, x: usize, y: usize, incoming: bool, local: bool) -> PortMap {
        PortMap {
            north: self.entry(x, y, Port::North, incoming),
            south: self.entry(x, y, Port::South, incoming),
            east: self.entry(x, y, Port::East, incoming),
            west: self.entry(x, y, Port::West, incoming),
            local: if local {
                Some(
                    PortEntry {
                        stream: self.rank(x, y, Port::Local, incoming) as usize,
                        per_item: self.count_of(
                            if incoming {
                                from_local_link(x, y)
                            } else {
                                to_local_link(x, y)
                            },
                        ) as usize,
                    },
                )
            } else {
                None
            },
        }
    }

    /// The port table that the router at `(x, y)` gets.
    pub open spec fn ports_for(self, x: usize, y: usize, local_in: bool, local_out: bool) -> RouterPorts {
        RouterPorts {
            inputs: self.port_map(x, y, true, local_in),
            outputs: self.port_map(x, y, false, local_out),
        }
    }

    /// Takes the channels of one direction for the router at `(x, y)`.
    fn claim_side(&mut self, x: usize, y: usize, incoming: bool, local: Option<usize>) -> (m: PortMap)
        requires
            old(self).wf(),
            local matches Some(c) ==> c == old(self).count_of(
                if incoming {
                    from_local_link(x, y)
                } else {
                    to_local_link(x, y)
                },
            ),
        ensures
            final(self).wf(),
            m == old(self).port_map(x, y, incoming, local is Some),
            forall|l: Link| #[trigger] final(self).count_of(l) == old(self).count_of(l),
            forall|l: Link| #[trigger] final(self).has_channel(l) == old(self).has_channel(l),
            forall|l: Link| #[trigger]
                final(self).input_open(l) == (old(self).input_open(l) && !(incoming && exists|p: Port|
                    old(self).takes(x, y, p, true) && incoming_link(x, y, p) == Some(l))),
            forall|l: Link| #[trigger]
                final(self).output_open(l) == (old(self).output_open(l) && !(!incoming && exists|p: Port|
                    old(self).takes(x, y, p, false) && outgoing_link(x, y, p) == Some(l))),
    {
        let ghost w0 = *self;
        let mut map = PortMap::empty();
        let mut k: usize = 0;
        let n = self.take_port(x, y, Port::North, incoming, k);
        if let Some(e) = n {
            map.set(Port::North, e);
            k = k + 1;
        }
        let ghost w1 = *self;
        assert(map.at(Port::North) == w0.entry(x, y, Port::North, incoming));
        assert(k == w0.rank(x, y, Port::South, incoming));
        let s = self.take_port(x, y, Port::South, incoming, k);
        if let Some(e) = s {
            map.set(Port::South, e);
            k = k + 1;
        }
        let ghost w2 = *self;
        assert(w1.takes(x, y, Port::South, incoming) == w0.takes(x, y, Port::South, incoming));
        assert(map.at(Port::South) == w0.entry(x, y, Port::South, incoming));
        assert(k == w0.rank(x, y, Port::East, incoming));
        let e_ = self.take_port(x, y, Port::East, incoming, k);
        if let Some(e) = e_ {
            map.set(Port::East, e);
            k = k + 1;
        }
        let ghost w3 = *self;
        assert(w2.takes(x, y, Port::East, incoming) == w0.takes(x, y, Port::East, incoming));
        assert(map.at(Port::East) == w0.entry(x, y, Port::East, incoming));
        assert(k == w0.rank(x, y, Port::West, incoming));
        let w_ = self.take_port(x, y, Port::West, incoming, k);
        if let Some(e) = w_ {
            map.set(Port::West, e);
            k = k + 1;
        }
        assert(w3.takes(x, y, Port::West, incoming) == w0.takes(x, y, Port::West, incoming));
        assert(map.at(Port::West) == w0.entry(x, y, Port::West, incoming));
        assert(k == w0.rank(x, y, Port::Local, incoming));
        if let Some(c) = local {
            map.set(Port::Local, PortEntry { stream: k, per_item: c });
        }
        proof {
            assert(map.at(Port::North) == w0.entry(x, y, Port::North, incoming));
            assert(map.at(Port::South) == w0.entry(x, y, Port::South, incoming));
            assert(map.at(Port::East) == w0.entry(x, y, Port::East, incoming));
            assert(map.at(Port::West) == w0.entry(x, y, Port::West, incoming));
            assert(map.at(Port::Local) == w0.port_map(x, y, incoming, local is Some).local);
            assert forall|l: Link| #[trigger]
                self.input_open(l) == (w0.input_open(l) && !(incoming && exists|p: Port|
                    w0.takes(x, y, p, true) && incoming_link(x, y, p) == Some(l))) by {
                if incoming && exists|p: Port| w0.takes(x, y, p, true) && incoming_link(x, y, p) == Some(l) {
                    let p = choose|p: Port| w0.takes(x, y, p, true) && incoming_link(x, y, p) == Some(l);
                    assert(p != Port::Local);
                }
            }
            assert forall|l: Link| #[trigger]
                self.output_open(l) == (w0.output_open(l) && !(!incoming && exists|p: Port|
                    w0.takes(x, y, p, false) && outgoing_link(x, y, p) == Some(l))) by {
                if !incoming && exists|p: Port| w0.takes(x, y, p, false) && outgoing_link(x, y, p) == Some(l) {
                    let p = choose|p: Port| w0.takes(x, y, p, false) && outgoing_link(x, y, p) == Some(l);
                    assert(p != Port::Local);
                }
            }
        }
        map
    }

    /// Wires the router at `(x, y)`: it takes the untaken channels of the
    /// links that arrive at it and leave it, and, when its tile sends
    /// (`local_in`) or receives (`local_out`) packets, the links to and from
    /// its tile, which some connection must cross.
    pub fn claim_router(&mut self, x: usize, y: usize, local_in: bool, local_out: bool) -> (r: Result<
        RouterPorts,
        WiringError,
    >)
        requires
            old(self).wf(),
        ensures
            final(self).wf(),
            forall|m: Link| #[trigger] final(self).count_of(m) == old(self).count_of(m),
            forall|m: Link| #[trigger] final(self).has_channel(m) == old(self).has_channel(m),
            r is Ok <==> !(local_in && old(self).count_of(from_local_link(x, y)) == 0) && !(local_out
                && old(self).count_of(to_local_link(x, y)) == 0),
            r matches Err(e) ==> *final(self) == *old(self) && e == (if local_in && old(self).count_of(
                from_local_link(x, y),
            ) == 0 {
                WiringError::NoTrafficFromTile
            } else {
                WiringError::NoTrafficToTile
            }),
            r matches Ok(ports) ==> {
                &&& ports == old(self).ports_for(x, y, local_in, local_out)
                &&& forall|m: Link| #[trigger]
                    final(self).input_open(m) == (old(self).input_open(m) && !(exists|p: Port|
                        old(self).takes(x, y, p, true) && incoming_link(x, y, p) == Some(m)))
                &&& forall|m: Link| #[trigger]
                    final(self).output_open(m) == (old(self).output_open(m) && !(exists|p: Port|
                        old(self).takes(x, y, p, false) && outgoing_link(x, y, p) == Some(m)))
                &&& forall|p: Port| !#[trigger] final(self).takes(x, y, p, true) && !final(self).takes(x, y, p, false)
            },
    {
        let from_tile = self.usage.count(
            &Link {
                from_x: x,
                from_y: y,
                from_side: Side::FromLocal,
                to_x: x,
                to_y: y,
                to_side: Side::FromLocal,
            },
        );
        let to_tile = self.usage.count(
            &Link {
                from_x: x,
                from_y: y,
                from_side: Side::ToLocal,
                to_x: x,
                to_y: y,
                to_side: Side::ToLocal,
            },
        );
        if local_in && from_tile == 0 {
            return Err(WiringError::NoTrafficFromTile);
        }
        if local_out && to_tile == 0 {
            return Err(WiringError::NoTrafficToTile);
        }
        let ghost w0 = *self;
        let inputs = self.claim_side(
            x,
            y,
            true,
            if local_in {
                Some(from_tile)
            } else {
                None
            },
        );
        let ghost w1 = *self;
        let outputs = self.claim_side(
            x,
            y,
            false,
            if local_out {
                Some(to_tile)
            } else {
                None
            },
        );
        proof {
            assert forall|p: Port| #[trigger] w1.takes(x, y, p, false) == w0.takes(x, y, p, false) by {}
            assert(w1.port_map(x, y, false, local_out) == w0.port_map(x, y, false, local_out));
            assert forall|p: Port| !#[trigger] self.takes(x, y, p, true) && !self.takes(x, y, p, false) by {
                if let Some(m) = incoming_link(x, y, p) {
                    if w0.takes(x, y, p, true) {
                        assert(!self.input_open(m));
                    } else {
                        assert(!w0.input_open(m));
                        assert(!self.input_open(m));
                    }
                }
                if let Some(m) = outgoing_link(x, y, p) {
                    if w0.takes(x, y, p, false) {
                        assert(!self.output_open(m));
                    } else {
                        assert(!w0.output_open(m));
                        assert(!self.output_open(m));
                    }
                }
            }
        }
        Ok(RouterPorts { inputs, outputs })
    }
}

/// Whether `v` holds tile `t`.
fn holds_tile(v: &Vec<(usize, usize)>, t: (usize, usize)) -> (b: bool)
    ensures
        b == v@.contains(t),
{
    let mut k: usize = 0;
    while k < v.len()
        invariant
            k <= v@.len(),
            forall|i: int| 0 <= i < k ==> v@[i] != t,
        decreases v@.len() - k,
    {
        if v[k].0 == t.0 && v[k].1 == t.1 {
            proof {
                assert(v@[k as int] == t);
            }
            return true;
        }
        k = k + 1;
    }
    false
}

/// Adds `t` to `v` unless it is already there.
fn add_tile(v: &mut Vec<(usize, usize)>, t: (usize, usize))
    requires
        old(v)@.no_duplicates(),
    ensures
        final(v)@.no_duplicates(),
        forall|u: (usize, usize)| #[trigger] final(v)@.contains(u) <==> old(v)@.contains(u) || u == t,
{
    if !holds_tile(v, t) {
        let ghost before = v@;
        v.push(t);
        proof {
            assert forall|a: int, b: int| 0 <= a < v@.len() && 0 <= b < v@.len() && a != b implies v@[a]
                != v@[b] by {
                if a < before.len() && b < before.len() {
                    assert(v@[a] == before[a] && v@[b] == before[b]);
                } else if a < before.len() {
                    assert(v@[a] == before[a]);
                    assert(before.contains(v@[a]));
                } else {
                    assert(v@[b] == before[b]);
                    assert(before.contains(v@[b]));
                }
            }
            assert forall|u: (usize, usize)| #[trigger] v@.contains(u) <==> before.contains(u) || u == t by {
                if v@.contains(u) {
                    let i = choose|i: int| 0 <= i < v@.len() && v@[i] == u;
                    if i < before.len() {
                        assert(before[i] == u);
                    }
                }
                if before.contains(u) {
                    let i = choose|i: int| 0 <= i < before.len() && before[i] == u;
                    assert(v@[i] == u);
                }
                if u == t {
                    assert(v@[before.len() as int] == t);
                }
            }
        }
    }
}

impl Wiring {
    /// Whether some link between routers that a connection crosses starts or
    /// ends at router `r`.
    pub open spec fn router_in_use(self, r: (usize, usize)) -> bool {
        exists|l: Link|
            #![trigger self.has_channel(l)]
            self.has_channel(l) && ((l.from_x, l.from_y) == r || (l.to_x, l.to_y) == r)
    }

    /// The routers that some link between routers, crossed by a connection,
    /// starts or ends at; each once.
    pub fn routers_in_use(&self) -> (v: Vec<(usize, usize)>)
        requires
            self.wf(),
        ensures
            v@.no_duplicates(),
            forall|r: (usize, usize)| #[trigger] v@.contains(r) <==> self.router_in_use(r),
    {
        let mut v: Vec<(usize, usize)> = Vec::new();
        let mut k: usize = 0;
        while k < self.links.len()
            invariant
                k <= self.links@.len(),
                v@.no_duplicates(),
                forall|r: (usize, usize)| #[trigger]
                    v@.contains(r) <==> exists|i: int|
                        0 <= i < k && ((self.links@[i].from_x, self.links@[i].from_y) == r || (
                        self.links@[i].to_x, self.links@[i].to_y) == r),
            decreases self.links@.len() - k,
        {
            let l = self.links[k];
            add_tile(&mut v, (l.from_x, l.from_y));
            add_tile(&mut v, (l.to_x, l.to_y));
            proof {
                assert forall|r: (usize, usize)| #[trigger]
                    v@.contains(r) <==> exists|i: int|
                        0 <= i < k + 1 && ((self.links@[i].from_x, self.links@[i].from_y) == r || (
                        self.links@[i].to_x, self.links@[i].to_y) == r) by {
                    if exists|i: int|
                        0 <= i < k + 1 && ((self.links@[i].from_x, self.links@[i].from_y) == r || (
                        self.links@[i].to_x, self.links@[i].to_y) == r) {
                        let i = choose|i: int|
                            0 <= i < k + 1 && ((self.links@[i].from_x, self.links@[i].from_y) == r || (
                            self.links@[i].to_x, self.links@[i].to_y) == r);
                        if i < k {
                            assert(exists|j: int|
                                0 <= j < k && ((self.links@[j].from_x, self.links@[j].from_y) == r || (
                                self.links@[j].to_x, self.links@[j].to_y) == r));
                        }
                    }
                }
            }
            k = k + 1;
        }
        proof {
            assert forall|r: (usize, usize)| #[trigger] v@.contains(r) <==> self.router_in_use(r) by {
                if v@.contains(r) {
                    let i = choose|i: int|
                        0 <= i < self.links@.len() && ((self.links@[i].from_x, self.links@[i].from_y) == r
                            || (self.links@[i].to_x, self.links@[i].to_y) == r);
                    assert(self.has_channel(self.links@[i]));
                }
                if self.router_in_use(r) {
                    let l = choose|l: Link|
                        #![trigger self.has_channel(l)]
                        self.has_channel(l) && ((l.from_x, l.from_y) == r || (l.to_x, l.to_y) == r);
                    let i = choose|i: int| 0 <= i < self.links@.len() && self.links@[i] == l;
                    assert(0 <= i < self.links@.len() && ((self.links@[i].from_x, self.links@[i].from_y)
                        == r || (self.links@[i].to_x, self.links@[i].to_y) == r));
                }
            }
        }
        v
    }

    /// The routers in use that no compute or memory tile of `tiles` sits at:
    /// they only pass packets on.
    pub fn extra_routers(&self, tiles: &Vec<(usize, usize)>) -> (v: Vec<(usize, usize)>)
        requires
            self.wf(),
        ensures
            v@.no_duplicates(),
            forall|r: (usize, usize)| #[trigger]
                v@.contains(r) <==> self.router_in_use(r) && !tiles@.contains(r),
    {
        let all = self.routers_in_use();
        let mut v: Vec<(usize, usize)> = Vec::new();
        let mut k: usize = 0;
        while k < all.len()
            invariant
                k <= all@.len(),
                all@.no_duplicates(),
                v@.no_duplicates(),
                forall|r: (usize, usize)| #[trigger]
                    v@.contains(r) <==> exists|i: int| 0 <= i < k && all@[i] == r && !tiles@.contains(r),
            decreases all@.len() - k,
        {
            let r = all[k];
            if !holds_tile(tiles, r) {
                add_tile(&mut v, r);
            }
            proof {
                assert forall|u: (usize, usize)| #[trigger]
                    v@.contains(u) <==> exists|i: int| 0 <= i < k + 1 && all@[i] == u && !tiles@.contains(u) by {
                    if exists|i: int| 0 <= i < k + 1 && all@[i] == u && !tiles@.contains(u) {
                        let i = choose|i: int| 0 <= i < k + 1 && all@[i] == u && !tiles@.contains(u);
                        if i < k {
                            assert(exists|j: int| 0 <= j < k && all@[j] == u && !tiles@.contains(u));
                        }
                    }
                }
            }
            k = k + 1;
        }
        proof {
            assert forall|r: (usize, usize)| #[trigger]
                v@.contains(r) <==> self.router_in_use(r) && !tiles@.contains(r) by {
                if v@.contains(r) {
                    let i = choose|i: int| 0 <= i < k && all@[i] == r && !tiles@.contains(r);
                    assert(all@.contains(r));
                }
                if self.router_in_use(r) && !tiles@.contains(r) {
                    assert(all@.contains(r));
                    let i = choose|i: int| 0 <= i < all@.len() && all@[i] == r;
                    assert(exists|j: int| 0 <= j < all@.len() && all@[j] == r && !tiles@.contains(r));
                }
            }
        }
        v
    }
}

/// 1 for a wired port, 0 for one that is not.
pub open spec fn wired(e: Option<PortEntry>) -> nat {
    if e is Some {
        1
    } else {
        0
    }
}

/// How many ports of `m` before `p` in the order north, south, east, west,
/// local are wired.
pub open spec fn wired_before(m: PortMap, p: Port) -> nat {
    let n = wired(m.north);
    let s = wired(m.south);
    let e = wired(m.east);
    let w = wired(m.west);
    if p == Port::North {
        0
    } else if p == Port::South {
        n
    } else if p == Port::East {
        n + s
    } else if p == Port::West {
        n + s + e
    } else {
        n + s + e + w
    }
}

/// Whether the wired ports of `m` are numbered 0, 1, 2, ... in the order
/// north, south, east, west, local, and no two of them share a stream.
pub open spec fn numbered_in_order(m: PortMap) -> bool {
    &&& forall|p: Port| #[trigger] m.at(p) is Some ==> m.at(p).unwrap().stream == wired_before(m, p)
    &&& forall|p: Port, q: Port|
        p != q && #[trigger] m.at(p) is Some && #[trigger] m.at(q) is Some ==> m.at(p).unwrap().stream
            != m.at(q).unwrap().stream
}

/// The port table that a router gets numbers its wired ports of each
/// direction 0, 1, 2, ... in the order north, south, east, west, local:
/// each wired port's stream is the number of wired ports before it, so no
/// two ports share a channel.
pub proof fn lemma_ports_numbered(w: Wiring, x: usize, y: usize, local_in: bool, local_out: bool)
    ensures
        numbered_in_order(w.ports_for(x, y, local_in, local_out).inputs),
        numbered_in_order(w.ports_for(x, y, local_in, local_out).outputs),
{
    lemma_port_map_numbered(w, x, y, true, local_in);
    lemma_port_map_numbered(w, x, y, false, local_out);
}

proof fn lemma_port_map_numbered(w: Wiring, x: usize, y: usize, incoming: bool, local: bool)
    ensures
        numbered_in_order(w.port_map(x, y, incoming, local)),
{
    let m = w.port_map(x, y, incoming, local);
    assert forall|p: Port| #[trigger] m.at(p) is Some implies m.at(p).unwrap().stream == wired_before(m, p) by {
        assert(w.rank(x, y, p, incoming) <= 4);
    }
    assert forall|p: Port, q: Port|
        p != q && #[trigger] m.at(p) is Some && #[trigger] m.at(q) is Some implies m.at(p).unwrap().stream
            != m.at(q).unwrap().stream by {
        assert(w.rank(x, y, p, incoming) <= 4);
        assert(w.rank(x, y, q, incoming) <= 4);
    }
}

} // verus!
