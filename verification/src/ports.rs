//! Port tables of a mesh router: which of its five input and five output
//! ports are wired, to which stream each one is attached, and how many
//! packets per input item the port carries.
//!
//! A router's configuration names its ports `N_in`, `S_in`, `E_in`, `W_in`,
//! `L_in` and `N_out`, `S_out`, `E_out`, `W_out`, `L_out`; every named port maps
//! to a pair `(stream index, packets per item)`.
use crate::mesh::Port;
use vstd::prelude::*;

verus! {

/// What a wired port is attached to.
#[derive(Clone, Copy, Debug, PartialEq, Eq, Structural)]
pub struct PortEntry {
    /// Position of the port's stream in the router's list of input (or
    /// output) streams.
    pub stream: usize,
    /// Number of packets the port carries for every item of the workload.
    pub per_item: usize,
}

/// An entry for each of the five ports of one direction; `None` marks a port
/// that is not wired.
#[derive(Clone, Copy, Debug, PartialEq, Eq, Structural)]
pub struct PortMap {
    pub north: Option<PortEntry>,
    pub south: Option<PortEntry>,
    pub east: Option<PortEntry>,
    pub west: Option<PortEntry>,
    pub local: Option<PortEntry>,
}

impl PortMap {
    /// The entry of a port.
    pub open spec fn at(self, p: Port) -> Option<PortEntry> {
        match p {
            Port::North => self.north,
            Port::South => self.south,
            Port::East => self.east,
            Port::West => self.west,
            Port::Local => self.local,
        }
    }

    /// A map in which no port is wired.
    pub fn empty() -> (m: PortMap)
        ensures
            forall|p: Port| m.at(p) is None,
    {
        PortMap { north: None, south: None, east: None, west: None, local: None }
    }

    /// The entry of port `p`.
    pub fn get(&self, p: Port) -> (e: Option<PortEntry>)
        ensures
            e == self.at(p),
    {
        match p {
            Port::North => self.north,
            Port::South => self.south,
            Port::East => self.east,
            Port::West => self.west,
            Port::Local => self.local,
        }
    }

    /// Wires (or rewires) one port and leaves the others as they were.
    pub fn set(&mut self, p: Port, e: PortEntry)
        ensures
            final(self).at(p) == Some(e),
            forall|q: Port| q != p ==> final(self).at(q) == old(self).at(q),
    {
        match p {
            Port::North => {
                self.north = Some(e);
            },
            Port::South => {
                self.south = Some(e);
            },
            Port::East => {
                self.east = Some(e);
            },
            Port::West => {
                self.west = Some(e);
            },
            Port::Local => {
                self.local = Some(e);
            },
        }
    }
}

/// Whether a configuration key names an input or an output port.
#[derive(Clone, Copy, Debug, PartialEq, Eq, Structural)]
pub enum Flow {
    In,
    Out,
}

/// The letter that a port's configuration key begins with.
pub open spec fn port_letter(p: Port) -> char {
    match p {
        Port::North => 'N',
        Port::South => 'S',
        Port::East => 'E',
        Port::West => 'W',
        Port::Local => 'L',
    }
}

/// The configuration key of a port: `N_in`, `S_out`, and so on.
pub open spec fn port_key(p: Port, f: Flow) -> Seq<char> {
    match f {
        Flow::In => seq![port_letter(p), '_', 'i', 'n'],
        Flow::Out => seq![port_letter(p), '_', 'o', 'u', 't'],
    }
}

/// The port whose key begins with letter `c`, if any.
fn port_of_letter(c: char) -> (p: Option<Port>)
    ensures
        p matches Some(q) ==> port_letter(q) == c,
        p is None ==> forall|q: Port| port_letter(q) != c,
{
    if c == 'N' {
        Some(Port::North)
    } else if c == 'S' {
        Some(Port::South)
    } else if c == 'E' {
        Some(Port::East)
    } else if c == 'W' {
        Some(Port::West)
    } else if c == 'L' {
        Some(Port::Local)
    } else {
        None
    }
}

/// The port and direction that a configuration key names; `None` for any
/// other key.
pub fn parse_port_key(key: &str) -> (r: Option<(Port, Flow)>)
    ensures
        r matches Some((p, f)) ==> key@ == port_key(p, f),
        r is None ==> forall|p: Port, f: Flow| key@ != port_key(p, f),
{
    let n = key.unicode_len();
    if n != 4 && n != 5 {
        proof {
            assert forall|p: Port, f: Flow| key@ != port_key(p, f) by {
                if key@ == port_key(p, f) {
                    assert(key@.len() == port_key(p, f).len());
                }
            }
        }
        return None;
    }
    let c0 = key.get_char(0);
    let c1 = key.get_char(1);
    let c2 = key.get_char(2);
    let c3 = key.get_char(3);
    let letter = port_of_letter(c0);
    let port = match letter {
        Some(p) => p,
        None => {
            proof {
                assert forall|p: Port, f: Flow| key@ != port_key(p, f) by {
                    if key@ == port_key(p, f) {
                        assert(key@[0] == port_letter(p));
                    }
                }
            }
            return None;
        },
    };
    if n == 4 && c1 == '_' && c2 == 'i' && c3 == 'n' {
        proof {
            assert(key@ =~= port_key(port, Flow::In));
        }
        Some((port, Flow::In))
    } else if n == 5 && c1 == '_' && c2 == 'o' && c3 == 'u' && key.get_char(4) == 't' {
        proof {
            assert(key@ =~= port_key(port, Flow::Out));
        }
        Some((port, Flow::Out))
    } else {
        proof {
            assert forall|p: Port, f: Flow| key@ != port_key(p, f) by {
                if key@ == port_key(p, f) {
                    assert(key@[0] == port_letter(p));
                    assert(key@[1] == '_');
                    assert(key@[2] == port_key(p, f)[2]);
                    assert(key@[3] == port_key(p, f)[3]);
                    if f == Flow::Out {
                        assert(key@[4] == 't');
                    }
                }
            }
        }
        None
    }
}

/// The input and output port tables of one router.
#[derive(Clone, Copy, Debug, PartialEq, Eq, Structural)]
pub struct RouterPorts {
    pub inputs: PortMap,
    pub outputs: PortMap,
}

impl RouterPorts {
    /// A router with no port wired.
    pub fn new() -> (r: RouterPorts)
        ensures
            forall|p: Port| r.inputs.at(p) is None && r.outputs.at(p) is None,
    {
        RouterPorts { inputs: PortMap::empty(), outputs: PortMap::empty() }
    }

    /// Records one configuration entry `key -> (stream, per_item)`; a key that
    /// names no port is ignored.  Returns whether the key named a port.
    pub fn assign(&mut self, key: &str, stream: usize, per_item: usize) -> (named: bool)
        ensures
            named == exists|p: Port, f: Flow| key@ == port_key(p, f),
            forall|p: Port|
                {
                    &&& final(self).inputs.at(p) == (if key@ == port_key(p, Flow::In) {
                        Some(PortEntry { stream, per_item })
                    } else {
                        old(self).inputs.at(p)
                    })
                    &&& final(self).outputs.at(p) == (if key@ == port_key(p, Flow::Out) {
                        Some(PortEntry { stream, per_item })
                    } else {
                        old(self).outputs.at(p)
                    })
                },
    {
        match parse_port_key(key) {
            Some((p, f)) => {
                proof {
                    lemma_port_key_injective(p, f);
                }
                match f {
                    Flow::In => self.inputs.set(p, PortEntry { stream, per_item }),
                    Flow::Out => self.outputs.set(p, PortEntry { stream, per_item }),
                }
                true
            },
            None => false,
        }
    }
}

impl RouterPorts {
    /// Records an entry of the input table `key -> (stream, per_item)`: a key
    /// that names an input port (`N_in`, ..., `L_in`) wires that port; any
    /// other key is ignored.  Returns whether the key named an input port.
    pub fn assign_input(&mut self, key: &str, stream: usize, per_item: usize) -> (named: bool)
        ensures
            named == exists|p: Port| key@ == port_key(p, Flow::In),
            final(self).outputs == old(self).outputs,
            forall|p: Port|
                #[trigger] final(self).inputs.at(p) == (if key@ == port_key(p, Flow::In) {
                    Some(PortEntry { stream, per_item })
                } else {
                    old(self).inputs.at(p)
                }),
    {
        match parse_port_key(key) {
            Some((p, Flow::In)) => {
                proof {
                    lemma_port_key_injective(p, Flow::In);
                }
                self.inputs.set(p, PortEntry { stream, per_item });
                true
            },
            _ => {
                proof {
                    assert forall|q: Port| key@ != port_key(q, Flow::In) by {
                        if key@ == port_key(q, Flow::In) {
                            lemma_port_key_injective(q, Flow::In);
                        }
                    }
                }
                false
            },
        }
    }

    /// Records an entry of the output table `key -> (stream, per_item)`: a
    /// key that names an output port (`N_out`, ..., `L_out`) wires that port;
    /// any other key is ignored.  Returns whether the key named an output port.
    pub fn assign_output(&mut self, key: &str, stream: usize, per_item: usize) -> (named: bool)
        ensures
            named == exists|p: Port| key@ == port_key(p, Flow::Out),
            final(self).inputs == old(self).inputs,
            forall|p: Port|
                #[trigger] final(self).outputs.at(p) == (if key@ == port_key(p, Flow::Out) {
                    Some(PortEntry { stream, per_item })
                } else {
                    old(self).outputs.at(p)
                }),
    {
        match parse_port_key(key) {
            Some((p, Flow::Out)) => {
                proof {
                    lemma_port_key_injective(p, Flow::Out);
                }
                self.outputs.set(p, PortEntry { stream, per_item });
                true
            },
            _ => {
                proof {
                    assert forall|q: Port| key@ != port_key(q, Flow::Out) by {
                        if key@ == port_key(q, Flow::Out) {
                            lemma_port_key_injective(q, Flow::Out);
                        }
                    }
                }
                false
            },
        }
    }
}

/// Different ports, or different directions, have different keys.
pub proof fn lemma_port_key_injective(p: Port, f: Flow)
    ensures
        forall|q: Port, g: Flow| port_key(q, g) == port_key(p, f) ==> q == p && g == f,
{
    assert forall|q: Port, g: Flow| port_key(q, g) == port_key(p, f) implies q == p && g == f by {
        assert(port_key(q, g)[0] == port_key(p, f)[0]);
        assert(port_key(q, g).len() == port_key(p, f).len());
    }
}

} // verus!
