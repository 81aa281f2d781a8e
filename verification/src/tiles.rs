//! How a compute or memory tile is hooked up: whether it is fed by the
//! workload generator, drained into a sink, or sits between other tiles, and
//! to which tile addresses its outgoing connections lead.
use crate::links::{Connection, TileKind};
use crate::mesh::spec_address;
use vstd::prelude::*;

verus! {

/// The mark that a tile's list of connections uses for "no connection".
pub const NO_CONNECTION: usize = 999999;

/// The place of a tile in the dataflow.
#[derive(Clone, Copy, Debug, PartialEq, Eq, Structural)]
pub enum TileRole {
    /// Receives from no connection: the workload generator feeds it.
    Source,
    /// Sends on no connection: a sink drains it.
    Sink,
    /// Receives from and sends on connections.
    Relay,
}

/// Why a tile cannot be hooked up.
#[derive(Clone, Copy, Debug, PartialEq, Eq, Structural)]
pub enum TileError {
    /// A list of connections that must name at least one entry is empty.
    EmptyList,
    /// A connection number names no connection of the configuration.
    UnknownConnection { id: usize },
    /// A connection that the tile sends on does not start at the tile.
    ForeignConnection { id: usize },
    /// A destination address does not fit in a machine word.
    AddressOverflow { id: usize },
}

/// The role of a tile with outgoing connections `senders` and incoming
/// connections `receivers`: a tile whose first incoming entry is
/// [`NO_CONNECTION`] is a source, otherwise one whose first outgoing entry is
/// [`NO_CONNECTION`] is a sink, otherwise a relay.
pub fn tile_role(senders: &Vec<usize>, receivers: &Vec<usize>) -> (r: Result<TileRole, TileError>)
    ensures
        r == (if receivers@.len() == 0 {
            Err(TileError::EmptyList)
        } else if receivers@[0] == NO_CONNECTION {
            Ok(TileRole::Source)
        } else if senders@.len() == 0 {
            Err(TileError::EmptyList)
        } else if senders@[0] == NO_CONNECTION {
            Ok(TileRole::Sink)
        } else {
            Ok(TileRole::Relay)
        }),
{
    if receivers.len() == 0 {
        Err(TileError::EmptyList)
    } else if receivers[0] == NO_CONNECTION {
        Ok(TileRole::Source)
    } else if senders.len() == 0 {
        Err(TileError::EmptyList)
    } else if senders[0] == NO_CONNECTION {
        Ok(TileRole::Sink)
    } else {
        Ok(TileRole::Relay)
    }
}

/// What connection `id` gives a tile of kind `kind` at `(x, y)` that sends on
/// it: the address of the connection's destination tile, or why it cannot.
pub open spec fn destination(
    conns: Seq<Connection>,
    id: usize,
    kind: TileKind,
    x: usize,
    y: usize,
    y_dim: usize,
) -> Result<usize, TileError> {
    if id >= conns.len() {
        Err(TileError::UnknownConnection { id })
    } else {
        let c = conns[id as int];
        if !(c.from_kind == kind && c.from_x == x && c.from_y == y) {
            Err(TileError::ForeignConnection { id })
        } else if spec_address(c.to_x as nat, c.to_y as nat, y_dim as nat) > usize::MAX {
            Err(TileError::AddressOverflow { id })
        } else {
            Ok(spec_address(c.to_x as nat, c.to_y as nat, y_dim as nat) as usize)
        }
    }
}

/// The destination addresses of the connections `senders` that a tile of
/// kind `kind` at `(x, y)` sends on, in order; the first connection that
/// gives no address gives the error.
pub fn tile_destinations(
    conns: &Vec<Connection>,
    senders: &Vec<usize>,
    kind: TileKind,
    x: usize,
    y: usize,
    y_dim: usize,
) -> (r: Result<Vec<usize>, TileError>)
    ensures
        r matches Ok(v) ==> v@.len() == senders@.len() && forall|i: int|
            0 <= i < senders@.len() ==> destination(conns@, senders@[i], kind, x, y, y_dim) == Ok::<
                usize,
                TileError,
            >(#[trigger] v@[i]),
        r matches Err(e) ==> exists|i: int|
            0 <= i < senders@.len() && destination(conns@, #[trigger] senders@[i], kind, x, y, y_dim)
                == Err::<usize, TileError>(e) && forall|j: int|
                0 <= j < i ==> destination(conns@, senders@[j], kind, x, y, y_dim) is Ok,
{
    let mut v: Vec<usize> = Vec::new();
    let mut i: usize = 0;
    while i < senders.len()
        invariant
            i <= senders@.len(),
            v@.len() == i,
            forall|j: int|
                0 <= j < i ==> destination(conns@, senders@[j], kind, x, y, y_dim) == Ok::<
                    usize,
                    TileError,
                >(#[trigger] v@[j]),
        decreases senders@.len() - i,
    {
        let id = senders[i];
        proof {
            assert forall|j: int| 0 <= j < i implies destination(conns@, senders@[j], kind, x, y, y_dim) is Ok by {
                assert(destination(conns@, senders@[j], kind, x, y, y_dim) == Ok::<usize, TileError>(v@[j]));
            }
            assert(senders@[i as int] == id);
        }
        if id >= conns.len() {
            return Err(TileError::UnknownConnection { id });
        }
        let c = conns[id];
        if !(c.from_kind == kind && c.from_x == x && c.from_y == y) {
            return Err(TileError::ForeignConnection { id });
        }
        let a = match c.to_x.checked_mul(y_dim) {
            Some(p) => p.checked_add(c.to_y),
            None => None,
        };
        match a {
            Some(addr) => {
                v.push(addr);
            },
            None => {
                proof {
                    if c.to_x * y_dim <= usize::MAX {
                        assert(c.to_x * y_dim + c.to_y > usize::MAX);
                    } else {
                        assert(c.to_x * y_dim + c.to_y > usize::MAX) by (nonlinear_arith)
                            requires
                                c.to_x * y_dim > usize::MAX,
                                c.to_y >= 0,
                        ;
                    }
                }
                return Err(TileError::AddressOverflow { id });
            },
        }
        i = i + 1;
    }
    Ok(v)
}

} // verus!
