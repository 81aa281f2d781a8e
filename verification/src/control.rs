//! The exchange between a simulated hardware unit and the simulator that runs
//! it.  A unit never touches channels or the clock itself: it asks for one
//! operation at a time (an [`Action`]) and is told how it went (an
//! [`Event`]).  The simulator performs each action on the unit's channels and
//! clock and answers with the matching event.
use vstd::prelude::*;

verus! {

/// What a look at the head of an input channel shows.
#[derive(Clone, Copy, Debug, PartialEq, Eq, Structural)]
pub enum Peek {
    /// A packet carrying `data`, stamped with time `time`.
    Data { time: u64, data: usize },
    /// No packet yet; the channel is known to stay empty up to time `time`.
    Empty { time: u64 },
    /// The channel is closed for good.
    Closed,
}

/// The answer to the last action.
#[derive(Clone, Copy, Debug, PartialEq, Eq, Structural)]
pub enum Event {
    /// The unit has just been started.
    Start,
    /// The answer to [`Action::Dequeue`]: the packet's data, or `None` when the
    /// channel was closed.
    Received { data: Option<usize> },
    /// The answer to [`Action::Peek`].
    Peeked { peek: Peek },
    /// The answer to [`Action::Tick`]: the unit's current time.
    Now { time: u64 },
    /// The answer to any other action: it was carried out.
    Done,
}

/// Why a unit stopped; each is a failure of the simulation.
#[derive(Clone, Copy, Debug, PartialEq, Eq, Structural)]
pub enum Fault {
    /// A packet was needed from an input channel that is closed.
    InputClosed,
    /// A packet was needed from the first input, but the unit has no input.
    NoInput,
    /// A time stamp went past the largest representable time.
    TimeOverflow,
    /// A packet count went past the largest representable number.
    CountOverflow,
    /// A packet has to leave by a port that is not wired.
    NoOutputPort,
    /// The packet taken from a channel is not the one that was seen at its head.
    DataMismatch,
    /// A packet arrived, but the mesh has no columns to decode its address with.
    NoColumns,
    /// A packet was to be stamped before the unit read its clock.
    NoTime,
    /// The event does not answer the action that the unit asked for.
    UnexpectedEvent,
}

/// The next operation a unit asks for.
#[derive(Clone, Copy, Debug, PartialEq, Eq, Structural)]
pub enum Action {
    /// Take the packet at the head of input channel `input`.
    Dequeue { input: usize },
    /// Look at the head of input channel `input` without taking it.
    Peek { input: usize },
    /// Tell the unit its current time.
    Tick,
    /// Put a packet carrying `data`, stamped `time`, on output channel `output`.
    Enqueue { output: usize, time: u64, data: usize },
    /// Let `cycles` cycles pass on the unit's clock.
    IncrCycles { cycles: u64 },
    /// Move the unit's clock forward to time `time`.
    AdvanceTo { time: u64 },
    /// Nothing for the simulator to do; ask again.
    Idle,
    /// The unit has finished its work.
    Finish,
    /// The unit cannot go on.
    Fail { fault: Fault },
}

} // verus!
