//! The router of a mesh network-on-chip.
//!
//! In every round the router looks at the head of each of its open input
//! channels and serves the input whose next packet is due first (the first
//! such input in the order north, south, east, west, local).  When that input
//! has no packet yet, the router's clock moves forward to the time the packet
//! can arrive.  Otherwise the router takes the packet and sends it on by the
//! port that dimension-order routing chooses for the packet's destination,
//! one cycle later.  The router is done when every wired input has received,
//! and every wired output has sent, its share of packets for the whole
//! workload: `per_item * num_input` packets.
use crate::control::{Action, Event, Fault, Peek};
use crate::mesh::{route_address, spec_route, Port, NUM_PORTS};
use crate::ports::{PortEntry, RouterPorts};
use vstd::prelude::*;

verus! {

/// Where the router stands in its round: the answer it waits for.
#[derive(Clone, Copy, Debug, PartialEq, Eq, Structural)]
pub enum Stage {
    /// Not started yet.
    Fresh,
    /// Waits for the look at the head of input `port`.
    AwaitPeek { port: usize },
    /// Waits for its clock to move forward.
    AwaitAdvance,
    /// Waits for the packet `data` from input `port`.
    AwaitPacket { port: usize, data: usize },
    /// Waits for its current time, to stamp packet `data` from input `port`
    /// that leaves by port `out`.
    AwaitTime { port: usize, out: Port, data: usize },
    /// Waits until the packet from input `port` has been put on output `out`.
    AwaitSent { port: usize, out: Port },
    /// Had nothing to do this round; waits to be asked again.
    Idling,
    /// Waits for its clock to account for the busiest input.
    Finishing,
    /// Has finished.
    Finished,
    /// Has stopped on a fault.
    Failed { fault: Fault },
}

/// The state of a mesh router.
pub struct RouterModel {
    /// The router's port tables.
    pub ports: RouterPorts,
    /// Row and column of the router.
    pub x: usize,
    pub y: usize,
    /// Number of columns of the mesh.
    pub y_dim: usize,
    /// Whether packets for the router's own tile are dropped instead of sent.
    pub skip_local: bool,
    /// For each input port, the number of packets it has to receive; `None`
    /// when that number does not fit in a machine word.
    pub in_goal: Seq<Option<usize>>,
    /// For each output port, the number of packets it has to send.
    pub out_goal: Seq<Option<usize>>,
    /// Which inputs are closed (or not wired).
    pub closed: Seq<bool>,
    /// Packets taken from each input so far.
    pub received: Seq<usize>,
    /// Packets put on each output so far.
    pub sent: Seq<usize>,
    /// Packets from each input that have been dealt with.
    pub scoreboard: Seq<u64>,
    /// Packets for the router's own tile that it has dropped.
    pub dropped: nat,
    /// The addresses of every packet taken, in the order taken.
    pub taken: Seq<usize>,
    /// Every packet taken and not dropped, in the order taken, with the
    /// port that routing chose for it.
    pub forwarded: Seq<(Port, usize)>,
    /// Every packet put on an output, in the order put, with its port.
    pub put: Seq<(Port, usize)>,
    /// The largest count of the scoreboard over the north, south, east and
    /// west inputs.
    pub max_v: u64,
    /// What this round's looks at the inputs showed so far.
    pub seen: Seq<Peek>,
    pub stage: Stage,
}

/// What a round knows about the inputs before it has looked at any.
pub open spec fn fresh_seen() -> Seq<Peek> {
    Seq::new(NUM_PORTS as nat, |k: int| Peek::Closed)
}

/// The port at position `i` of the scan order.
pub open spec fn port_at(i: int) -> Port {
    Port::spec_at(i as nat).unwrap()
}

/// The time from which the head of an input can be served: the stamp of a
/// packet, the cycle after the time up to which an empty input stays empty;
/// `u64::MAX` for a closed input.
pub open spec fn due_time(p: Peek) -> u64 {
    match p {
        Peek::Data { time, .. } => time,
        Peek::Empty { time } => if time < u64::MAX {
            (time + 1) as u64
        } else {
            u64::MAX
        },
        Peek::Closed => u64::MAX,
    }
}

/// `r` is the first position at `from` or later that is not closed.
pub open spec fn is_first_open(closed: Seq<bool>, from: int, r: Option<int>) -> bool {
    match r {
        Some(j) => from <= j < NUM_PORTS && !closed[j] && forall|k: int| from <= k < j ==> closed[k],
        None => forall|k: int| from <= k < NUM_PORTS ==> closed[k],
    }
}

/// The first position at `from` or later that is not closed.
pub open spec fn first_open(closed: Seq<bool>, from: int) -> Option<int> {
    choose|r: Option<int>| is_first_open(closed, from, r)
}

/// `r` is the first input whose head is due earliest, or `None` when no head
/// is due at a time below `u64::MAX`.
pub open spec fn is_earliest(seen: Seq<Peek>, r: Option<int>) -> bool {
    match r {
        Some(i) => {
            &&& 0 <= i < seen.len()
            &&& due_time(seen[i]) < u64::MAX
            &&& forall|j: int| 0 <= j < i ==> due_time(seen[j]) > due_time(seen[i])
            &&& forall|j: int| i < j < seen.len() ==> due_time(seen[j]) >= due_time(seen[i])
        },
        None => forall|j: int| 0 <= j < seen.len() ==> due_time(seen[j]) == u64::MAX,
    }
}

impl RouterModel {
    /// Whether input `i` is wired.
    pub open spec fn in_wired(self, i: int) -> bool {
        self.ports.inputs.at(port_at(i)) is Some
    }

    /// Whether output `i` is wired.
    pub open spec fn out_wired(self, i: int) -> bool {
        self.ports.outputs.at(port_at(i)) is Some
    }

    /// The stream number of input `i`.
    pub open spec fn in_stream(self, i: int) -> usize {
        self.ports.inputs.at(port_at(i)).unwrap().stream
    }

    /// `r` is the first input at `from` or later that is open.
    pub open spec fn is_next_open(self, from: int, r: Option<int>) -> bool {
        is_first_open(self.closed, from, r)
    }

    /// The same router, stopped on `fault`.
    pub open spec fn fail(self, fault: Fault) -> (RouterModel, Action) {
        (RouterModel { stage: Stage::Failed { fault }, ..self }, Action::Fail { fault })
    }

    /// Whether some wired port's packet count does not fit in a machine word.
    pub open spec fn goal_overflows(self) -> bool {
        exists|i: int|
            0 <= i < NUM_PORTS && ((self.in_wired(i) && self.in_goal[i] is None) || (self.out_wired(i)
                && self.out_goal[i] is None))
    }

    /// Whether input `i` (when wired) has received, and output `i` (when
    /// wired) has sent, exactly its share of packets.
    pub open spec fn port_done(self, i: int) -> bool {
        (self.in_wired(i) ==> self.in_goal[i] == Some(self.received[i])) && (self.out_wired(i)
            ==> self.out_goal[i] == Some(self.sent[i]))
    }

    /// Whether every wired input has received, and every wired output has
    /// sent, exactly its share of packets.
    pub open spec fn all_done(self) -> bool {
        forall|i: int| 0 <= i < NUM_PORTS ==> #[trigger] self.port_done(i)
    }

    /// The end of a round: stop when the work is done, otherwise go on with
    /// the next round; `busy` tells whether this round served an input.
    pub open spec fn end_round(self, busy: bool, next: Option<int>) -> (RouterModel, Action) {
        if self.goal_overflows() {
            self.fail(Fault::CountOverflow)
        } else if self.all_done() {
            (RouterModel { stage: Stage::Finishing, ..self }, Action::IncrCycles { cycles: self.max_v })
        } else if busy && next is Some {
            let j = next.unwrap();
            (
                RouterModel {
                    seen: fresh_seen(),
                    stage: Stage::AwaitPeek { port: j as usize },
                    ..self
                },
                Action::Peek { input: self.in_stream(j) },
            )
        } else {
            (
                RouterModel { seen: fresh_seen(), stage: Stage::Idling, ..self },
                Action::Idle,
            )
        }
    }

    /// What the router does once it has looked at all its open inputs.
    pub open spec fn serve(self, earliest: Option<int>) -> (RouterModel, Action) {
        match earliest {
            None => self.end_round(false, None),
            Some(i) => match self.seen[i] {
                Peek::Data { time, data } => if data == usize::MAX {
                    (RouterModel { stage: Stage::AwaitAdvance, ..self }, Action::AdvanceTo { time })
                } else {
                    (
                        RouterModel { stage: Stage::AwaitPacket { port: i as usize, data }, ..self },
                        Action::Dequeue { input: self.in_stream(i) },
                    )
                },
                _ => (
                    RouterModel { stage: Stage::AwaitAdvance, ..self },
                    Action::AdvanceTo { time: due_time(self.seen[i]) },
                ),
            },
        }
    }

    /// The scoreboard after input `port` has been dealt with once more.
    pub open spec fn score(self, port: int) -> (RouterModel, bool) {
        if self.scoreboard[port] == u64::MAX {
            (self, false)
        } else {
            let board = self.scoreboard.update(port, (self.scoreboard[port] + 1) as u64);
            (RouterModel { scoreboard: board, max_v: max4(board), ..self }, true)
        }
    }
}

/// The largest of the first four counts.
pub open spec fn max4(s: Seq<u64>) -> u64 {
    let a = if s[0] >= s[1] {
        s[0]
    } else {
        s[1]
    };
    let b = if a >= s[2] {
        a
    } else {
        s[2]
    };
    if b >= s[3] {
        b
    } else {
        s[3]
    }
}

impl RouterModel {
    /// The first open input at `from` or later.
    pub open spec fn next_open(self, from: int) -> Option<int> {
        first_open(self.closed, from)
    }

    /// The input whose head is due first this round.
    pub open spec fn earliest(self) -> Option<int> {
        choose|r: Option<int>| is_earliest(self.seen, r)
    }

    /// The start of a round: look at the first open input; with none open,
    /// the round is an idle one.
    pub open spec fn begin_round(self) -> (RouterModel, Action) {
        let m = RouterModel { seen: fresh_seen(), ..self };
        match m.next_open(0) {
            Some(j) => (
                RouterModel { stage: Stage::AwaitPeek { port: j as usize }, ..m },
                Action::Peek { input: m.in_stream(j) },
            ),
            None => m.end_round(false, None),
        }
    }

    /// What the router does with the look `peek` at the head of input `port`.
    pub open spec fn look(self, port: int, peek: Peek) -> (RouterModel, Action) {
        if peek is Data && self.y_dim == 0 {
            self.fail(Fault::NoColumns)
        } else if peek matches Peek::Empty { time } && time == u64::MAX {
            self.fail(Fault::TimeOverflow)
        } else {
            let m = RouterModel {
                seen: self.seen.update(port, peek),
                closed: if peek is Closed {
                    self.closed.update(port, true)
                } else {
                    self.closed
                },
                stage: Stage::Idling,
                ..self
            };
            match m.next_open(port + 1) {
                Some(j) => (
                    RouterModel { stage: Stage::AwaitPeek { port: j as usize }, ..m },
                    Action::Peek { input: m.in_stream(j) },
                ),
                None => m.serve(m.earliest()),
            }
        }
    }

    /// What the router does with the packet `got` taken from input `port`,
    /// whose head showed `data`.
    pub open spec fn take(self, port: int, data: usize, got: Option<usize>) -> (RouterModel, Action) {
        match got {
            None => self.fail(Fault::InputClosed),
            Some(d) => if d != data {
                self.fail(Fault::DataMismatch)
            } else if self.received[port] == usize::MAX {
                self.fail(Fault::CountOverflow)
            } else {
                let m = RouterModel {
                    received: self.received.update(port, (self.received[port] + 1) as usize),
                    taken: self.taken.push(data),
                    ..self
                };
                let out = spec_route(
                    (data / self.y_dim) as nat,
                    (data % self.y_dim) as nat,
                    self.x as nat,
                    self.y as nat,
                );
                if out == Port::Local && self.skip_local {
                    let (m2, ok) = RouterModel { dropped: m.dropped + 1, ..m }.score(port);
                    if ok {
                        m2.end_round(true, m2.next_open(0))
                    } else {
                        m2.fail(Fault::CountOverflow)
                    }
                } else if m.ports.outputs.at(out) is None {
                    m.fail(Fault::NoOutputPort)
                } else {
                    (
                        RouterModel {
                            stage: Stage::AwaitTime { port: port as usize, out, data },
                            forwarded: m.forwarded.push((out, data)),
                            ..m
                        },
                        Action::Tick,
                    )
                }
            },
        }
    }

    /// The router has put the packet from input `port` on output `out`.
    pub open spec fn delivered(self, port: int, out: Port) -> (RouterModel, Action) {
        let o = out.scan_index() as int;
        if self.sent[o] == usize::MAX {
            self.fail(Fault::CountOverflow)
        } else {
            let m = RouterModel { sent: self.sent.update(o, (self.sent[o] + 1) as usize), ..self };
            let (m2, ok) = m.score(port);
            if ok {
                m2.end_round(true, m2.next_open(0))
            } else {
                m2.fail(Fault::CountOverflow)
            }
        }
    }

    /// The router's answer to `ev`: its next state and the action it asks for.
    pub open spec fn step(self, ev: Event) -> (RouterModel, Action) {
        match self.stage {
            Stage::Fresh => if ev is Start {
                self.begin_round()
            } else {
                self.fail(Fault::UnexpectedEvent)
            },
            Stage::Idling => if ev is Done {
                self.begin_round()
            } else {
                self.fail(Fault::UnexpectedEvent)
            },
            Stage::AwaitPeek { port } => match ev {
                Event::Peeked { peek } => self.look(port as int, peek),
                _ => self.fail(Fault::UnexpectedEvent),
            },
            Stage::AwaitAdvance => if ev is Done {
                self.end_round(true, self.next_open(0))
            } else {
                self.fail(Fault::UnexpectedEvent)
            },
            Stage::AwaitPacket { port, data } => match ev {
                Event::Received { data: got } => self.take(port as int, data, got),
                _ => self.fail(Fault::UnexpectedEvent),
            },
            Stage::AwaitTime { port, out, data } => match ev {
                Event::Now { time } => if time == u64::MAX {
                    self.fail(Fault::TimeOverflow)
                } else {
                    (
                        RouterModel { stage: Stage::AwaitSent { port, out }, put: self.put.push((out, data)), ..self },
                        Action::Enqueue {
                            output: self.ports.outputs.at(out).unwrap().stream,
                            time: (time + 1) as u64,
                            data,
                        },
                    )
                },
                _ => self.fail(Fault::UnexpectedEvent),
            },
            Stage::AwaitSent { port, out } => if ev is Done {
                self.delivered(port as int, out)
            } else {
                self.fail(Fault::UnexpectedEvent)
            },
            Stage::Finishing => if ev is Done {
                (RouterModel { stage: Stage::Finished, ..self }, Action::Finish)
            } else {
                self.fail(Fault::UnexpectedEvent)
            },
            Stage::Finished => (self, Action::Finish),
            Stage::Failed { fault } => (self, Action::Fail { fault }),
        }
    }
}

impl RouterModel {
    /// The shape of a router's state that every step keeps.
    pub open spec fn wf(self) -> bool {
        &&& self.in_goal.len() == NUM_PORTS
        &&& self.out_goal.len() == NUM_PORTS
        &&& self.closed.len() == NUM_PORTS
        &&& self.received.len() == NUM_PORTS
        &&& self.sent.len() == NUM_PORTS
        &&& self.scoreboard.len() == NUM_PORTS
        &&& self.seen.len() == NUM_PORTS
        &&& forall|i: int| 0 <= i < NUM_PORTS && !#[trigger] self.closed[i] ==> self.in_wired(i)
        &&& forall|i: int| 0 <= i < NUM_PORTS && !(#[trigger] self.seen[i] is Closed) ==> self.in_wired(i)
        &&& self.max_v == max4(self.scoreboard)
        &&& self.y_dim == 0 ==> forall|i: int| 0 <= i < NUM_PORTS ==> !(#[trigger] self.seen[i] is Data)
        &&& match self.stage {
            Stage::AwaitPeek { port } => port < NUM_PORTS && !self.closed[port as int],
            Stage::AwaitPacket { port, .. } => port < NUM_PORTS && self.y_dim > 0,
            Stage::AwaitTime { port, out, .. } => port < NUM_PORTS && self.ports.outputs.at(out) is Some,
            Stage::AwaitSent { port, out } => port < NUM_PORTS && self.ports.outputs.at(out) is Some,
            _ => true,
        }
    }
}

/// There is one first open input from a position on.
pub proof fn lemma_next_open_unique(closed: Seq<bool>, from: int, r: Option<int>)
    requires
        is_first_open(closed, from, r),
    ensures
        first_open(closed, from) == r,
{
    let c = first_open(closed, from);
    assert(is_first_open(closed, from, c));
    match (c, r) {
        (Some(a), Some(b)) => {
            if a < b {
                assert(closed[a]);
            } else if b < a {
                assert(closed[b]);
            }
        },
        (Some(a), None) => {
            assert(closed[a]);
        },
        (None, Some(b)) => {
            assert(closed[b]);
        },
        _ => {},
    }
}

/// There is one earliest input.
pub proof fn lemma_earliest_unique(seen: Seq<Peek>, r: Option<int>)
    requires
        is_earliest(seen, r),
    ensures
        (choose|q: Option<int>| is_earliest(seen, q)) == r,
{
    let c = choose|q: Option<int>| is_earliest(seen, q);
    assert(is_earliest(seen, c));
    match (c, r) {
        (Some(a), Some(b)) => {
            if a < b {
                assert(due_time(seen[a]) > due_time(seen[b]));
            } else if b < a {
                assert(due_time(seen[b]) > due_time(seen[a]));
            }
        },
        (Some(a), None) => {},
        (None, Some(b)) => {},
        _ => {},
    }
}

/// The number of packets a port carries for the whole workload:
/// `per_item * num_input`, or `None` when that product does not fit in a
/// machine word.
pub open spec fn spec_goal(e: Option<PortEntry>, num_input: usize) -> Option<usize> {
    match e {
        Some(p) => if p.per_item * num_input <= usize::MAX {
            Some((p.per_item * num_input) as usize)
        } else {
            None
        },
        None => None,
    }
}

fn goal(e: Option<PortEntry>, num_input: usize) -> (g: Option<usize>)
    ensures
        g == spec_goal(e, num_input),
{
    match e {
        Some(p) => p.per_item.checked_mul(num_input),
        None => None,
    }
}

fn due(p: Peek) -> (t: u64)
    ensures
        t == due_time(p),
{
    match p {
        Peek::Data { time, .. } => time,
        Peek::Empty { time } => if time < u64::MAX {
            time + 1
        } else {
            u64::MAX
        },
        Peek::Closed => u64::MAX,
    }
}

/// A mesh router: the decisions of one router of the network-on-chip.
pub struct MeshRouter {
    ports: RouterPorts,
    x: usize,
    y: usize,
    y_dim: usize,
    skip_local: bool,
    in_goal: Vec<Option<usize>>,
    out_goal: Vec<Option<usize>>,
    closed: Vec<bool>,
    received: Vec<usize>,
    sent: Vec<usize>,
    scoreboard: Vec<u64>,
    dropped: Ghost<nat>,
    taken: Ghost<Seq<usize>>,
    forwarded: Ghost<Seq<(Port, usize)>>,
    put: Ghost<Seq<(Port, usize)>>,
    max_v: u64,
    seen: Vec<Peek>,
    stage: Stage,
}

impl View for MeshRouter {
    type V = RouterModel;

    closed spec fn view(&self) -> RouterModel {
        RouterModel {
            ports: self.ports,
            x: self.x,
            y: self.y,
            y_dim: self.y_dim,
            skip_local: self.skip_local,
            in_goal: self.in_goal@,
            out_goal: self.out_goal@,
            closed: self.closed@,
            received: self.received@,
            sent: self.sent@,
            scoreboard: self.scoreboard@,
            dropped: self.dropped@,
            taken: self.taken@,
            forwarded: self.forwarded@,
            put: self.put@,
            max_v: self.max_v,
            seen: self.seen@,
            stage: self.stage,
        }
    }
}

fn closed_seen() -> (v: Vec<Peek>)
    ensures
        v@ == fresh_seen(),
{
    let v = vec![Peek::Closed, Peek::Closed, Peek::Closed, Peek::Closed, Peek::Closed];
    assert(v@ =~= fresh_seen());
    v
}

impl MeshRouter {
    /// A router at `(x, y)` of a mesh with `y_dim` columns, wired as `ports`
    /// say, for a workload of `num_input` items, of which each port carries
    /// as many packets per item as its table gives.  `num_vc`, the number of
    /// virtual channels of the network, does not change what the router does.
    pub fn new(
        ports: RouterPorts,
        x: usize,
        y: usize,
        y_dim: usize,
        num_input: usize,
        num_vc: usize,
        skip_local: bool,
    ) -> (r: MeshRouter)
        ensures
            r@.wf(),
            r@.ports == ports,
            r@.x == x,
            r@.y == y,
            r@.y_dim == y_dim,
            r@.skip_local == skip_local,
            forall|i: int|
                0 <= i < NUM_PORTS ==> {
                    &&& r@.in_goal[i] == spec_goal(ports.inputs.at(port_at(i)), num_input)
                    &&& r@.out_goal[i] == spec_goal(ports.outputs.at(port_at(i)), num_input)
                    &&& r@.closed[i] == !r@.in_wired(i)
                    &&& r@.received[i] == 0
                    &&& r@.sent[i] == 0
                    &&& r@.scoreboard[i] == 0
                },
            r@.max_v == 0,
            r@.dropped == 0,
            r@.taken == Seq::<usize>::empty(),
            r@.forwarded == Seq::<(Port, usize)>::empty(),
            r@.put == Seq::<(Port, usize)>::empty(),
            r@.seen == fresh_seen(),
            r@.stage == Stage::Fresh,
    {
        let mut in_goal: Vec<Option<usize>> = Vec::new();
        let mut out_goal: Vec<Option<usize>> = Vec::new();
        let mut closed: Vec<bool> = Vec::new();
        let mut i: usize = 0;
        while i < NUM_PORTS
            invariant
                i <= NUM_PORTS,
                in_goal@.len() == i,
                out_goal@.len() == i,
                closed@.len() == i,
                forall|k: int|
                    0 <= k < i ==> {
                        &&& in_goal@[k] == spec_goal(ports.inputs.at(port_at(k)), num_input)
                        &&& out_goal@[k] == spec_goal(ports.outputs.at(port_at(k)), num_input)
                        &&& closed@[k] == (ports.inputs.at(port_at(k)) is None)
                    },
            decreases NUM_PORTS - i,
        {
            let p = Port::at(i).unwrap();
            let e_in = ports.inputs.get(p);
            let e_out = ports.outputs.get(p);
            in_goal.push(goal(e_in, num_input));
            out_goal.push(goal(e_out, num_input));
            closed.push(e_in.is_none());
            i = i + 1;
        }
        let r = MeshRouter {
            ports,
            x,
            y,
            y_dim,
            skip_local,
            in_goal,
            out_goal,
            closed,
            received: vec![0, 0, 0, 0, 0],
            sent: vec![0, 0, 0, 0, 0],
            scoreboard: vec![0, 0, 0, 0, 0],
            dropped: Ghost(0),
            taken: Ghost(Seq::empty()),
            forwarded: Ghost(Seq::empty()),
            put: Ghost(Seq::empty()),
            max_v: 0,
            seen: closed_seen(),
            stage: Stage::Fresh,
        };
        r
    }

    /// Row of the router.
    pub fn x(&self) -> (v: usize)
        ensures
            v == self@.x,
    {
        self.x
    }

    /// Column of the router.
    pub fn y(&self) -> (v: usize)
        ensures
            v == self@.y,
    {
        self.y
    }

    /// The packets from each input that the router has dealt with, in the
    /// order north, south, east, west, local.
    pub fn scoreboard(&self) -> (v: Vec<u64>)
        ensures
            v@ == self@.scoreboard,
    {
        self.scoreboard.clone()
    }

    fn find_next_open(&self, from: usize) -> (r: Option<usize>)
        requires
            self@.wf(),
        ensures
            r matches Some(j) ==> j < NUM_PORTS && !self@.closed[j as int],
            self@.next_open(from as int) == (match r {
                Some(j) => Some(j as int),
                None => None::<int>,
            }),
    {
        let mut k = from;
        while k < NUM_PORTS
            invariant
                self@.wf(),
                from <= k,
                forall|j: int| from <= j < k && j < NUM_PORTS ==> self@.closed[j],
            decreases NUM_PORTS - k,
        {
            if !self.closed[k] {
                proof {
                    lemma_next_open_unique(self@.closed, from as int, Some(k as int));
                }
                return Some(k);
            }
            k = k + 1;
        }
        proof {
            lemma_next_open_unique(self@.closed, from as int, None);
        }
        None
    }

    fn find_earliest(&self) -> (r: Option<usize>)
        requires
            self@.wf(),
        ensures
            r matches Some(j) ==> j < NUM_PORTS,
            self@.earliest() == (match r {
                Some(j) => Some(j as int),
                None => None::<int>,
            }),
    {
        let mut best: u64 = u64::MAX;
        let mut idx: Option<usize> = None;
        let mut k: usize = 0;
        while k < NUM_PORTS
            invariant
                self@.wf(),
                k <= NUM_PORTS,
                match idx {
                    Some(i) => i < k && is_earliest(self@.seen.take(k as int), Some(i as int)) && best
                        == due_time(self@.seen[i as int]),
                    None => best == u64::MAX && is_earliest(self@.seen.take(k as int), None),
                },
            decreases NUM_PORTS - k,
        {
            let t = due(self.seen[k]);
            if t != u64::MAX && t < best {
                best = t;
                idx = Some(k);
            }
            proof {
                let s = self@.seen.take(k + 1);
                assert forall|j: int| 0 <= j < k implies s[j] == self@.seen.take(k as int)[j] by {}
            }
            k = k + 1;
        }
        proof {
            assert(self@.seen.take(NUM_PORTS as int) =~= self@.seen);
            lemma_earliest_unique(
                self@.seen,
                match idx {
                    Some(j) => Some(j as int),
                    None => None::<int>,
                },
            );
        }
        idx
    }
}

impl MeshRouter {
    fn fail(&mut self, fault: Fault) -> (act: Action)
        requires
            old(self)@.wf(),
        ensures
            final(self)@.wf(),
            (final(self)@, act) == old(self)@.fail(fault),
    {
        self.stage = Stage::Failed { fault };
        Action::Fail { fault }
    }

    fn goal_overflows(&self) -> (b: bool)
        requires
            self@.wf(),
        ensures
            b == self@.goal_overflows(),
    {
        let mut i: usize = 0;
        while i < NUM_PORTS
            invariant
                self@.wf(),
                i <= NUM_PORTS,
                forall|j: int|
                    0 <= j < i ==> !((self@.in_wired(j) && self@.in_goal[j] is None) || (
                    self@.out_wired(j) && self@.out_goal[j] is None)),
            decreases NUM_PORTS - i,
        {
            let p = Port::at(i).unwrap();
            if (self.ports.inputs.get(p).is_some() && self.in_goal[i].is_none()) || (
            self.ports.outputs.get(p).is_some() && self.out_goal[i].is_none()) {
                assert((self@.in_wired(i as int) && self@.in_goal[i as int] is None) || (self@.out_wired(i as int)
                    && self@.out_goal[i as int] is None));
                return true;
            }
            i = i + 1;
        }
        false
    }

    fn all_done(&self) -> (b: bool)
        requires
            self@.wf(),
        ensures
            b == self@.all_done(),
    {
        let mut i: usize = 0;
        while i < NUM_PORTS
            invariant
                self@.wf(),
                i <= NUM_PORTS,
                forall|j: int| 0 <= j < i ==> #[trigger] self@.port_done(j),
            decreases NUM_PORTS - i,
        {
            if !self.port_finished(i) {
                return false;
            }
            i = i + 1;
        }
        true
    }

    fn port_finished(&self, i: usize) -> (b: bool)
        requires
            self@.wf(),
            i < NUM_PORTS,
        ensures
            b == self@.port_done(i as int),
    {
        let p = Port::at(i).unwrap();
        {
            if self.ports.inputs.get(p).is_some() {
                match self.in_goal[i] {
                    Some(g) => if g != self.received[i] {
                        return false;
                    },
                    None => {
                        return false;
                    },
                }
            }
            if self.ports.outputs.get(p).is_some() {
                match self.out_goal[i] {
                    Some(g) => if g != self.sent[i] {
                        return false;
                    },
                    None => {
                        return false;
                    },
                }
            }
        }
        true
    }

    fn peek_action(&mut self, j: usize) -> (act: Action)
        requires
            old(self)@.wf(),
            j < NUM_PORTS,
            !old(self)@.closed[j as int],
        ensures
            final(self)@.wf(),
            final(self)@ == (RouterModel { stage: Stage::AwaitPeek { port: j }, ..old(self)@ }),
            act == (Action::Peek { input: old(self)@.in_stream(j as int) }),
    {
        let p = Port::at(j).unwrap();
        let e = self.ports.inputs.get(p).unwrap();
        self.stage = Stage::AwaitPeek { port: j };
        Action::Peek { input: e.stream }
    }

    fn end_round(&mut self, busy: bool) -> (act: Action)
        requires
            old(self)@.wf(),
        ensures
            final(self)@.wf(),
            (final(self)@, act) == old(self)@.end_round(
                busy,
                if busy {
                    old(self)@.next_open(0)
                } else {
                    None
                },
            ),
    {
        if self.goal_overflows() {
            return self.fail(Fault::CountOverflow);
        }
        if self.all_done() {
            self.stage = Stage::Finishing;
            return Action::IncrCycles { cycles: self.max_v };
        }
        self.seen = closed_seen();
        if busy {
            if let Some(j) = self.find_next_open(0) {
                return self.peek_action(j);
            }
        }
        self.stage = Stage::Idling;
        Action::Idle
    }

    fn serve(&mut self) -> (act: Action)
        requires
            old(self)@.wf(),
            (old(self)@.y_dim > 0 || forall|i: int| 0 <= i < NUM_PORTS ==> !(old(self)@.seen[i] is Data)),
        ensures
            final(self)@.wf(),
            (final(self)@, act) == old(self)@.serve(old(self)@.earliest()),
    {
        match self.find_earliest() {
            None => self.end_round(false),
            Some(i) => match self.seen[i] {
                Peek::Data { time, data } => if data == usize::MAX {
                    self.stage = Stage::AwaitAdvance;
                    Action::AdvanceTo { time }
                } else {
                    let p = Port::at(i).unwrap();
                    let e = self.ports.inputs.get(p);
                    self.stage = Stage::AwaitPacket { port: i, data };
                    Action::Dequeue { input: e.unwrap().stream }
                },
                _ => {
                    let t = due(self.seen[i]);
                    self.stage = Stage::AwaitAdvance;
                    Action::AdvanceTo { time: t }
                },
            },
        }
    }
}

fn max_of_four(s: &Vec<u64>) -> (m: u64)
    requires
        s@.len() == NUM_PORTS,
    ensures
        m == max4(s@),
{
    let a = if s[0] >= s[1] {
        s[0]
    } else {
        s[1]
    };
    let b = if a >= s[2] {
        a
    } else {
        s[2]
    };
    if b >= s[3] {
        b
    } else {
        s[3]
    }
}

impl MeshRouter {
    fn score(&mut self, port: usize) -> (ok: bool)
        requires
            old(self)@.wf(),
            port < NUM_PORTS,
        ensures
            final(self)@.wf(),
            (final(self)@, ok) == old(self)@.score(port as int),
    {
        let c = self.scoreboard[port];
        if c == u64::MAX {
            return false;
        }
        self.scoreboard.set(port, c + 1);
        self.max_v = max_of_four(&self.scoreboard);
        true
    }

    fn begin_round(&mut self) -> (act: Action)
        requires
            old(self)@.wf(),
        ensures
            final(self)@.wf(),
            (final(self)@, act) == old(self)@.begin_round(),
    {
        self.seen = closed_seen();
        match self.find_next_open(0) {
            Some(j) => self.peek_action(j),
            None => self.end_round(false),
        }
    }

    fn look(&mut self, port: usize, peek: Peek) -> (act: Action)
        requires
            old(self)@.wf(),
            port < NUM_PORTS,
            !old(self)@.closed[port as int],
        ensures
            final(self)@.wf(),
            (final(self)@, act) == old(self)@.look(port as int, peek),
    {
        if let Peek::Data { .. } = peek {
            if self.y_dim == 0 {
                return self.fail(Fault::NoColumns);
            }
        }
        if let Peek::Empty { time } = peek {
            if time == u64::MAX {
                return self.fail(Fault::TimeOverflow);
            }
        }
        self.stage = Stage::Idling;
        self.seen.set(port, peek);
        if let Peek::Closed = peek {
            self.closed.set(port, true);
        }
        match self.find_next_open(port + 1) {
            Some(j) => self.peek_action(j),
            None => self.serve(),
        }
    }

    fn take(&mut self, port: usize, data: usize, got: Option<usize>) -> (act: Action)
        requires
            old(self)@.wf(),
            port < NUM_PORTS,
            old(self)@.y_dim > 0,
        ensures
            final(self)@.wf(),
            (final(self)@, act) == old(self)@.take(port as int, data, got),
    {
        match got {
            None => self.fail(Fault::InputClosed),
            Some(d) => {
                if d != data {
                    return self.fail(Fault::DataMismatch);
                }
                let c = self.received[port];
                if c == usize::MAX {
                    return self.fail(Fault::CountOverflow);
                }
                self.received.set(port, c + 1);
                self.taken = Ghost(self.taken@.push(data));
                let out = route_address(data, self.y_dim, self.x, self.y);
                if out == Port::Local && self.skip_local {
                    self.dropped = Ghost(self.dropped@ + 1);
                    if self.score(port) {
                        self.end_round(true)
                    } else {
                        self.fail(Fault::CountOverflow)
                    }
                } else if self.ports.outputs.get(out).is_none() {
                    self.fail(Fault::NoOutputPort)
                } else {
                    self.stage = Stage::AwaitTime { port, out, data };
                    self.forwarded = Ghost(self.forwarded@.push((out, data)));
                    Action::Tick
                }
            },
        }
    }

    fn delivered(&mut self, port: usize, out: Port) -> (act: Action)
        requires
            old(self)@.wf(),
            port < NUM_PORTS,
        ensures
            final(self)@.wf(),
            (final(self)@, act) == old(self)@.delivered(port as int, out),
    {
        let o = out.index();
        let c = self.sent[o];
        if c == usize::MAX {
            return self.fail(Fault::CountOverflow);
        }
        self.sent.set(o, c + 1);
        if self.score(port) {
            self.end_round(true)
        } else {
            self.fail(Fault::CountOverflow)
        }
    }

    /// The router's answer to event `ev`: the next action it asks for.
    pub fn next(&mut self, ev: Event) -> (act: Action)
        requires
            old(self)@.wf(),
        ensures
            final(self)@.wf(),
            (final(self)@, act) == old(self)@.step(ev),
    {
        match self.stage {
            Stage::Fresh => if let Event::Start = ev {
                self.begin_round()
            } else {
                self.fail(Fault::UnexpectedEvent)
            },
            Stage::Idling => if let Event::Done = ev {
                self.begin_round()
            } else {
                self.fail(Fault::UnexpectedEvent)
            },
            Stage::AwaitPeek { port } => match ev {
                Event::Peeked { peek } => self.look(port, peek),
                _ => self.fail(Fault::UnexpectedEvent),
            },
            Stage::AwaitAdvance => if let Event::Done = ev {
                self.end_round(true)
            } else {
                self.fail(Fault::UnexpectedEvent)
            },
            Stage::AwaitPacket { port, data } => match ev {
                Event::Received { data: got } => self.take(port, data, got),
                _ => self.fail(Fault::UnexpectedEvent),
            },
            Stage::AwaitTime { port, out, data } => match ev {
                Event::Now { time } => if time == u64::MAX {
                    self.fail(Fault::TimeOverflow)
                } else {
                    let e = self.ports.outputs.get(out).unwrap();
                    self.stage = Stage::AwaitSent { port, out };
                    self.put = Ghost(self.put@.push((out, data)));
                    Action::Enqueue { output: e.stream, time: time + 1, data }
                },
                _ => self.fail(Fault::UnexpectedEvent),
            },
            Stage::AwaitSent { port, out } => if let Event::Done = ev {
                self.delivered(port, out)
            } else {
                self.fail(Fault::UnexpectedEvent)
            },
            Stage::Finishing => if let Event::Done = ev {
                self.stage = Stage::Finished;
                Action::Finish
            } else {
                self.fail(Fault::UnexpectedEvent)
            },
            Stage::Finished => Action::Finish,
            Stage::Failed { fault } => Action::Fail { fault },
        }
    }
}

impl RouterModel {
    /// Whether a packet is between being taken from an input and being put on
    /// an output.
    pub open spec fn in_flight(self) -> bool {
        self.stage is AwaitTime || self.stage is AwaitSent
    }

    /// The input of the packet in flight, if any.
    pub open spec fn flight(self) -> Option<int> {
        match self.stage {
            Stage::AwaitTime { port, .. } => Some(port as int),
            Stage::AwaitSent { port, .. } => Some(port as int),
            _ => None,
        }
    }

    /// The counts balance, with the packet from input `flight` (if any) in
    /// flight: each input's scoreboard counts the packets taken from it
    /// that are no longer in flight; every packet taken has been put on an
    /// output, dropped, or is in flight; only a router that drops its own
    /// tile's packets drops any, it drops exactly the packets taken that are
    /// addressed to its own tile, and it sends nothing to its tile.
    pub open spec fn balanced(self, flight: Option<int>) -> bool {
        &&& forall|i: int|
            0 <= i < NUM_PORTS ==> #[trigger] self.scoreboard[i] + b2n(flight == Some(i))
                == self.received[i]
        &&& sum5(self.sent) + b2n(flight is Some) + self.dropped == sum5(self.received)
        &&& !self.skip_local ==> self.dropped == 0
        &&& self.skip_local ==> self.sent[Port::Local.scan_index() as int] == 0
        &&& self.skip_local ==> self.dropped == local_count(self.taken, self.x, self.y, self.y_dim)
    }



    /// The packet taken but not yet put on an output, with its port.
    pub open spec fn pending(self) -> Option<(Port, usize)> {
        match self.stage {
            Stage::AwaitTime { out, data, .. } => Some((out, data)),
            _ => None,
        }
    }

    /// Every packet forwarded goes to the port that routing chooses for it,
    /// and the packets put on the outputs are the packets forwarded, in the
    /// same order, but for the `pending` one.
    pub open spec fn logs_agree(self, pending: Option<(Port, usize)>) -> bool {
        &&& forall|k: int|
            0 <= k < self.forwarded.len() ==> (#[trigger] self.forwarded[k]).0 == self.route_of(
                self.forwarded[k].1,
            )
        &&& match pending {
            Some(x) => self.forwarded == self.put.push(x),
            None => self.forwarded == self.put,
        }
    }

    /// The port that routing chooses for a packet with address `d`.
    pub open spec fn route_of(self, d: usize) -> Port {
        spec_route((d / self.y_dim) as nat, (d % self.y_dim) as nat, self.x as nat, self.y as nat)
    }

    /// The bookkeeping that every step keeps, unless the router stops on a
    /// fault: the counts balance; every packet forwarded goes to the port
    /// that routing chooses for it; the packets put on the outputs are the
    /// packets forwarded, in the same order, but for the one in flight (so
    /// each output gets the packets routed to it in the order they were
    /// taken); and a router winds up only when every wired port has carried
    /// exactly its share.
    pub open spec fn conserved(self) -> bool {
        !(self.stage is Failed) ==> {
            &&& self.balanced(self.flight())
            &&& self.logs_agree(self.pending())
            &&& match self.stage {
                Stage::AwaitTime { out, data, .. } => self.y_dim > 0 && out == spec_route(
                    (data / self.y_dim) as nat,
                    (data % self.y_dim) as nat,
                    self.x as nat,
                    self.y as nat,
                ) && (self.skip_local ==> out != Port::Local),
                Stage::AwaitSent { out, .. } => self.skip_local ==> out != Port::Local,
                Stage::Finishing => self.all_done(),
                Stage::Finished => self.all_done(),
                _ => true,
            }
        }
    }
}

/// How many of the packets with addresses `s` are for the tile of router
/// `(x, y)` in a mesh with `y_dim` columns.
pub open spec fn local_count(s: Seq<usize>, x: usize, y: usize, y_dim: usize) -> nat
    decreases s.len(),
{
    if s.len() == 0 {
        0
    } else {
        local_count(s.drop_last(), x, y, y_dim) + if spec_route(
            (s.last() / y_dim) as nat,
            (s.last() % y_dim) as nat,
            x as nat,
            y as nat,
        ) == Port::Local {
            1nat
        } else {
            0nat
        }
    }
}

/// The sum of five counts.
pub open spec fn sum5<T: Integer>(s: Seq<T>) -> int {
    s[0] as int + s[1] as int + s[2] as int + s[3] as int + s[4] as int
}

/// 1 for `true`, 0 for `false`.
pub open spec fn b2n(b: bool) -> int {
    if b {
        1
    } else {
        0
    }
}

/// A new router starts with its books balanced.
pub proof fn lemma_new_conserved(m: RouterModel)
    requires
        m.wf(),
        m.stage == Stage::Fresh,
        forall|i: int| 0 <= i < NUM_PORTS ==> m.received[i] == 0 && m.sent[i] == 0 && m.scoreboard[i] == 0,
        m.dropped == 0,
        m.taken == Seq::<usize>::empty(),
        m.forwarded == Seq::<(Port, usize)>::empty(),
        m.put == Seq::<(Port, usize)>::empty(),
    ensures
        m.conserved(),
{
}

proof fn lemma_balanced_frame(a: RouterModel, b: RouterModel, f: Option<int>)
    requires
        a.balanced(f),
        a.scoreboard == b.scoreboard,
        a.received == b.received,
        a.sent == b.sent,
        a.skip_local == b.skip_local,
        a.dropped == b.dropped,
        a.taken == b.taken,
        a.x == b.x,
        a.y == b.y,
        a.y_dim == b.y_dim,
    ensures
        b.balanced(f),
{
    assert forall|i: int| 0 <= i < NUM_PORTS implies #[trigger] b.scoreboard[i] + b2n(f == Some(i))
        == b.received[i] by {
        assert(a.scoreboard[i] + b2n(f == Some(i)) == a.received[i]);
    }
}

/// Taking one more packet from input `port` and dealing with it keeps the
/// counts balanced.
proof fn lemma_balanced_bump(a: RouterModel, b: RouterModel, port: int)
    requires
        a.balanced(None),
        0 <= port < NUM_PORTS,
        a.scoreboard.len() == NUM_PORTS,
        a.received.len() == NUM_PORTS,
        b.scoreboard == a.scoreboard.update(port, (a.scoreboard[port] + 1) as u64),
        b.received == a.received.update(port, (a.received[port] + 1) as usize),
        a.scoreboard[port] < u64::MAX,
        a.received[port] < usize::MAX,
        a.sent.len() == NUM_PORTS,
        b.sent == a.sent,
        b.skip_local,
        b.skip_local == a.skip_local,
        b.dropped == a.dropped + 1,
        a.x == b.x,
        a.y == b.y,
        a.y_dim == b.y_dim,
        b.taken.len() == a.taken.len() + 1,
        b.taken.drop_last() == a.taken,
        b.route_of(b.taken.last()) == Port::Local,
    ensures
        b.balanced(None),
{
    assert forall|i: int| 0 <= i < NUM_PORTS implies #[trigger] b.scoreboard[i] + b2n(None::<int> == Some(i))
        == b.received[i] by {
        assert(a.scoreboard[i] + b2n(None::<int> == Some(i)) == a.received[i]);
    }
}

proof fn lemma_end_round_conserved(m: RouterModel, busy: bool, next: Option<int>)
    requires
        m.balanced(None),
        m.logs_agree(None),
    ensures
        m.end_round(busy, next).0.conserved(),
        m.end_round(busy, next).1 is IncrCycles ==> m.end_round(busy, next).0.all_done(),
        !(m.end_round(busy, next).1 is Enqueue),
{
    let r = m.end_round(busy, next).0;
    assert(r.scoreboard == m.scoreboard && r.received == m.received && r.sent == m.sent);
    assert(r.ports == m.ports && r.in_goal == m.in_goal && r.out_goal == m.out_goal);
    assert forall|i: int| 0 <= i < NUM_PORTS implies #[trigger] r.port_done(i) == m.port_done(i) by {}
    if !(r.stage is Failed) {
        assert(r.flight() is None);
        assert forall|i: int| 0 <= i < NUM_PORTS implies #[trigger] r.scoreboard[i] + b2n(
            r.flight() == Some(i),
        ) == r.received[i] by {
            assert(m.scoreboard[i] + b2n(None::<int> == Some(i)) == m.received[i]);
        }
        assert(r.balanced(r.flight()));
    }
    if m.end_round(busy, next).1 is IncrCycles {
        assert(m.all_done());
    }
}

proof fn lemma_serve_conserved(m: RouterModel, e: Option<int>)
    requires
        m.balanced(None),
        m.logs_agree(None),
    ensures
        m.serve(e).0.conserved(),
        m.serve(e).1 is IncrCycles ==> m.serve(e).0.all_done(),
        !(m.serve(e).1 is Enqueue),
{
    if e is None {
        lemma_end_round_conserved(m, false, None);
    }
}

/// Every step of a router keeps its books balanced: no packet is lost or
/// made up on the way through the router (a dropped packet for the
/// router's own tile is counted as dropped), every packet leaves by the port
/// that routing chooses for it, each output gets its packets in the order
/// they were taken, each packet put on an output is recorded as put, and
/// the router winds up only when all its wired ports have carried their
/// share.
#[verifier::spinoff_prover]
#[verifier::rlimit(60)]
pub proof fn lemma_step_conserved(m: RouterModel, ev: Event)
    requires
        m.wf(),
        m.conserved(),
    ensures
        m.step(ev).0.conserved(),
        m.step(ev).1 matches Action::Enqueue { output, data, .. } ==> m.y_dim > 0 && output
            == m.ports.outputs.at(
            spec_route((data / m.y_dim) as nat, (data % m.y_dim) as nat, m.x as nat, m.y as nat),
        ).unwrap().stream,
        m.step(ev).1 is IncrCycles ==> m.step(ev).0.all_done(),
        m.step(ev).1 matches Action::Enqueue { output, data, .. } ==> {
            let put = m.step(ev).0.put;
            &&& put.len() == m.put.len() + 1
            &&& put.drop_last() == m.put
            &&& put.last().1 == data
            &&& output == m.ports.outputs.at(put.last().0).unwrap().stream
        },
        !(m.step(ev).1 is Enqueue) ==> m.step(ev).0.put == m.put,
{
    match m.stage {
        Stage::Fresh | Stage::Idling => {
            let m1 = RouterModel { seen: fresh_seen(), ..m };
            lemma_balanced_frame(m, m1, None);
            lemma_end_round_conserved(m1, false, None);
            if let Some(j) = m1.next_open(0) {
                let m2 = RouterModel { stage: Stage::AwaitPeek { port: j as usize }, ..m1 };
                lemma_balanced_frame(m, m2, None);
            }
        },
        Stage::AwaitPeek { port } => {
            if let Event::Peeked { peek } = ev {
                let m1 = RouterModel {
                    seen: m.seen.update(port as int, peek),
                    closed: if peek is Closed {
                        m.closed.update(port as int, true)
                    } else {
                        m.closed
                    },
                    stage: Stage::Idling,
                    ..m
                };
                assert(m1.balanced(None));
                lemma_serve_conserved(m1, m1.earliest());
            }
        },
        Stage::AwaitAdvance => {
            lemma_end_round_conserved(m, true, m.next_open(0));
        },
        Stage::AwaitPacket { port, data } => {
            if let Event::Received { data: got } = ev {
                if let Some(d) = got {
                    if d == data && m.received[port as int] != usize::MAX {
                        let m1 = RouterModel {
                            received: m.received.update(port as int, (m.received[port as int] + 1) as usize),
                            taken: m.taken.push(data),
                            ..m
                        };
                        assert(m1.taken.drop_last() =~= m.taken);
                        let out = spec_route(
                            (data / m.y_dim) as nat,
                            (data % m.y_dim) as nat,
                            m.x as nat,
                            m.y as nat,
                        );
                        let (m2, ok) = RouterModel { dropped: m1.dropped + 1, ..m1 }.score(port as int);
                        if ok && m.skip_local && out == Port::Local {
                            lemma_balanced_bump(m, m2, port as int);
                            lemma_end_round_conserved(m2, true, m2.next_open(0));
                        }
                    }
                }
            }
        },
        Stage::AwaitSent { port, out } => {
            let o = out.scan_index() as int;
            if ev is Done && m.sent[o] != usize::MAX {
                let m1 = RouterModel { sent: m.sent.update(o, (m.sent[o] + 1) as usize), ..m };
                let (m2, ok) = m1.score(port as int);
                if ok {
                    assert(m2.balanced(None));
                    lemma_end_round_conserved(m2, true, m2.next_open(0));
                }
            }
        },
        Stage::AwaitTime { port, out, data } => {
            if let Event::Now { time } = ev {
                if time != u64::MAX {
                    let m1 = RouterModel { stage: Stage::AwaitSent { port, out }, ..m };
                    lemma_balanced_frame(m, m1, Some(port as int));
                }
            }
        },
        Stage::Finishing => {
            if ev is Done {
                let m1 = RouterModel { stage: Stage::Finished, ..m };
                assert forall|i: int| 0 <= i < NUM_PORTS implies #[trigger] m1.port_done(i) by {
                    assert(m.port_done(i));
                }
                lemma_balanced_frame(m, m1, None);
            }
        },
        _ => {},
    }
}

/// The first position at `from` or later that is not closed, found by
/// looking at each position in turn.
spec fn scan_open(closed: Seq<bool>, from: int) -> Option<int>
    decreases NUM_PORTS - from,
{
    if from >= NUM_PORTS {
        None
    } else if from >= 0 && !closed[from] {
        Some(from)
    } else {
        scan_open(closed, from + 1)
    }
}

proof fn lemma_scan_open(closed: Seq<bool>, from: int)
    requires
        from >= 0,
    ensures
        is_first_open(closed, from, scan_open(closed, from)),
    decreases NUM_PORTS - from,
{
    if from < NUM_PORTS && closed[from] {
        lemma_scan_open(closed, from + 1);
    }
}

/// Some position is the first open one from `from` on.
pub proof fn lemma_first_open(closed: Seq<bool>, from: int)
    requires
        from >= 0,
    ensures
        is_first_open(closed, from, first_open(closed, from)),
{
    lemma_scan_open(closed, from);
    lemma_next_open_unique(closed, from, scan_open(closed, from));
}

/// The earliest head among the first `k` inputs.
spec fn scan_earliest(seen: Seq<Peek>, k: int) -> Option<int>
    decreases k,
{
    if k <= 0 {
        None
    } else {
        let prev = scan_earliest(seen, k - 1);
        let d = due_time(seen[k - 1]);
        if d < u64::MAX && (prev is None || d < due_time(seen[prev.unwrap()])) {
            Some(k - 1)
        } else {
            prev
        }
    }
}

proof fn lemma_scan_earliest(seen: Seq<Peek>, k: int)
    requires
        0 <= k <= seen.len(),
    ensures
        is_earliest(seen.take(k), scan_earliest(seen, k)),
    decreases k,
{
    if k > 0 {
        lemma_scan_earliest(seen, k - 1);
        let t = seen.take(k);
        let u = seen.take(k - 1);
        assert forall|j: int| 0 <= j < k - 1 implies #[trigger] t[j] == u[j] by {}
    }
}

/// Some input is the earliest one.
proof fn lemma_earliest(seen: Seq<Peek>)
    ensures
        is_earliest(seen, choose|q: Option<int>| is_earliest(seen, q)),
{
    lemma_scan_earliest(seen, seen.len() as int);
    assert(seen.take(seen.len() as int) =~= seen);
    lemma_earliest_unique(seen, scan_earliest(seen, seen.len() as int));
}

/// A router only looks at, and takes from, inputs that are wired.
pub proof fn lemma_step_inputs(m: RouterModel, ev: Event)
    requires
        m.wf(),
    ensures
        m.step(ev).1 matches Action::Peek { input } ==> exists|i: int|
            0 <= i < NUM_PORTS && m.in_wired(i) && input == #[trigger] m.in_stream(i),
        m.step(ev).1 matches Action::Dequeue { input } ==> exists|i: int|
            0 <= i < NUM_PORTS && m.in_wired(i) && input == #[trigger] m.in_stream(i),
{
    lemma_first_open(m.closed, 0);
    match m.stage {
        Stage::AwaitPeek { port } => {
            if let Event::Peeked { peek } = ev {
                let m1 = RouterModel {
                    seen: m.seen.update(port as int, peek),
                    closed: if peek is Closed {
                        m.closed.update(port as int, true)
                    } else {
                        m.closed
                    },
                    stage: Stage::Idling,
                    ..m
                };
                lemma_first_open(m1.closed, port + 1);
                lemma_earliest(m1.seen);
                if let Some(j) = m1.next_open(port + 1) {
                    // an input still open now was open before, hence wired
                    assert(!m.closed[j]);
                    assert(m1.in_stream(j) == m.in_stream(j));
                } else if let Some(i) = m1.earliest() {
                    // a head that shows a packet belongs to a wired input
                    if m1.seen[i] is Data && i != port {
                        assert(!(m.seen[i] is Closed));
                    }
                    assert(m1.in_stream(i) == m.in_stream(i));
                }
            }
        },
        _ => {
            if let Action::Peek { input } = m.step(ev).1 {
                assert(input == m.in_stream(m.next_open(0).unwrap()));
            }
        },
    }
}

/// Input `i` has the head that is due first among the heads `seen`; on a
/// tie, no earlier input in the scan order is due as soon.
pub open spec fn due_first(seen: Seq<Peek>, i: int) -> bool {
    &&& 0 <= i < seen.len()
    &&& due_time(seen[i]) < u64::MAX
    &&& forall|j: int| 0 <= j < i ==> due_time(seen[j]) > due_time(seen[i])
    &&& forall|j: int| i < j < seen.len() ==> due_time(seen[j]) >= due_time(seen[i])
}

/// A round serves only the input whose head is due first (the first one in
/// the scan order on a tie): when that head is a packet, the router takes
/// it, from that input and no other; when that input has no packet yet, the
/// router's clock moves to the time its packet can arrive, and nothing is
/// taken.  A round in which every input is closed takes nothing.
pub proof fn lemma_round_serves_first_due(m: RouterModel, ev: Event)
    requires
        m.wf(),
    ensures
        m.step(ev).1 matches Action::Dequeue { input } ==> exists|i: int|
            #![trigger due_first(m.step(ev).0.seen, i)]
            due_first(m.step(ev).0.seen, i) && m.step(ev).0.seen[i] is Data && input == m.in_stream(i),
        m.step(ev).1 matches Action::AdvanceTo { time } ==> exists|i: int|
            #![trigger due_first(m.step(ev).0.seen, i)]
            due_first(m.step(ev).0.seen, i) && time == due_time(m.step(ev).0.seen[i]),
{
    if let Stage::AwaitPeek { port } = m.stage {
        if let Event::Peeked { peek } = ev {
            let m1 = RouterModel {
                seen: m.seen.update(port as int, peek),
                closed: if peek is Closed {
                    m.closed.update(port as int, true)
                } else {
                    m.closed
                },
                stage: Stage::Idling,
                ..m
            };
            lemma_earliest(m1.seen);
            if m1.next_open(port + 1) is None {
                if let Some(i) = m1.earliest() {
                    assert(due_first(m1.seen, i));
                    assert(m1.in_stream(i) == m.in_stream(i));
                    if !(peek is Data && m.y_dim == 0) && peek != (Peek::Empty { time: u64::MAX }) {
                        assert(m.step(ev) == m1.serve(Some(i)));
                        assert(m.step(ev).0.seen == m1.seen);
                    }
                }
            }
        }
    }
}

/// A packet goes out one cycle after the time the router reads for it: an
/// `Enqueue` answers a clock reading `now`, stamps the packet `now + 1`,
/// carries the data the router holds, and waits for the put to be done.
pub proof fn lemma_forward_one_cycle_later(m: RouterModel, ev: Event)
    ensures
        m.step(ev).1 matches Action::Enqueue { time, data, .. } ==> {
            &&& ev matches Event::Now { time: now } && time == now + 1
            &&& m.stage matches Stage::AwaitTime { port, out, data: held } && data == held
                && m.step(ev).0.stage == (Stage::AwaitSent { port, out })
        },
{
}

/// A router winds up by letting as many cycles pass as the busiest of its
/// north, south, east and west inputs has dealt with packets: the count is
/// at least each of theirs and equal to one of them.
pub proof fn lemma_finish_waits_for_busiest(m: RouterModel, ev: Event)
    requires
        m.wf(),
    ensures
        m.step(ev).1 matches Action::IncrCycles { cycles } ==> {
            let board = m.step(ev).0.scoreboard;
            &&& forall|i: int| 0 <= i < 4 ==> cycles >= #[trigger] board[i]
            &&& exists|i: int| 0 <= i < 4 && cycles == #[trigger] board[i]
        },
{
    lemma_finish_count_recorded(m, ev);
    let m2 = m.step(ev).0;
    if let Action::IncrCycles { cycles } = m.step(ev).1 {
        let b = m2.scoreboard;
        assert(cycles == max4(b));
        if cycles == b[0] {
            assert(0 <= 0 < 4 && cycles == b[0]);
        } else if cycles == b[1] {
            assert(0 <= 1 < 4 && cycles == b[1]);
        } else if cycles == b[2] {
            assert(0 <= 2 < 4 && cycles == b[2]);
        } else {
            assert(0 <= 3 < 4 && cycles == b[3]);
        }
    }
}

/// The finishing wait is the router's recorded busiest count, kept equal
/// to the largest of its first four counts.
proof fn lemma_finish_count_recorded(m: RouterModel, ev: Event)
    requires
        m.wf(),
    ensures
        m.step(ev).1 matches Action::IncrCycles { cycles } ==> cycles == m.step(ev).0.max_v
            && m.step(ev).0.max_v == max4(m.step(ev).0.scoreboard) && m.step(ev).0.scoreboard.len()
            == NUM_PORTS,
{
}

} // verus!
