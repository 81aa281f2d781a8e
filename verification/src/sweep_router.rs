//! A simpler mesh router that works in sweeps, one per cycle.
//!
//! In each sweep the router looks at each of its open inputs in turn (north,
//! south, east, west, local) and takes the packet at its head if there is
//! one; then it sends every packet taken in this sweep on by the port that
//! dimension-order routing chooses, one cycle after the current time; then
//! one cycle passes.  The router is done when every input that is still
//! open has received, and every wired output has sent, `per_item * num_input`
//! packets.  The number 999999 marks a missing value: a packet whose
//! address, row or column is 999999 is dropped, and an output whose stream
//! number is 999999 counts as not wired.
use crate::control::{Action, Event, Fault, Peek};
use crate::mesh::{route_address, spec_route, Port, NUM_PORTS};
use crate::mesh_router::{first_open, is_first_open, lemma_first_open, lemma_next_open_unique, port_at};
use crate::ports::{PortEntry, RouterPorts};
use vstd::prelude::*;

verus! {

/// The number that marks a missing value.
pub const MISSING: usize = 999999;

/// Where the router stands in its sweep: the answer it waits for.
#[derive(Clone, Copy, Debug, PartialEq, Eq, Structural)]
pub enum SweepStage {
    /// Not started yet.
    Fresh,
    /// Waits for the look at the head of input `port`.
    AwaitPeek { port: usize },
    /// Waits for the packet at the head of input `port`.
    AwaitPacket { port: usize },
    /// Waits for its current time, to stamp the packet taken from input `port`.
    AwaitTime { port: usize },
    /// Waits until the packet taken from input `port` has been put on output `out`.
    AwaitSent { port: usize, out: Port },
    /// Waits for the cycle to pass.
    AwaitCycle,
    /// Has finished.
    Finished,
    /// Has stopped on a fault.
    Failed { fault: Fault },
}

/// The state of a sweeping router.
pub struct SweepModel {
    pub ports: RouterPorts,
    pub x: usize,
    pub y: usize,
    pub y_dim: usize,
    /// For each input port, the packets it has to receive, `None` when that
    /// number does not fit in a machine word.
    pub in_goal: Seq<Option<usize>>,
    /// For each output port, the packets it has to send.
    pub out_goal: Seq<Option<usize>>,
    /// Which inputs are not wired or closed.
    pub closed: Seq<bool>,
    pub received: Seq<usize>,
    pub sent: Seq<usize>,
    /// The packet taken from each input in this sweep.
    pub got: Seq<Option<usize>>,
    /// The inputs whose packets have been put on an output in this sweep,
    /// in the order put.
    pub sent_ports: Seq<int>,
    pub stage: SweepStage,
}

/// The packets a port carries for the whole workload: `per_item * num_input`.
pub open spec fn sweep_goal(e: Option<PortEntry>, num_input: usize) -> Option<usize> {
    match e {
        Some(p) => if p.per_item * num_input <= usize::MAX {
            Some((p.per_item * num_input) as usize)
        } else {
            None
        },
        None => None,
    }
}

/// Whether a packet taken in a sweep is sent on: its address, row and
/// column must not be the missing mark.
pub open spec fn routable_of(got: Option<usize>, y_dim: usize) -> bool {
    match got {
        Some(d) => d != MISSING && d / y_dim != MISSING && d % y_dim != MISSING,
        None => false,
    }
}

/// Which inputs have no packet to send on.
pub open spec fn idle_of(got: Seq<Option<usize>>, y_dim: usize) -> Seq<bool> {
    Seq::new(NUM_PORTS as nat, |k: int| !routable_of(got[k], y_dim))
}

/// Nothing taken yet in a sweep.
pub open spec fn nothing_got() -> Seq<Option<usize>> {
    Seq::new(NUM_PORTS as nat, |k: int| None::<usize>)
}

impl SweepModel {
    /// The stream number of input `i`.
    pub open spec fn in_stream(self, i: int) -> usize {
        self.ports.inputs.at(port_at(i)).unwrap().stream
    }

    /// Whether output `i` counts as wired.
    pub open spec fn out_wired(self, i: int) -> bool {
        self.ports.outputs.at(port_at(i)) is Some
    }

    /// Whether the packet taken from input `i` in this sweep is sent on.
    pub open spec fn routable(self, i: int) -> bool {
        routable_of(self.got[i], self.y_dim)
    }

    /// Which inputs have no packet to send on in this sweep.
    pub open spec fn idle_inputs(self) -> Seq<bool> {
        idle_of(self.got, self.y_dim)
    }

    /// The port by which the packet taken from input `i` leaves.
    pub open spec fn out_port(self, i: int) -> Port {
        let d = self.got[i].unwrap();
        spec_route((d / self.y_dim) as nat, (d % self.y_dim) as nat, self.x as nat, self.y as nat)
    }

    /// The same router, stopped on `fault`.
    pub open spec fn fail(self, fault: Fault) -> (SweepModel, Action) {
        (SweepModel { stage: SweepStage::Failed { fault }, ..self }, Action::Fail { fault })
    }

    /// Send on the packet from the first input at `from` or later that has
    /// one; with none left, let the cycle pass.
    pub open spec fn route_from(self, from: int) -> (SweepModel, Action) {
        match first_open(self.idle_inputs(), from) {
            Some(j) => {
                let out = self.out_port(j);
                match self.ports.outputs.at(out) {
                    Some(e) => if e.stream == MISSING {
                        self.fail(Fault::NoOutputPort)
                    } else {
                        (SweepModel { stage: SweepStage::AwaitTime { port: j as usize }, ..self }, Action::Tick)
                    },
                    None => self.fail(Fault::NoOutputPort),
                }
            },
            None => (SweepModel { stage: SweepStage::AwaitCycle, ..self }, Action::IncrCycles { cycles: 1 }),
        }
    }

    /// Look at the first open input at `from` or later; with none left, start
    /// sending on.
    pub open spec fn read_from(self, from: int) -> (SweepModel, Action) {
        match first_open(self.closed, from) {
            Some(j) => (
                SweepModel { stage: SweepStage::AwaitPeek { port: j as usize }, ..self },
                Action::Peek { input: self.in_stream(j) },
            ),
            None => self.route_from(0),
        }
    }

    /// The start of a sweep: nothing taken yet; look at the first open input.
    pub open spec fn begin_sweep(self) -> (SweepModel, Action) {
        SweepModel { got: nothing_got(), sent_ports: Seq::empty(), ..self }.read_from(0)
    }

    /// Whether some port's packet count that the end of a sweep looks at does
    /// not fit in a machine word.
    pub open spec fn goal_overflows(self) -> bool {
        exists|i: int| 0 <= i < NUM_PORTS && #[trigger] self.goal_too_big(i)
    }

    /// Whether the packet count that the end of a sweep looks at for input
    /// `i` (when open) or output `i` (when wired) does not fit in a machine word.
    pub open spec fn goal_too_big(self, i: int) -> bool {
        (!self.closed[i] && self.in_goal[i] is None) || (self.out_wired(i) && self.out_goal[i] is None)
    }

    /// Whether input `i`, unless closed, has received its share, and output
    /// `i`, when wired, has sent its share.
    pub open spec fn port_done(self, i: int) -> bool {
        (!self.closed[i] ==> self.in_goal[i] == Some(self.received[i])) && (self.out_wired(i)
            ==> self.out_goal[i] == Some(self.sent[i]))
    }

    /// Whether every port has carried its share.
    pub open spec fn all_done(self) -> bool {
        forall|i: int| 0 <= i < NUM_PORTS ==> #[trigger] self.port_done(i)
    }

    /// The router's answer to `ev`: its next state and the action it asks for.
    pub open spec fn step(self, ev: Event) -> (SweepModel, Action) {
        match self.stage {
            SweepStage::Fresh => if ev is Start {
                self.begin_sweep()
            } else {
                self.fail(Fault::UnexpectedEvent)
            },
            SweepStage::AwaitPeek { port } => match ev {
                Event::Peeked { peek } => match peek {
                    Peek::Data { .. } => (
                        SweepModel { stage: SweepStage::AwaitPacket { port }, ..self },
                        Action::Dequeue { input: self.in_stream(port as int) },
                    ),
                    Peek::Empty { .. } => self.read_from(port + 1),
                    Peek::Closed => SweepModel {
                        closed: self.closed.update(port as int, true),
                        ..self
                    }.read_from(port + 1),
                },
                _ => self.fail(Fault::UnexpectedEvent),
            },
            SweepStage::AwaitPacket { port } => match ev {
                Event::Received { data } => match data {
                    None => self.fail(Fault::InputClosed),
                    Some(d) => if self.y_dim == 0 {
                        self.fail(Fault::NoColumns)
                    } else if self.received[port as int] == usize::MAX {
                        self.fail(Fault::CountOverflow)
                    } else {
                        SweepModel {
                            got: self.got.update(port as int, Some(d)),
                            received: self.received.update(
                                port as int,
                                (self.received[port as int] + 1) as usize,
                            ),
                            ..self
                        }.read_from(port + 1)
                    },
                },
                _ => self.fail(Fault::UnexpectedEvent),
            },
            SweepStage::AwaitTime { port } => match ev {
                Event::Now { time } => if time == u64::MAX {
                    self.fail(Fault::TimeOverflow)
                } else {
                    let out = self.out_port(port as int);
                    (
                        SweepModel {
                            stage: SweepStage::AwaitSent { port, out },
                            sent_ports: self.sent_ports.push(port as int),
                            ..self
                        },
                        Action::Enqueue {
                            output: self.ports.outputs.at(out).unwrap().stream,
                            time: (time + 1) as u64,
                            data: self.got[port as int].unwrap(),
                        },
                    )
                },
                _ => self.fail(Fault::UnexpectedEvent),
            },
            SweepStage::AwaitSent { port, out } => if ev is Done {
                let o = out.scan_index() as int;
                if self.sent[o] == usize::MAX {
                    self.fail(Fault::CountOverflow)
                } else {
                    SweepModel { sent: self.sent.update(o, (self.sent[o] + 1) as usize), ..self }.route_from(
                        port + 1,
                    )
                }
            } else {
                self.fail(Fault::UnexpectedEvent)
            },
            SweepStage::AwaitCycle => if ev is Done {
                if self.goal_overflows() {
                    self.fail(Fault::CountOverflow)
                } else if self.all_done() {
                    (SweepModel { stage: SweepStage::Finished, ..self }, Action::Finish)
                } else {
                    self.begin_sweep()
                }
            } else {
                self.fail(Fault::UnexpectedEvent)
            },
            SweepStage::Finished => (self, Action::Finish),
            SweepStage::Failed { fault } => (self, Action::Fail { fault }),
        }
    }

    /// The shape of the state that every step keeps.
    pub open spec fn wf(self) -> bool {
        &&& self.in_goal.len() == NUM_PORTS
        &&& self.out_goal.len() == NUM_PORTS
        &&& self.closed.len() == NUM_PORTS
        &&& self.received.len() == NUM_PORTS
        &&& self.sent.len() == NUM_PORTS
        &&& self.got.len() == NUM_PORTS
        &&& forall|i: int|
            0 <= i < NUM_PORTS && !#[trigger] self.closed[i] ==> self.ports.inputs.at(port_at(i)) is Some
        &&& self.y_dim == 0 ==> forall|i: int| 0 <= i < NUM_PORTS ==> #[trigger] self.got[i] is None
        &&& match self.stage {
            SweepStage::AwaitPeek { port } => port < NUM_PORTS && !self.closed[port as int],
            SweepStage::AwaitPacket { port } => port < NUM_PORTS && !self.closed[port as int],
            SweepStage::AwaitTime { port } => port < NUM_PORTS && self.routable(port as int)
                && self.ports.outputs.at(self.out_port(port as int)) is Some,
            SweepStage::AwaitSent { port, .. } => port < NUM_PORTS,
            _ => true,
        }
    }
}

fn sweep_goal_of(e: Option<PortEntry>, num_input: usize) -> (g: Option<usize>)
    ensures
        g == sweep_goal(e, num_input),
{
    match e {
        Some(p) => p.per_item.checked_mul(num_input),
        None => None,
    }
}

/// A sweeping router: the decisions of one router that serves all its
/// inputs once per cycle.
pub struct SweepRouter {
    ports: RouterPorts,
    x: usize,
    y: usize,
    y_dim: usize,
    in_goal: Vec<Option<usize>>,
    out_goal: Vec<Option<usize>>,
    closed: Vec<bool>,
    received: Vec<usize>,
    sent: Vec<usize>,
    got: Vec<Option<usize>>,
    sent_ports: Ghost<Seq<int>>,
    stage: SweepStage,
}

impl View for SweepRouter {
    type V = SweepModel;

    closed spec fn view(&self) -> SweepModel {
        SweepModel {
            ports: self.ports,
            x: self.x,
            y: self.y,
            y_dim: self.y_dim,
            in_goal: self.in_goal@,
            out_goal: self.out_goal@,
            closed: self.closed@,
            received: self.received@,
            sent: self.sent@,
            got: self.got@,
            sent_ports: self.sent_ports@,
            stage: self.stage,
        }
    }
}

fn nothing() -> (v: Vec<Option<usize>>)
    ensures
        v@ == nothing_got(),
{
    let v: Vec<Option<usize>> = vec![None, None, None, None, None];
    assert(v@ =~= nothing_got());
    v
}

impl SweepRouter {
    /// A router at `(x, y)` of a mesh with `y_dim` columns, wired as `ports`
    /// say, for a workload of `num_input` items.
    pub fn new(ports: RouterPorts, x: usize, y: usize, y_dim: usize, num_input: usize) -> (r: SweepRouter)
        ensures
            r@.wf(),
            r@.ports == ports,
            r@.x == x,
            r@.y == y,
            r@.y_dim == y_dim,
            forall|i: int|
                0 <= i < NUM_PORTS ==> {
                    &&& r@.in_goal[i] == sweep_goal(ports.inputs.at(port_at(i)), num_input)
                    &&& r@.out_goal[i] == sweep_goal(ports.outputs.at(port_at(i)), num_input)
                    &&& r@.closed[i] == (ports.inputs.at(port_at(i)) is None)
                    &&& r@.received[i] == 0
                    &&& r@.sent[i] == 0
                },
            r@.got == nothing_got(),
            r@.sent_ports == Seq::<int>::empty(),
            r@.stage == SweepStage::Fresh,
    {
        let mut in_goal: Vec<Option<usize>> = Vec::new();
        let mut out_goal: Vec<Option<usize>> = Vec::new();
        let mut closed: Vec<bool> = Vec::new();
        let mut i: usize = 0;
        while i < NUM_PORTS
            invariant
                i <= NUM_PORTS,
                in_goal@.len() == i,
                out_goal@.len() == i,
                closed@.len() == i,
                forall|k: int|
                    0 <= k < i ==> {
                        &&& in_goal@[k] == sweep_goal(ports.inputs.at(port_at(k)), num_input)
                        &&& out_goal@[k] == sweep_goal(ports.outputs.at(port_at(k)), num_input)
                        &&& closed@[k] == (ports.inputs.at(port_at(k)) is None)
                    },
            decreases NUM_PORTS - i,
        {
            let p = Port::at(i).unwrap();
            let e_in = ports.inputs.get(p);
            in_goal.push(sweep_goal_of(e_in, num_input));
            out_goal.push(sweep_goal_of(ports.outputs.get(p), num_input));
            closed.push(e_in.is_none());
            i = i + 1;
        }
        SweepRouter {
            ports,
            x,
            y,
            y_dim,
            in_goal,
            out_goal,
            closed,
            received: vec![0, 0, 0, 0, 0],
            sent: vec![0, 0, 0, 0, 0],
            got: nothing(),
            sent_ports: Ghost(Seq::empty()),
            stage: SweepStage::Fresh,
        }
    }

    /// Row of the router.
    pub fn x(&self) -> (v: usize)
        ensures
            v == self@.x,
    {
        self.x
    }

    /// Column of the router.
    pub fn y(&self) -> (v: usize)
        ensures
            v == self@.y,
    {
        self.y
    }

    fn fail(&mut self, fault: Fault) -> (act: Action)
        requires
            old(self)@.wf(),
        ensures
            final(self)@.wf(),
            (final(self)@, act) == old(self)@.fail(fault),
    {
        self.stage = SweepStage::Failed { fault };
        Action::Fail { fault }
    }

    fn is_routable(&self, i: usize) -> (b: bool)
        requires
            self@.wf(),
            i < NUM_PORTS,
        ensures
            b == self@.routable(i as int),
    {
        match self.got[i] {
            Some(d) => {
                if self.y_dim == 0 {
                    return false;
                }
                d != MISSING && d / self.y_dim != MISSING && d % self.y_dim != MISSING
            },
            None => false,
        }
    }

    fn route_from(&mut self, from: usize) -> (act: Action)
        requires
            old(self)@.wf(),
        ensures
            final(self)@.wf(),
            (final(self)@, act) == old(self)@.route_from(from as int),
    {
        let mut k = from;
        while k < NUM_PORTS
            invariant
                self@ == old(self)@,
                self@.wf(),
                from <= k,
                forall|j: int| from <= j < k && j < NUM_PORTS ==> self@.idle_inputs()[j],
            decreases NUM_PORTS - k,
        {
            if self.is_routable(k) {
                proof {
                    lemma_next_open_unique(self@.idle_inputs(), from as int, Some(k as int));
                }
                let d = self.got[k].unwrap();
                let out = route_address(d, self.y_dim, self.x, self.y);
                match self.ports.outputs.get(out) {
                    Some(e) => {
                        if e.stream == MISSING {
                            return self.fail(Fault::NoOutputPort);
                        }
                        self.stage = SweepStage::AwaitTime { port: k };
                        return Action::Tick;
                    },
                    None => {
                        return self.fail(Fault::NoOutputPort);
                    },
                }
            }
            k = k + 1;
        }
        proof {
            lemma_next_open_unique(self@.idle_inputs(), from as int, None);
        }
        self.stage = SweepStage::AwaitCycle;
        Action::IncrCycles { cycles: 1 }
    }

    fn read_from(&mut self, from: usize) -> (act: Action)
        requires
            old(self)@.wf(),
        ensures
            final(self)@.wf(),
            (final(self)@, act) == old(self)@.read_from(from as int),
    {
        let mut k = from;
        while k < NUM_PORTS
            invariant
                self@ == old(self)@,
                self@.wf(),
                from <= k,
                forall|j: int| from <= j < k && j < NUM_PORTS ==> self@.closed[j],
            decreases NUM_PORTS - k,
        {
            if !self.closed[k] {
                proof {
                    lemma_next_open_unique(self@.closed, from as int, Some(k as int));
                }
                let e = self.ports.inputs.get(Port::at(k).unwrap()).unwrap();
                self.stage = SweepStage::AwaitPeek { port: k };
                return Action::Peek { input: e.stream };
            }
            k = k + 1;
        }
        proof {
            lemma_next_open_unique(self@.closed, from as int, None);
        }
        self.route_from(0)
    }

    fn goal_overflows(&self) -> (b: bool)
        requires
            self@.wf(),
        ensures
            b == self@.goal_overflows(),
    {
        let mut i: usize = 0;
        while i < NUM_PORTS
            invariant
                self@.wf(),
                i <= NUM_PORTS,
                forall|j: int| 0 <= j < i ==> !#[trigger] self@.goal_too_big(j),
            decreases NUM_PORTS - i,
        {
            let p = Port::at(i).unwrap();
            let in_short = !self.closed[i] && self.in_goal[i].is_none();
            let out_short = self.ports.outputs.get(p).is_some() && self.out_goal[i].is_none();
            assert((in_short || out_short) == self@.goal_too_big(i as int));
            if in_short || out_short {
                return true;
            }
            i = i + 1;
        }
        false
    }

    fn port_finished(&self, i: usize) -> (b: bool)
        requires
            self@.wf(),
            i < NUM_PORTS,
        ensures
            b == self@.port_done(i as int),
    {
        if !self.closed[i] {
            match self.in_goal[i] {
                Some(g) => if g != self.received[i] {
                    return false;
                },
                None => {
                    return false;
                },
            }
        }
        if self.ports.outputs.get(Port::at(i).unwrap()).is_some() {
            match self.out_goal[i] {
                Some(g) => if g != self.sent[i] {
                    return false;
                },
                None => {
                    return false;
                },
            }
        }
        true
    }

    fn all_done(&self) -> (b: bool)
        requires
            self@.wf(),
        ensures
            b == self@.all_done(),
    {
        let mut i: usize = 0;
        while i < NUM_PORTS
            invariant
                self@.wf(),
                i <= NUM_PORTS,
                forall|j: int| 0 <= j < i ==> #[trigger] self@.port_done(j),
            decreases NUM_PORTS - i,
        {
            if !self.port_finished(i) {
                return false;
            }
            i = i + 1;
        }
        true
    }

    fn begin_sweep(&mut self) -> (act: Action)
        requires
            old(self)@.wf(),
        ensures
            final(self)@.wf(),
            (final(self)@, act) == old(self)@.begin_sweep(),
    {
        self.stage = SweepStage::AwaitCycle;
        self.got = nothing();
        self.sent_ports = Ghost(Seq::empty());
        self.read_from(0)
    }

    /// The router's answer to event `ev`: the next action it asks for.
    pub fn next(&mut self, ev: Event) -> (act: Action)
        requires
            old(self)@.wf(),
        ensures
            final(self)@.wf(),
            (final(self)@, act) == old(self)@.step(ev),
    {
        match self.stage {
            SweepStage::Fresh => if let Event::Start = ev {
                self.begin_sweep()
            } else {
                self.fail(Fault::UnexpectedEvent)
            },
            SweepStage::AwaitPeek { port } => match ev {
                Event::Peeked { peek } => match peek {
                    Peek::Data { .. } => {
                        let e = self.ports.inputs.get(Port::at(port).unwrap()).unwrap();
                        self.stage = SweepStage::AwaitPacket { port };
                        Action::Dequeue { input: e.stream }
                    },
                    Peek::Empty { .. } => self.read_from(port + 1),
                    Peek::Closed => {
                        self.closed.set(port, true);
                        self.stage = SweepStage::Fresh;
                        self.read_from(port + 1)
                    },
                },
                _ => self.fail(Fault::UnexpectedEvent),
            },
            SweepStage::AwaitPacket { port } => match ev {
                Event::Received { data } => match data {
                    None => self.fail(Fault::InputClosed),
                    Some(d) => {
                        if self.y_dim == 0 {
                            return self.fail(Fault::NoColumns);
                        }
                        let c = self.received[port];
                        if c == usize::MAX {
                            return self.fail(Fault::CountOverflow);
                        }
                        self.got.set(port, Some(d));
                        self.received.set(port, c + 1);
                        self.read_from(port + 1)
                    },
                },
                _ => self.fail(Fault::UnexpectedEvent),
            },
            SweepStage::AwaitTime { port } => match ev {
                Event::Now { time } => if time == u64::MAX {
                    self.fail(Fault::TimeOverflow)
                } else {
                    let d = self.got[port].unwrap();
                    let out = route_address(d, self.y_dim, self.x, self.y);
                    let e = self.ports.outputs.get(out).unwrap();
                    self.stage = SweepStage::AwaitSent { port, out };
                    self.sent_ports = Ghost(self.sent_ports@.push(port as int));
                    Action::Enqueue { output: e.stream, time: time + 1, data: d }
                },
                _ => self.fail(Fault::UnexpectedEvent),
            },
            SweepStage::AwaitSent { port, out } => if let Event::Done = ev {
                let o = out.index();
                let c = self.sent[o];
                if c == usize::MAX {
                    return self.fail(Fault::CountOverflow);
                }
                self.sent.set(o, c + 1);
                self.route_from(port + 1)
            } else {
                self.fail(Fault::UnexpectedEvent)
            },
            SweepStage::AwaitCycle => if let Event::Done = ev {
                if self.goal_overflows() {
                    self.fail(Fault::CountOverflow)
                } else if self.all_done() {
                    self.stage = SweepStage::Finished;
                    Action::Finish
                } else {
                    self.begin_sweep()
                }
            } else {
                self.fail(Fault::UnexpectedEvent)
            },
            SweepStage::Finished => Action::Finish,
            SweepStage::Failed { fault } => Action::Fail { fault },
        }
    }
}

/// A sweeping router only sends on a packet it has taken in the current
/// sweep, by the port that routing chooses for it, and it finishes only when
/// every open input and every wired output has carried its share.
pub proof fn lemma_sweep_step(m: SweepModel, ev: Event)
    requires
        m.wf(),
    ensures
        m.step(ev).1 matches Action::Enqueue { output, data, .. } ==> m.stage matches SweepStage::AwaitTime {
            port,
        } && m.got[port as int] == Some(data) && m.routable(port as int) && output == m.ports.outputs.at(
            m.out_port(port as int),
        ).unwrap().stream,
        m.step(ev).1 is Finish && !(m.stage is Finished) ==> m.step(ev).0.all_done(),
{
    if m.stage is AwaitCycle && ev is Done && !m.goal_overflows() && m.all_done() {
        let m1 = SweepModel { stage: SweepStage::Finished, ..m };
        assert forall|i: int| 0 <= i < NUM_PORTS implies #[trigger] m1.port_done(i) by {
            assert(m.port_done(i));
        }
    }
}

/// A sweeping router only looks at, and takes from, inputs that are wired.
pub proof fn lemma_sweep_inputs(m: SweepModel, ev: Event)
    requires
        m.wf(),
    ensures
        m.step(ev).1 matches Action::Peek { input } ==> exists|i: int|
            0 <= i < NUM_PORTS && m.ports.inputs.at(port_at(i)) is Some && input == #[trigger] m.in_stream(i),
        m.step(ev).1 matches Action::Dequeue { input } ==> exists|i: int|
            0 <= i < NUM_PORTS && m.ports.inputs.at(port_at(i)) is Some && input == #[trigger] m.in_stream(i),
{
    lemma_first_open(m.closed, 0);
    match m.stage {
        SweepStage::AwaitPeek { port } => {
            lemma_first_open(m.closed, port + 1);
            let closed = m.closed.update(port as int, true);
            lemma_first_open(closed, port + 1);
            if let Some(j) = first_open(closed, port + 1) {
                assert(!m.closed[j]);
            }
            if let Action::Peek { input } = m.step(ev).1 {
                if let Event::Peeked { peek } = ev {
                    if peek is Closed {
                        assert(input == m.in_stream(first_open(closed, port + 1).unwrap()));
                    } else {
                        assert(input == m.in_stream(first_open(m.closed, port + 1).unwrap()));
                    }
                }
            }
        },
        SweepStage::AwaitPacket { port } => {
            lemma_first_open(m.closed, port + 1);
            if let Action::Peek { input } = m.step(ev).1 {
                assert(input == m.in_stream(first_open(m.closed, port + 1).unwrap()));
            }
        },
        _ => {
            if let Action::Peek { input } = m.step(ev).1 {
                assert(input == m.in_stream(first_open(m.closed, 0).unwrap()));
            }
        },
    }
}

/// The inputs below `hi` whose packet taken in this sweep is sent on, in
/// the order north, south, east, west, local.
pub open spec fn routable_ports(got: Seq<Option<usize>>, y_dim: usize, hi: int) -> Seq<int>
    decreases hi,
{
    if hi <= 0 {
        seq![]
    } else if routable_of(got[hi - 1], y_dim) {
        routable_ports(got, y_dim, hi - 1).push(hi - 1)
    } else {
        routable_ports(got, y_dim, hi - 1)
    }
}

/// Inputs without a packet to send on add nothing to the list.
proof fn lemma_routable_ports_skip(got: Seq<Option<usize>>, y_dim: usize, lo: int, hi: int)
    requires
        0 <= lo <= hi,
        forall|k: int| lo <= k < hi ==> !routable_of(#[trigger] got[k], y_dim),
    ensures
        routable_ports(got, y_dim, hi) == routable_ports(got, y_dim, lo),
    decreases hi - lo,
{
    if lo < hi {
        lemma_routable_ports_skip(got, y_dim, lo, hi - 1);
    }
}

impl SweepModel {
    /// Where a sweep stands: while it reads, the inputs from the current one
    /// on have given nothing yet and nothing has been sent; while it sends,
    /// the packets sent so far are those of the inputs before the current
    /// one that have a packet to send on, in port order; when it lets the
    /// cycle pass, all of them have been sent.
    pub open spec fn sweep_ok(self) -> bool {
        match self.stage {
            SweepStage::AwaitPeek { port } => self.sent_ports == Seq::<int>::empty() && forall|k: int|
                port <= k < NUM_PORTS ==> #[trigger] self.got[k] is None,
            SweepStage::AwaitPacket { port } => self.sent_ports == Seq::<int>::empty() && forall|k: int|
                port <= k < NUM_PORTS ==> #[trigger] self.got[k] is None,
            SweepStage::AwaitTime { port } => self.sent_ports == routable_ports(self.got, self.y_dim, port as int),
            SweepStage::AwaitSent { port, .. } => self.sent_ports == routable_ports(
                self.got,
                self.y_dim,
                port + 1,
            ),
            SweepStage::AwaitCycle => self.sent_ports == routable_ports(self.got, self.y_dim, NUM_PORTS as int),
            _ => true,
        }
    }

    /// What sending on from input `from` does keeps the sweep's record.
    proof fn lemma_route_from(self, from: int)
        requires
            self.got.len() == NUM_PORTS,
            0 <= from <= NUM_PORTS,
            self.sent_ports == routable_ports(self.got, self.y_dim, from),
        ensures
            !(self.route_from(from).0.stage is Failed) ==> self.route_from(from).0.sweep_ok(),
            self.route_from(from).1 matches Action::IncrCycles { cycles } ==> cycles == 1
                && self.route_from(from).0.sent_ports == routable_ports(self.got, self.y_dim, NUM_PORTS as int),
    {
        let idle = self.idle_inputs();
        lemma_first_open(idle, from);
        match first_open(idle, from) {
            Some(j) => {
                assert forall|k: int| from <= k < j implies !routable_of(#[trigger] self.got[k], self.y_dim) by {
                    assert(idle[k]);
                }
                lemma_routable_ports_skip(self.got, self.y_dim, from, j);
            },
            None => {
                assert forall|k: int| from <= k < NUM_PORTS implies !routable_of(
                    #[trigger] self.got[k],
                    self.y_dim,
                ) by {
                    assert(idle[k]);
                }
                lemma_routable_ports_skip(self.got, self.y_dim, from, NUM_PORTS as int);
            },
        }
    }

    /// What reading from input `from` on does keeps the sweep's record.
    proof fn lemma_read_from(self, from: int)
        requires
            self.got.len() == NUM_PORTS,
            self.closed.len() == NUM_PORTS,
            0 <= from <= NUM_PORTS,
            self.sent_ports == Seq::<int>::empty(),
            forall|k: int| from <= k < NUM_PORTS ==> #[trigger] self.got[k] is None,
        ensures
            !(self.read_from(from).0.stage is Failed) ==> self.read_from(from).0.sweep_ok(),
            self.read_from(from).1 matches Action::IncrCycles { cycles } ==> cycles == 1
                && self.read_from(from).0.sent_ports == routable_ports(self.got, self.y_dim, NUM_PORTS as int),
            self.read_from(from).0.stage matches SweepStage::AwaitPeek { port } ==> port >= from,
    {
        lemma_first_open(self.closed, from);
        if first_open(self.closed, from) is None {
            assert(routable_ports(self.got, self.y_dim, 0) == Seq::<int>::empty());
            self.lemma_route_from(0);
        }
    }
}

/// One sweep of the router, step by step: it looks at its open inputs one
/// after the other in the order north, south, east, west, local, and takes
/// the packet at the head of each that shows one, each at most once per
/// sweep; then it sends the packets it took on, in the same port order,
/// each stamped one cycle after the time it reads just before; when all
/// have gone it lets exactly one cycle pass, and the next sweep starts with
/// nothing taken and nothing sent.
pub proof fn lemma_sweep_round(m: SweepModel, ev: Event)
    requires
        m.wf(),
        m.sweep_ok(),
    ensures
        !(m.step(ev).0.stage is Failed) ==> m.step(ev).0.sweep_ok(),
        m.step(ev).1 matches Action::Dequeue { input } ==> m.stage matches SweepStage::AwaitPeek { port }
            && input == m.in_stream(port as int) && m.got[port as int] is None && m.step(
            ev,
        ).0.stage == (SweepStage::AwaitPacket { port }),
        m.stage matches SweepStage::AwaitPacket { port } ==> (m.step(ev).0.stage matches SweepStage::AwaitPeek {
            port: q,
        } ==> q > port),
        m.stage matches SweepStage::AwaitPeek { port } ==> (m.step(ev).0.stage matches SweepStage::AwaitPeek {
            port: q,
        } ==> q > port),
        m.step(ev).1 matches Action::Enqueue { time, data, .. } ==> m.stage matches SweepStage::AwaitTime {
            port,
        } && ev matches Event::Now { time: now } && time == now + 1 && m.got[port as int] == Some(data)
            && m.step(ev).0.sent_ports == m.sent_ports.push(port as int),
        m.step(ev).1 matches Action::IncrCycles { cycles } ==> cycles == 1 && m.step(ev).0.sent_ports
            == routable_ports(m.step(ev).0.got, m.y_dim, NUM_PORTS as int),
{
    match m.stage {
        SweepStage::Fresh => {
            let m1 = SweepModel { got: nothing_got(), sent_ports: Seq::empty(), ..m };
            m1.lemma_read_from(0);
        },
        SweepStage::AwaitCycle => {
            let m1 = SweepModel { got: nothing_got(), sent_ports: Seq::empty(), ..m };
            m1.lemma_read_from(0);
        },
        SweepStage::AwaitPeek { port } => {
            let closed = m.closed.update(port as int, true);
            let m1 = SweepModel { closed, ..m };
            m.lemma_read_from(port + 1);
            m1.lemma_read_from(port + 1);
        },
        SweepStage::AwaitPacket { port } => {
            if let Event::Received { data: Some(d) } = ev {
                let m1 = SweepModel {
                    got: m.got.update(port as int, Some(d)),
                    received: m.received.update(port as int, (m.received[port as int] + 1) as usize),
                    ..m
                };
                if m.y_dim != 0 && m.received[port as int] != usize::MAX {
                    m1.lemma_read_from(port + 1);
                }
            }
        },
        SweepStage::AwaitTime { port } => {
            assert(routable_ports(m.got, m.y_dim, port + 1) == routable_ports(m.got, m.y_dim, port as int).push(
                port as int,
            ));
        },
        SweepStage::AwaitSent { port, out } => {
            let o = out.scan_index() as int;
            if m.sent[o] != usize::MAX {
                let m1 = SweepModel { sent: m.sent.update(o, (m.sent[o] + 1) as usize), ..m };
                m1.lemma_route_from(port + 1);
            }
        },
        _ => {},
    }
}

/// Only a look that shows an input closed for good closes it: every other
/// step leaves the set of closed inputs as it was, so an input that is
/// merely empty is looked at again in the next sweep.  Closed inputs stay
/// closed.
pub proof fn lemma_sweep_closes_only_closed(m: SweepModel, ev: Event)
    requires
        m.wf(),
    ensures
        forall|i: int|
            0 <= i < NUM_PORTS && #[trigger] m.step(ev).0.closed[i] != m.closed[i] ==> m.stage
                == (SweepStage::AwaitPeek { port: i as usize }) && ev == (Event::Peeked { peek: Peek::Closed }),
        forall|i: int| 0 <= i < NUM_PORTS && m.closed[i] ==> #[trigger] m.step(ev).0.closed[i],
        m.step(ev).0.closed.len() == m.closed.len(),
{
}

} // verus!
