//! Fixed schedules of channel operations, and the machine that carries one
//! out.
//!
//! Most units of the accelerator repeat the same few operations: take a
//! packet from some inputs, read the clock, put packets on some outputs, let
//! some cycles pass.  A [`Plan`] writes such a unit down: `rounds` rounds,
//! each made of the `head` operations, then (in every `every`-th round) the
//! `body` operations repeated `reps` times, then the `tail` operations; after
//! the last round, the `coda` operations.  A [`Script`] runs a plan one
//! operation at a time.
use crate::control::{Action, Event, Fault};
use vstd::prelude::*;

verus! {

/// Where the data of an outgoing packet comes from.
#[derive(Clone, Copy, Debug, PartialEq, Eq, Structural)]
pub enum Source {
    /// The packet last taken from input `input` in this round.
    Input { input: usize },
    /// A fixed value.
    Value { value: usize },
    /// Entry `index` of the plan's destination list.
    Dest { index: usize },
}

/// One operation of a plan.
#[derive(Clone, Copy, Debug, PartialEq, Eq, Structural)]
pub enum Op {
    /// Take the packet at the head of input `input` and keep it.
    Take { input: usize },
    /// The packet kept from input `input` must be there.
    Expect { input: usize },
    /// Read the clock.
    Tick,
    /// Put a packet on output `output`, stamped `delay` cycles after the time
    /// last read.
    Put { output: usize, delay: u64, src: Source },
    /// Let `cycles` cycles pass.
    Wait { cycles: u64 },
}

/// A schedule of operations.
pub struct Plan {
    /// Number of inputs whose packets the plan keeps.
    pub inputs: usize,
    pub rounds: usize,
    pub head: Vec<Op>,
    pub reps: usize,
    pub every: usize,
    pub body: Vec<Op>,
    pub tail: Vec<Op>,
    pub coda: Vec<Op>,
    /// The values that `Source::Dest` refers to.
    pub dests: Vec<usize>,
}

/// A plan, as a mathematical value.
pub struct PlanView {
    pub inputs: usize,
    pub rounds: usize,
    pub head: Seq<Op>,
    pub reps: usize,
    pub every: usize,
    pub body: Seq<Op>,
    pub tail: Seq<Op>,
    pub coda: Seq<Op>,
    pub dests: Seq<usize>,
}

impl View for Plan {
    type V = PlanView;

    open spec fn view(&self) -> PlanView {
        PlanView {
            inputs: self.inputs,
            rounds: self.rounds,
            head: self.head@,
            reps: self.reps,
            every: self.every,
            body: self.body@,
            tail: self.tail@,
            coda: self.coda@,
            dests: self.dests@,
        }
    }
}

/// Whether an operation only names inputs below `n`.
pub open spec fn op_ok(op: Op, n: usize) -> bool {
    match op {
        Op::Take { input } => input < n,
        Op::Expect { input } => input < n,
        Op::Put { src, .. } => src matches Source::Input { input } ==> input < n,
        _ => true,
    }
}

/// Whether every operation of `s` only names inputs below `n`.
pub open spec fn ops_ok(s: Seq<Op>, n: usize) -> bool {
    forall|i: int| 0 <= i < s.len() ==> op_ok(#[trigger] s[i], n)
}

impl PlanView {
    /// A plan that can be run: `every` is positive, every round holds an
    /// operation besides the repeated ones, and operations name only the
    /// plan's inputs.
    pub open spec fn wf(self) -> bool {
        &&& self.every > 0
        &&& self.head.len() + self.tail.len() > 0
        &&& ops_ok(self.head, self.inputs)
        &&& ops_ok(self.body, self.inputs)
        &&& ops_ok(self.tail, self.inputs)
        &&& ops_ok(self.coda, self.inputs)
    }

    /// How often the body repeats in round `r`.
    pub open spec fn reps_in(self, r: int) -> int {
        if r % (self.every as int) == 0 {
            self.reps as int
        } else {
            0
        }
    }
}

/// The part of a plan that a cursor points into.
#[derive(Clone, Copy, Debug, PartialEq, Eq, Structural)]
pub enum Segment {
    Head,
    Body,
    Tail,
    Coda,
    /// Past the last operation.
    End,
}

/// A position in a plan: operation `pc` of segment `seg` in round `round`,
/// in repetition `rep` when in the body.
#[derive(Clone, Copy, Debug, PartialEq, Eq, Structural)]
pub struct Cursor {
    pub round: usize,
    pub seg: Segment,
    pub rep: usize,
    pub pc: usize,
}

impl PlanView {
    /// The first operation of the coda, or the end when it is empty.
    pub open spec fn coda_start(self) -> Cursor {
        Cursor {
            round: self.rounds,
            seg: if self.coda.len() > 0 {
                Segment::Coda
            } else {
                Segment::End
            },
            rep: 0,
            pc: 0,
        }
    }

    /// The first operation of round `r`.
    pub open spec fn round_start(self, r: int) -> Cursor {
        if self.head.len() > 0 {
            Cursor { round: r as usize, seg: Segment::Head, rep: 0, pc: 0 }
        } else if self.reps_in(r) > 0 && self.body.len() > 0 {
            Cursor { round: r as usize, seg: Segment::Body, rep: 0, pc: 0 }
        } else {
            Cursor { round: r as usize, seg: Segment::Tail, rep: 0, pc: 0 }
        }
    }

    /// The first operation of the plan.
    pub open spec fn start(self) -> Cursor {
        if self.rounds > 0 {
            self.round_start(0)
        } else {
            self.coda_start()
        }
    }

    /// The operation after the end of round `r`.
    pub open spec fn after_round(self, r: int) -> Cursor {
        if r + 1 < self.rounds {
            self.round_start(r + 1)
        } else {
            self.coda_start()
        }
    }

    /// The operation after the repeated part of round `r`.
    pub open spec fn after_body(self, r: int) -> Cursor {
        if self.tail.len() > 0 {
            Cursor { round: r as usize, seg: Segment::Tail, rep: 0, pc: 0 }
        } else {
            self.after_round(r)
        }
    }

    /// The operation after the head of round `r`.
    pub open spec fn after_head(self, r: int) -> Cursor {
        if self.reps_in(r) > 0 && self.body.len() > 0 {
            Cursor { round: r as usize, seg: Segment::Body, rep: 0, pc: 0 }
        } else {
            self.after_body(r)
        }
    }

    /// The operation after the one at `c`.
    pub open spec fn succ(self, c: Cursor) -> Cursor {
        let r = c.round as int;
        match c.seg {
            Segment::Head => if c.pc < self.head.len() - 1 {
                Cursor { pc: (c.pc + 1) as usize, ..c }
            } else {
                self.after_head(r)
            },
            Segment::Body => if c.pc < self.body.len() - 1 {
                Cursor { pc: (c.pc + 1) as usize, ..c }
            } else if c.rep + 1 < self.reps_in(r) {
                Cursor { rep: (c.rep + 1) as usize, pc: 0, ..c }
            } else {
                self.after_body(r)
            },
            Segment::Tail => if c.pc < self.tail.len() - 1 {
                Cursor { pc: (c.pc + 1) as usize, ..c }
            } else {
                self.after_round(r)
            },
            Segment::Coda => if c.pc < self.coda.len() - 1 {
                Cursor { pc: (c.pc + 1) as usize, ..c }
            } else {
                Cursor { seg: Segment::End, pc: 0, ..c }
            },
            Segment::End => c,
        }
    }

    /// The operation at `c`; `None` past the end.
    pub open spec fn op_at(self, c: Cursor) -> Option<Op> {
        match c.seg {
            Segment::Head => Some(self.head[c.pc as int]),
            Segment::Body => Some(self.body[c.pc as int]),
            Segment::Tail => Some(self.tail[c.pc as int]),
            Segment::Coda => Some(self.coda[c.pc as int]),
            Segment::End => None,
        }
    }

    /// Whether `c` points at an operation of the plan, or past the end.
    pub open spec fn valid(self, c: Cursor) -> bool {
        match c.seg {
            Segment::Head => c.round < self.rounds && c.pc < self.head.len(),
            Segment::Body => c.round < self.rounds && c.rep < self.reps_in(c.round as int) && c.pc
                < self.body.len(),
            Segment::Tail => c.round < self.rounds && c.pc < self.tail.len(),
            Segment::Coda => c.round == self.rounds && c.pc < self.coda.len(),
            Segment::End => true,
        }
    }
}

/// What a unit keeps of the packet it took from one input in this round.
#[derive(Clone, Copy, Debug, PartialEq, Eq, Structural)]
pub enum Reg {
    /// Nothing taken yet.
    Unset,
    /// The input was closed.
    Closed,
    /// The packet's data.
    Value { data: usize },
}

/// How a script stands.
#[derive(Clone, Copy, Debug, PartialEq, Eq, Structural)]
pub enum ScriptStage {
    /// Not started yet.
    Fresh,
    /// Waits for the answer to the operation at its cursor.
    Running,
    /// Has finished.
    Finished,
    /// Has stopped on a fault.
    Failed { fault: Fault },
}

/// The state of a script.
pub struct ScriptModel {
    pub plan: PlanView,
    pub cursor: Cursor,
    /// What was kept of each input in this round.
    pub regs: Seq<Reg>,
    /// The time last read in this round.
    pub time: Option<u64>,
    pub stage: ScriptStage,
}

/// Nothing kept from any of `n` inputs.
pub open spec fn unset_regs(n: usize) -> Seq<Reg> {
    Seq::new(n as nat, |i: int| Reg::Unset)
}

impl ScriptModel {
    /// The same unit, stopped on `fault`.
    pub open spec fn fail(self, fault: Fault) -> (ScriptModel, Action) {
        (ScriptModel { stage: ScriptStage::Failed { fault }, ..self }, Action::Fail { fault })
    }

    /// The data of an outgoing packet, or the fault that prevents it.
    pub open spec fn source_value(self, src: Source) -> Result<usize, Fault> {
        match src {
            Source::Input { input } => match self.regs[input as int] {
                Reg::Value { data } => Ok(data),
                Reg::Closed => Err(Fault::InputClosed),
                Reg::Unset => Err(Fault::NoInput),
            },
            Source::Value { value } => Ok(value),
            Source::Dest { index } => if index < self.plan.dests.len() {
                Ok(self.plan.dests[index as int])
            } else {
                Err(Fault::NoOutputPort)
            },
        }
    }

    /// The script has moved to cursor `c` (with its registers as they are):
    /// the action that the operation there asks for.
    pub open spec fn arrive(self, c: Cursor) -> (ScriptModel, Action) {
        let m = ScriptModel { cursor: c, ..self };
        match self.plan.op_at(c) {
            None => (ScriptModel { stage: ScriptStage::Finished, ..m }, Action::Finish),
            Some(op) => match op {
                Op::Take { input } => (m, Action::Dequeue { input }),
                Op::Expect { input } => match self.regs[input as int] {
                    Reg::Value { .. } => (m, Action::Idle),
                    Reg::Closed => m.fail(Fault::InputClosed),
                    Reg::Unset => m.fail(Fault::NoInput),
                },
                Op::Tick => (m, Action::Tick),
                Op::Put { output, delay, src } => match self.source_value(src) {
                    Err(f) => m.fail(f),
                    Ok(data) => match self.time {
                        None => m.fail(Fault::NoTime),
                        Some(t) => if t + delay > u64::MAX {
                            m.fail(Fault::TimeOverflow)
                        } else {
                            (m, Action::Enqueue { output, time: (t + delay) as u64, data })
                        },
                    },
                },
                Op::Wait { cycles } => (m, Action::IncrCycles { cycles }),
            },
        }
    }

    /// Move on to the operation after the current one; a new round starts
    /// with nothing kept.
    pub open spec fn move_on(self) -> (ScriptModel, Action) {
        let c = self.plan.succ(self.cursor);
        if c.round != self.cursor.round {
            ScriptModel { regs: unset_regs(self.plan.inputs), time: None, ..self }.arrive(c)
        } else {
            self.arrive(c)
        }
    }

    /// The script's answer to `ev`: its next state and the action it asks for.
    pub open spec fn step(self, ev: Event) -> (ScriptModel, Action) {
        match self.stage {
            ScriptStage::Fresh => if ev is Start {
                ScriptModel { stage: ScriptStage::Running, ..self }.arrive(self.plan.start())
            } else {
                self.fail(Fault::UnexpectedEvent)
            },
            ScriptStage::Running => match self.plan.op_at(self.cursor) {
                Some(Op::Take { input }) => match ev {
                    Event::Received { data } => ScriptModel {
                        regs: self.regs.update(
                            input as int,
                            match data {
                                Some(d) => Reg::Value { data: d },
                                None => Reg::Closed,
                            },
                        ),
                        ..self
                    }.move_on(),
                    _ => self.fail(Fault::UnexpectedEvent),
                },
                Some(Op::Tick) => match ev {
                    Event::Now { time } => ScriptModel { time: Some(time), ..self }.move_on(),
                    _ => self.fail(Fault::UnexpectedEvent),
                },
                _ => if ev is Done {
                    self.move_on()
                } else {
                    self.fail(Fault::UnexpectedEvent)
                },
            },
            ScriptStage::Finished => (self, Action::Finish),
            ScriptStage::Failed { fault } => (self, Action::Fail { fault }),
        }
    }

    /// The shape of a unit's state that every step keeps: a runnable plan,
    /// a cursor into it, and a register for each of its inputs.
    pub open spec fn wf(self) -> bool {
        &&& self.plan.wf()
        &&& self.plan.valid(self.cursor)
        &&& self.regs.len() == self.plan.inputs
    }
}

/// The operation after a valid position of a runnable plan is again a valid
/// position, and so is the first one.
proof fn lemma_succ_valid(p: PlanView, c: Cursor)
    requires
        p.wf(),
        p.valid(c),
    ensures
        p.valid(p.succ(c)),
        p.valid(p.start()),
{
}

/// The operation at a valid position, when there is one, names only inputs
/// of the plan.
proof fn lemma_op_at_ok(p: PlanView, c: Cursor)
    requires
        p.wf(),
        p.valid(c),
    ensures
        p.op_at(c) matches Some(op) ==> op_ok(op, p.inputs),
{
    match c.seg {
        Segment::Head => assert(op_ok(p.head[c.pc as int], p.inputs)),
        Segment::Body => assert(op_ok(p.body[c.pc as int], p.inputs)),
        Segment::Tail => assert(op_ok(p.tail[c.pc as int], p.inputs)),
        Segment::Coda => assert(op_ok(p.coda[c.pc as int], p.inputs)),
        Segment::End => {},
    }
}

/// Every step of a unit keeps its state well formed, and a unit only asks
/// for packets from the inputs its plan has.
pub proof fn lemma_script_step(m: ScriptModel, ev: Event)
    requires
        m.wf(),
    ensures
        m.step(ev).0.wf(),
        m.step(ev).1 matches Action::Dequeue { input } ==> input < m.plan.inputs,
{
    lemma_succ_valid(m.plan, m.cursor);
    let c = m.plan.succ(m.cursor);
    lemma_op_at_ok(m.plan, c);
    lemma_op_at_ok(m.plan, m.plan.start());
    lemma_op_at_ok(m.plan, m.cursor);
}

/// Reading the clock keeps the time read: once a `Tick` is answered with
/// `time`, the unit's time is `time` for the rest of the round (a new round
/// starts with none), and a `Put` that follows at once asks for its packet
/// to be stamped `delay` cycles after `time`.
pub proof fn lemma_tick_reads_clock(m: ScriptModel, time: u64)
    requires
        m.stage is Running,
        m.plan.op_at(m.cursor) == Some(Op::Tick),
    ensures
        ({
            let (n, act) = m.step(Event::Now { time });
            let c = m.plan.succ(m.cursor);
            &&& n.cursor == c
            &&& n.time == if c.round == m.cursor.round {
                Some(time)
            } else {
                None::<u64>
            }
            &&& c.round == m.cursor.round ==> match m.plan.op_at(c) {
                Some(Op::Put { output, delay, src }) => match m.source_value(src) {
                    Ok(data) => if time + delay <= u64::MAX {
                        act == Action::Enqueue { output, time: (time + delay) as u64, data }
                    } else {
                        act == Action::Fail { fault: Fault::TimeOverflow }
                    },
                    Err(f) => act == Action::Fail { fault: f },
                },
                _ => true,
            }
        }),
{
}

/// A packet is stamped from the clock: every `Enqueue` a unit asks for is
/// that of the `Put` it now stands at, at its `delay` after the unit's time,
/// and within a round only an answered `Tick` changes that time (a new
/// round starts with none).
pub proof fn lemma_stamps_follow_clock(m: ScriptModel, ev: Event)
    ensures
        ({
            let (n, act) = m.step(ev);
            &&& act matches Action::Enqueue { output, time: t, data } ==> {
                &&& n.plan.op_at(n.cursor) matches Some(Op::Put { output: o, delay, src })
                    && o == output && n.source_value(src) == Ok::<usize, Fault>(data)
                    && (n.time matches Some(t0) && t == t0 + delay)
            }
            &&& m.stage is Running ==> n.time == if n.cursor.round != m.cursor.round {
                None::<u64>
            } else if m.plan.op_at(m.cursor) == Some(Op::Tick) && ev is Now {
                Some(ev->time)
            } else {
                m.time
            }
        }),
{
}

/// Whether every packet that the operations `s` put out carries the data
/// of input 0, a fixed value or a destination entry: never the data of
/// another input.
pub open spec fn puts_only_first(s: Seq<Op>) -> bool {
    forall|i: int|
        0 <= i < s.len() ==> match #[trigger] s[i] {
            Op::Put { src: Source::Input { input }, .. } => input == 0,
            _ => true,
        }
}

impl PlanView {
    /// Whether no operation of the plan puts out the data of an input other
    /// than the first.
    pub open spec fn forwards_only_first(self) -> bool {
        &&& puts_only_first(self.head)
        &&& puts_only_first(self.body)
        &&& puts_only_first(self.tail)
        &&& puts_only_first(self.coda)
    }
}

/// Whether two registers hold the same kind of content: nothing, a closed
/// input, or a packet (whatever its data).
pub open spec fn same_kind(a: Reg, b: Reg) -> bool {
    match (a, b) {
        (Reg::Unset, Reg::Unset) => true,
        (Reg::Closed, Reg::Closed) => true,
        (Reg::Value { .. }, Reg::Value { .. }) => true,
        _ => false,
    }
}

/// Whether two states of a unit differ at most in the data kept from inputs
/// other than the first.
pub open spec fn agree_but_late_data(a: ScriptModel, b: ScriptModel) -> bool {
    &&& a.plan == b.plan
    &&& a.cursor == b.cursor
    &&& a.time == b.time
    &&& a.stage == b.stage
    &&& a.regs.len() == b.regs.len()
    &&& a.regs.len() > 0 ==> a.regs[0] == b.regs[0]
    &&& forall|j: int| 0 <= j < a.regs.len() ==> same_kind(#[trigger] a.regs[j], b.regs[j])
}

/// Whether the answers `e1` and `e2` to the state `m` are equal, or are the
/// packets of an input other than the first that `m` waits for, both there
/// or both missing (whatever their data).
pub open spec fn agree_but_late_event(m: ScriptModel, e1: Event, e2: Event) -> bool {
    ||| e1 == e2
    ||| {
        &&& m.stage is Running
        &&& m.plan.op_at(m.cursor) matches Some(Op::Take { input }) && input != 0
        &&& e1 matches Event::Received { data: d1 }
        &&& e2 matches Event::Received { data: d2 }
        &&& (e1->data is Some <==> e2->data is Some)
    }
}

/// The operation at a valid position of a plan that forwards only its first
/// input's data puts out no other input's data.
proof fn lemma_op_at_first(p: PlanView, c: Cursor)
    requires
        p.forwards_only_first(),
        p.valid(c),
    ensures
        p.op_at(c) matches Some(Op::Put { src: Source::Input { input }, .. }) ==> input == 0,
{
    match c.seg {
        Segment::Head => assert(p.op_at(c) == Some(p.head[c.pc as int])),
        Segment::Body => assert(p.op_at(c) == Some(p.body[c.pc as int])),
        Segment::Tail => assert(p.op_at(c) == Some(p.tail[c.pc as int])),
        Segment::Coda => assert(p.op_at(c) == Some(p.coda[c.pc as int])),
        Segment::End => {},
    }
}

/// Arriving at the same position from two states that differ only in the
/// data kept from inputs other than the first asks for the same action.
proof fn lemma_arrive_late_data(a: ScriptModel, b: ScriptModel, c: Cursor)
    requires
        a.wf(),
        agree_but_late_data(a, b),
        a.plan.forwards_only_first(),
        a.plan.valid(c),
    ensures
        a.arrive(c).1 == b.arrive(c).1,
        agree_but_late_data(a.arrive(c).0, b.arrive(c).0),
{
    lemma_op_at_first(a.plan, c);
    lemma_op_at_ok(a.plan, c);
    if let Some(op) = a.plan.op_at(c) {
        match op {
            Op::Expect { input } => {
                assert(same_kind(a.regs[input as int], b.regs[input as int]));
            },
            _ => {},
        }
    }
}

/// What a unit that forwards only its first input's data does never depends
/// on the data of its other inputs: from two states that differ only there,
/// given answers that differ only there, it asks for the same action and
/// the two states again differ only there.  Run after run, the unit then
/// puts out the same packets, at the same times.
pub proof fn lemma_late_data_unseen(a: ScriptModel, b: ScriptModel, e1: Event, e2: Event)
    requires
        a.wf(),
        agree_but_late_data(a, b),
        a.plan.forwards_only_first(),
        agree_but_late_event(a, e1, e2),
    ensures
        a.step(e1).1 == b.step(e2).1,
        agree_but_late_data(a.step(e1).0, b.step(e2).0),
{
    lemma_succ_valid(a.plan, a.cursor);
    lemma_op_at_ok(a.plan, a.cursor);
    let c = a.plan.succ(a.cursor);
    match a.stage {
        ScriptStage::Fresh => {
            if e1 is Start {
                let a1 = ScriptModel { stage: ScriptStage::Running, ..a };
                let b1 = ScriptModel { stage: ScriptStage::Running, ..b };
                lemma_arrive_late_data(a1, b1, a.plan.start());
            }
        },
        ScriptStage::Running => {
            let (a1, b1) = match a.plan.op_at(a.cursor) {
                Some(Op::Take { input }) => match (e1, e2) {
                    (Event::Received { data: d1 }, Event::Received { data: d2 }) => (
                        ScriptModel {
                            regs: a.regs.update(
                                input as int,
                                match d1 {
                                    Some(d) => Reg::Value { data: d },
                                    None => Reg::Closed,
                                },
                            ),
                            ..a
                        },
                        ScriptModel {
                            regs: b.regs.update(
                                input as int,
                                match d2 {
                                    Some(d) => Reg::Value { data: d },
                                    None => Reg::Closed,
                                },
                            ),
                            ..b
                        },
                    ),
                    _ => (a, b),
                },
                Some(Op::Tick) => match e1 {
                    Event::Now { time } => (ScriptModel { time: Some(time), ..a }, ScriptModel { time: Some(time), ..b }),
                    _ => (a, b),
                },
                _ => (a, b),
            };
            assert(agree_but_late_data(a1, b1)) by {
                if let Some(Op::Take { input }) = a.plan.op_at(a.cursor) {
                    assert forall|j: int| 0 <= j < a1.regs.len() implies same_kind(#[trigger] a1.regs[j], b1.regs[j]) by {
                        if j != input {
                            assert(same_kind(a.regs[j], b.regs[j]));
                        }
                    }
                }
            }
            if c.round != a.cursor.round {
                let a2 = ScriptModel { regs: unset_regs(a.plan.inputs), time: None, ..a1 };
                let b2 = ScriptModel { regs: unset_regs(a.plan.inputs), time: None, ..b1 };
                assert(a2.wf());
                lemma_arrive_late_data(a2, b2, c);
            } else {
                assert(a1.wf());
                lemma_arrive_late_data(a1, b1, c);
            }
        },
        _ => {},
    }
}

/// A unit that carries out a plan.
pub struct Script {
    plan: Plan,
    cursor: Cursor,
    regs: Vec<Reg>,
    time: Option<u64>,
    stage: ScriptStage,
}

impl View for Script {
    type V = ScriptModel;

    closed spec fn view(&self) -> ScriptModel {
        ScriptModel {
            plan: self.plan@,
            cursor: self.cursor,
            regs: self.regs@,
            time: self.time,
            stage: self.stage,
        }
    }
}

fn unset(n: usize) -> (v: Vec<Reg>)
    ensures
        v@ == unset_regs(n),
{
    let mut v: Vec<Reg> = Vec::new();
    let mut i: usize = 0;
    while i < n
        invariant
            i <= n,
            v@.len() == i,
            forall|k: int| 0 <= k < i ==> v@[k] == Reg::Unset,
        decreases n - i,
    {
        v.push(Reg::Unset);
        i = i + 1;
    }
    assert(v@ =~= unset_regs(n));
    v
}

/// Whether `op` only names inputs below `n`, as [`op_ok`] says.
fn check_op(op: Op, n: usize) -> (b: bool)
    ensures
        b == op_ok(op, n),
{
    match op {
        Op::Take { input } => input < n,
        Op::Expect { input } => input < n,
        Op::Put { src, .. } => match src {
            Source::Input { input } => input < n,
            _ => true,
        },
        _ => true,
    }
}

/// Whether every operation of `ops` only names inputs below `n`.
fn check_ops(ops: &Vec<Op>, n: usize) -> (b: bool)
    ensures
        b == ops_ok(ops@, n),
{
    let mut i: usize = 0;
    while i < ops.len()
        invariant
            i <= ops@.len(),
            forall|j: int| 0 <= j < i ==> op_ok(#[trigger] ops@[j], n),
        decreases ops@.len() - i,
    {
        if !check_op(ops[i], n) {
            return false;
        }
        i = i + 1;
    }
    true
}

impl Plan {
    /// Whether the plan can be run, as [`PlanView::wf`] says.
    pub fn runnable(&self) -> (b: bool)
        ensures
            b == self@.wf(),
    {
        self.every > 0 && (self.head.len() > 0 || self.tail.len() > 0) && check_ops(&self.head, self.inputs)
            && check_ops(&self.body, self.inputs) && check_ops(&self.tail, self.inputs) && check_ops(
            &self.coda,
            self.inputs,
        )
    }

    fn reps_in(&self, r: usize) -> (n: usize)
        requires
            self@.every > 0,
        ensures
            n == self@.reps_in(r as int),
    {
        if r % self.every == 0 {
            self.reps
        } else {
            0
        }
    }

    fn coda_start(&self) -> (c: Cursor)
        ensures
            c == self@.coda_start(),
    {
        Cursor {
            round: self.rounds,
            seg: if self.coda.len() > 0 {
                Segment::Coda
            } else {
                Segment::End
            },
            rep: 0,
            pc: 0,
        }
    }

    fn round_start(&self, r: usize) -> (c: Cursor)
        requires
            self@.every > 0,
        ensures
            c == self@.round_start(r as int),
    {
        if self.head.len() > 0 {
            Cursor { round: r, seg: Segment::Head, rep: 0, pc: 0 }
        } else if self.reps_in(r) > 0 && self.body.len() > 0 {
            Cursor { round: r, seg: Segment::Body, rep: 0, pc: 0 }
        } else {
            Cursor { round: r, seg: Segment::Tail, rep: 0, pc: 0 }
        }
    }

    fn after_round(&self, r: usize) -> (c: Cursor)
        requires
            self@.every > 0,
            r < self@.rounds,
        ensures
            c == self@.after_round(r as int),
    {
        if r + 1 < self.rounds {
            self.round_start(r + 1)
        } else {
            self.coda_start()
        }
    }

    fn after_body(&self, r: usize) -> (c: Cursor)
        requires
            self@.every > 0,
            r < self@.rounds,
        ensures
            c == self@.after_body(r as int),
    {
        if self.tail.len() > 0 {
            Cursor { round: r, seg: Segment::Tail, rep: 0, pc: 0 }
        } else {
            self.after_round(r)
        }
    }

    fn succ(&self, c: Cursor) -> (d: Cursor)
        requires
            self@.wf(),
            self@.valid(c),
        ensures
            d == self@.succ(c),
            self@.valid(d),
    {
        let r = c.round;
        match c.seg {
            Segment::Head => if c.pc < self.head.len() - 1 {
                Cursor { pc: c.pc + 1, ..c }
            } else if self.reps_in(r) > 0 && self.body.len() > 0 {
                Cursor { round: r, seg: Segment::Body, rep: 0, pc: 0 }
            } else {
                self.after_body(r)
            },
            Segment::Body => if c.pc < self.body.len() - 1 {
                Cursor { pc: c.pc + 1, ..c }
            } else if c.rep + 1 < self.reps_in(r) {
                Cursor { rep: c.rep + 1, pc: 0, ..c }
            } else {
                self.after_body(r)
            },
            Segment::Tail => if c.pc < self.tail.len() - 1 {
                Cursor { pc: c.pc + 1, ..c }
            } else {
                self.after_round(r)
            },
            Segment::Coda => if c.pc < self.coda.len() - 1 {
                Cursor { pc: c.pc + 1, ..c }
            } else {
                Cursor { seg: Segment::End, pc: 0, ..c }
            },
            Segment::End => c,
        }
    }

    fn op_at(&self, c: Cursor) -> (op: Option<Op>)
        requires
            self@.valid(c),
        ensures
            op == self@.op_at(c),
    {
        match c.seg {
            Segment::Head => Some(self.head[c.pc]),
            Segment::Body => Some(self.body[c.pc]),
            Segment::Tail => Some(self.tail[c.pc]),
            Segment::Coda => Some(self.coda[c.pc]),
            Segment::End => None,
        }
    }
}

impl Script {
    /// A unit that will carry out `plan`.
    pub fn new(plan: Plan) -> (s: Script)
        requires
            plan@.wf(),
        ensures
            s@.wf(),
            s@.plan == plan@,
            s@.stage == ScriptStage::Fresh,
            s@.regs == unset_regs(plan@.inputs),
            s@.time is None,
    {
        let regs = unset(plan.inputs);
        let cursor = Cursor { round: 0, seg: Segment::End, rep: 0, pc: 0 };
        Script { plan, cursor, regs, time: None, stage: ScriptStage::Fresh }
    }

    fn fail(&mut self, fault: Fault) -> (act: Action)
        requires
            old(self)@.wf(),
        ensures
            final(self)@.wf(),
            (final(self)@, act) == old(self)@.fail(fault),
    {
        self.stage = ScriptStage::Failed { fault };
        Action::Fail { fault }
    }

    fn source_value(&self, src: Source) -> (r: Result<usize, Fault>)
        requires
            self@.wf(),
            src matches Source::Input { input } ==> input < self@.plan.inputs,
        ensures
            r == self@.source_value(src),
    {
        match src {
            Source::Input { input } => match self.regs[input] {
                Reg::Value { data } => Ok(data),
                Reg::Closed => Err(Fault::InputClosed),
                Reg::Unset => Err(Fault::NoInput),
            },
            Source::Value { value } => Ok(value),
            Source::Dest { index } => if index < self.plan.dests.len() {
                Ok(self.plan.dests[index])
            } else {
                Err(Fault::NoOutputPort)
            },
        }
    }

    fn arrive(&mut self, c: Cursor) -> (act: Action)
        requires
            old(self)@.wf(),
            old(self)@.plan.valid(c),
            !(old(self)@.stage is Fresh),
        ensures
            final(self)@.wf(),
            (final(self)@, act) == old(self)@.arrive(c),
    {
        self.cursor = c;
        match self.plan.op_at(c) {
            None => {
                self.stage = ScriptStage::Finished;
                Action::Finish
            },
            Some(op) => {
                proof {
                    let s = if c.seg == Segment::Head {
                        self@.plan.head
                    } else if c.seg == Segment::Body {
                        self@.plan.body
                    } else if c.seg == Segment::Tail {
                        self@.plan.tail
                    } else {
                        self@.plan.coda
                    };
                    assert(op == s[c.pc as int]);
                    assert(op_ok(op, self@.plan.inputs));
                }
                match op {
                    Op::Take { input } => Action::Dequeue { input },
                    Op::Expect { input } => match self.regs[input] {
                        Reg::Value { .. } => Action::Idle,
                        Reg::Closed => self.fail(Fault::InputClosed),
                        Reg::Unset => self.fail(Fault::NoInput),
                    },
                    Op::Tick => Action::Tick,
                    Op::Put { output, delay, src } => match self.source_value(src) {
                        Err(f) => self.fail(f),
                        Ok(data) => match self.time {
                            None => self.fail(Fault::NoTime),
                            Some(t) => if t > u64::MAX - delay {
                                self.fail(Fault::TimeOverflow)
                            } else {
                                Action::Enqueue { output, time: t + delay, data }
                            },
                        },
                    },
                    Op::Wait { cycles } => Action::IncrCycles { cycles },
                }
            },
        }
    }

    fn move_on(&mut self) -> (act: Action)
        requires
            old(self)@.wf(),
            !(old(self)@.stage is Fresh),
        ensures
            final(self)@.wf(),
            (final(self)@, act) == old(self)@.move_on(),
    {
        let c = self.plan.succ(self.cursor);
        if c.round != self.cursor.round {
            self.regs = unset(self.plan.inputs);
            self.time = None;
        }
        self.arrive(c)
    }

    /// The unit's answer to event `ev`: the next action it asks for.
    pub fn next(&mut self, ev: Event) -> (act: Action)
        requires
            old(self)@.wf(),
        ensures
            final(self)@.wf(),
            (final(self)@, act) == old(self)@.step(ev),
    {
        match self.stage {
            ScriptStage::Fresh => if let Event::Start = ev {
                self.stage = ScriptStage::Running;
                let c = if self.plan.rounds > 0 {
                    self.plan.round_start(0)
                } else {
                    self.plan.coda_start()
                };
                self.arrive(c)
            } else {
                self.fail(Fault::UnexpectedEvent)
            },
            ScriptStage::Running => match self.plan.op_at(self.cursor) {
                Some(Op::Take { input }) => match ev {
                    Event::Received { data } => {
                        let reg = match data {
                            Some(d) => Reg::Value { data: d },
                            None => Reg::Closed,
                        };
                        self.regs.set(input, reg);
                        self.move_on()
                    },
                    _ => self.fail(Fault::UnexpectedEvent),
                },
                Some(Op::Tick) => match ev {
                    Event::Now { time } => {
                        self.time = Some(time);
                        self.move_on()
                    },
                    _ => self.fail(Fault::UnexpectedEvent),
                },
                _ => if let Event::Done = ev {
                    self.move_on()
                } else {
                    self.fail(Fault::UnexpectedEvent)
                },
            },
            ScriptStage::Finished => Action::Finish,
            ScriptStage::Failed { fault } => Action::Fail { fault },
        }
    }
}

} // verus!
