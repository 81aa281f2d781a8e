use std::collections::VecDeque;

use noc_sim::control::{Action, Event, Fault, Peek};
use noc_sim::script::{Op, Plan, Script, Source};
use noc_sim::units::{
    crossing_plan, from_router_plan, kernel_multi_in_out_plan, kernel_plan, pass_through_plan, pmu_downstream_plan,
    pmu_upstream_plan, read_address_plan, simd_downstream_plan, simd_upstream_plan, systolic_downstream_plan,
    systolic_upstream_plan, to_router_plan,
};

/// What running a plan against prepared input channels gave.
struct Outcome {
    outputs: Vec<Vec<(u64, usize)>>,
    clock: u64,
    finished: bool,
    fault: Option<Fault>,
}

/// Runs a plan whose input channels already hold all their packets (and are
/// closed once empty) and whose output channels take every packet.
fn run_plan(plan: Plan, inputs: Vec<Vec<(u64, usize)>>, outputs: usize) -> Outcome {
    assert!(plan.runnable());
    let mut script = Script::new(plan);
    let mut inputs: Vec<VecDeque<(u64, usize)>> = inputs.into_iter().map(|v| v.into_iter().collect()).collect();
    let mut out = vec![Vec::new(); outputs];
    let mut clock: u64 = 0;
    let mut ev = Event::Start;
    for _ in 0..1_000_000 {
        ev = match script.next(ev) {
            Action::Peek { input } => match inputs[input].front() {
                Some(&(time, data)) => Event::Peeked { peek: Peek::Data { time, data } },
                None => Event::Peeked { peek: Peek::Closed },
            },
            Action::Dequeue { input } => match inputs[input].pop_front() {
                Some((time, data)) => {
                    clock = clock.max(time);
                    Event::Received { data: Some(data) }
                }
                None => Event::Received { data: None },
            },
            Action::Tick => Event::Now { time: clock },
            Action::Enqueue { output, time, data } => {
                out[output].push((time, data));
                Event::Done
            }
            Action::IncrCycles { cycles } => {
                clock += cycles;
                Event::Done
            }
            Action::AdvanceTo { time } => {
                clock = clock.max(time);
                Event::Done
            }
            Action::Idle => Event::Done,
            Action::Finish => return Outcome { outputs: out, clock, finished: true, fault: None },
            Action::Fail { fault } => return Outcome { outputs: out, clock, finished: false, fault: Some(fault) },
        };
    }
    Outcome { outputs: out, clock, finished: false, fault: None }
}

fn at_zero(data: &[usize]) -> Vec<(u64, usize)> {
    data.iter().map(|&d| (0, d)).collect()
}

#[test]
fn kernel_stamps_latency_and_waits_interval() {
    let out = run_plan(kernel_plan(5, 2, 3), vec![at_zero(&[10, 11, 12])], 1);
    assert!(out.finished);
    assert_eq!(out.outputs[0], vec![(5, 10), (7, 11), (9, 12)]);
    assert_eq!(out.clock, 6);
}

#[test]
fn kernel_waits_for_late_packets() {
    let out = run_plan(kernel_plan(1, 1, 2), vec![vec![(10, 3), (11, 4)]], 1);
    assert_eq!(out.outputs[0], vec![(11, 3), (12, 4)]);
    assert_eq!(out.clock, 12);
}

#[test]
fn kernel_on_closed_input_fails() {
    let out = run_plan(kernel_plan(1, 1, 3), vec![at_zero(&[1])], 1);
    assert_eq!(out.fault, Some(Fault::InputClosed));
    assert_eq!(out.outputs[0], vec![(1, 1)]);
}

#[test]
fn kernel_multi_in_out_copies_first_input() {
    let out = run_plan(kernel_multi_in_out_plan(2, 3, 4, 1, 2), vec![at_zero(&[1, 2]), at_zero(&[7, 8])], 3);
    assert!(out.finished);
    for o in &out.outputs {
        assert_eq!(o, &vec![(4, 1), (5, 2)]);
    }
}

#[test]
fn kernel_multi_in_out_without_inputs_fails() {
    let out = run_plan(kernel_multi_in_out_plan(0, 1, 1, 1, 1), vec![vec![]], 1);
    assert_eq!(out.fault, Some(Fault::NoInput));
}

#[test]
fn simd_upstream_repeats_m_k_n_times() {
    let out = run_plan(simd_upstream_plan(2, 2, 1, 2, 1).unwrap(), vec![at_zero(&[7, 8]), at_zero(&[1, 1])], 1);
    assert!(out.finished);
    assert_eq!(out.outputs[0], vec![(1, 7), (1, 7), (1, 8), (1, 8)]);
    assert_eq!(out.clock, 1);
}

#[test]
fn upstream_overflow_is_refused() {
    assert_eq!(simd_upstream_plan(1, 1, usize::MAX, 2, 1).err(), Some(Fault::CountOverflow));
    assert_eq!(systolic_upstream_plan(1, 1, usize::MAX, 2, 1).err(), Some(Fault::CountOverflow));
    assert_eq!(simd_downstream_plan(1, vec![0], 2, usize::MAX, 1, 1).err(), Some(Fault::CountOverflow));
    assert_eq!(systolic_downstream_plan(1, vec![0], 2, usize::MAX, 1, 1).err(), Some(Fault::CountOverflow));
    assert_eq!(pmu_downstream_plan(1, vec![0], 2, usize::MAX).err(), Some(Fault::CountOverflow));
    assert_eq!(read_address_plan(usize::MAX, 2).err(), Some(Fault::CountOverflow));
}

#[test]
fn systolic_upstream_feeds_lane_and_stage() {
    let p = systolic_upstream_plan(1, 1, 1, 1, 1).unwrap();
    let out = run_plan(p, vec![at_zero(&[9])], 2);
    assert!(out.finished, "fault {:?}", out.fault);
    assert_eq!(out.outputs[0], vec![(1, 9)]);
    assert_eq!(out.outputs[1], vec![(1, 9)]);
    assert_eq!(out.clock, 1);
}

#[test]
fn pmu_upstream_writes_address_and_data() {
    let out = run_plan(pmu_upstream_plan(1, 2, 2), vec![at_zero(&[5, 6])], 2);
    assert!(out.finished);
    assert_eq!(out.outputs[0], vec![(1, 0), (1, 0), (1, 0), (1, 0)]);
    assert_eq!(out.outputs[1], vec![(1, 5), (1, 5), (1, 6), (1, 6)]);
}

#[test]
fn simd_downstream_announces_once_per_item() {
    // m * k * n = 2 results per item, 2 items: 4 results; addresses with the first of each item
    let p = simd_downstream_plan(2, vec![30, 31], 2, 1, 2, 1).unwrap();
    let out = run_plan(p, vec![at_zero(&[0, 0, 0, 0])], 2);
    assert!(out.finished);
    assert_eq!(out.outputs[0], vec![(1, 30), (1, 30)]);
    assert_eq!(out.outputs[1], vec![(1, 31), (1, 31)]);
    assert_eq!(out.clock, 1);
}

#[test]
fn systolic_downstream_takes_pairs() {
    let p = systolic_downstream_plan(1, vec![12], 1, 1, 1, 1).unwrap();
    let out = run_plan(p, vec![at_zero(&[0]), vec![]], 1);
    assert!(out.finished);
    assert_eq!(out.outputs[0], vec![(1, 12)]);
}

#[test]
fn downstream_with_too_few_destinations_fails() {
    let p = pmu_downstream_plan(2, vec![4], 1, 1).unwrap();
    let out = run_plan(p, vec![at_zero(&[0])], 2);
    assert_eq!(out.fault, Some(Fault::NoOutputPort));
    assert_eq!(out.outputs[0], vec![(1, 4)]);
}

#[test]
fn pmu_downstream_announces_every_counter_results() {
    let p = pmu_downstream_plan(1, vec![8], 2, 3).unwrap();
    let out = run_plan(p, vec![at_zero(&[0; 6])], 1);
    assert!(out.finished);
    assert_eq!(out.outputs[0], vec![(1, 8), (1, 8)]);
}

#[test]
fn read_addresses_follow_acknowledgements() {
    let acks: Vec<(u64, usize)> = (0..6).map(|t| (t as u64, 1)).collect();
    let out = run_plan(read_address_plan(2, 3).unwrap(), vec![acks], 1);
    assert!(out.finished);
    assert_eq!(out.outputs[0], (0..6).map(|t| (t as u64, 0)).collect::<Vec<_>>());
}

#[test]
fn pass_through_keeps_lanes_apart() {
    let out = run_plan(pass_through_plan(2, 2), vec![at_zero(&[1, 2]), at_zero(&[3, 4])], 2);
    assert!(out.finished);
    assert_eq!(out.outputs[0], vec![(1, 1), (2, 2)]);
    assert_eq!(out.outputs[1], vec![(1, 3), (2, 4)]);
    assert_eq!(out.clock, 2);
}

#[test]
fn crossing_swaps_opposite_sides() {
    let inputs = vec![at_zero(&[1]), at_zero(&[2]), at_zero(&[3]), at_zero(&[4]), at_zero(&[5])];
    let out = run_plan(crossing_plan(1, 1), inputs, 4);
    assert!(out.finished);
    assert_eq!(out.outputs, vec![vec![(1, 2)], vec![(1, 1)], vec![(1, 4)], vec![(1, 3)]]);
}

#[test]
fn crossing_needs_every_input() {
    let inputs = vec![at_zero(&[1]), vec![], at_zero(&[3]), at_zero(&[4])];
    let out = run_plan(crossing_plan(0, 1), inputs, 4);
    assert_eq!(out.fault, Some(Fault::InputClosed));
}

#[test]
fn to_router_gathers_inputs_in_turn() {
    let out = run_plan(to_router_plan(2, 2), vec![at_zero(&[1, 2]), at_zero(&[3, 4])], 1);
    assert!(out.finished);
    assert_eq!(out.outputs[0], vec![(0, 1), (0, 3), (1, 2), (1, 4)]);
}

#[test]
fn from_router_scatters_to_outputs() {
    let out = run_plan(from_router_plan(2, 2), vec![at_zero(&[1, 2, 3, 4])], 2);
    assert!(out.finished);
    assert_eq!(out.outputs[0], vec![(0, 1), (1, 3)]);
    assert_eq!(out.outputs[1], vec![(0, 2), (1, 4)]);
}

#[test]
fn hand_written_plan_runs() {
    let plan = Plan {
        inputs: 1,
        rounds: 2,
        head: vec![Op::Take { input: 0 }, Op::Tick],
        reps: 2,
        every: 2,
        body: vec![Op::Put { output: 0, delay: 3, src: Source::Input { input: 0 } }],
        tail: vec![Op::Wait { cycles: 10 }],
        coda: vec![Op::Put { output: 0, delay: 0, src: Source::Value { value: 99 } }],
        dests: vec![],
    };
    let out = run_plan(plan, vec![at_zero(&[5, 6])], 1);
    // the body runs twice in round 0 only; the coda has no time read in its round
    assert_eq!(out.outputs[0], vec![(3, 5), (3, 5)]);
    assert_eq!(out.fault, Some(Fault::NoTime));
}

#[test]
fn plans_that_cannot_run_are_told_apart() {
    let bad = Plan {
        inputs: 1,
        rounds: 1,
        head: vec![Op::Take { input: 1 }],
        reps: 0,
        every: 1,
        body: vec![],
        tail: vec![],
        coda: vec![],
        dests: vec![],
    };
    assert!(!bad.runnable());
    let empty_round = Plan {
        inputs: 0,
        rounds: 1,
        head: vec![],
        reps: 0,
        every: 1,
        body: vec![],
        tail: vec![],
        coda: vec![],
        dests: vec![],
    };
    assert!(!empty_round.runnable());
    let no_every = Plan { every: 0, head: vec![Op::Tick], ..empty_round };
    assert!(!no_every.runnable());
}

#[test]
fn read_addresses_need_every_acknowledgement() {
    let acks: Vec<(u64, usize)> = (0..4).map(|t| (t as u64, 1)).collect();
    let out = run_plan(read_address_plan(2, 3).unwrap(), vec![acks], 1);
    assert_eq!(out.fault, Some(Fault::InputClosed));
    assert_eq!(out.outputs[0].len(), 4);
}

#[test]
fn kernel_multi_in_out_ignores_later_inputs() {
    let first = vec![(0, 1), (3, 2), (5, 3)];
    let a = run_plan(kernel_multi_in_out_plan(3, 2, 4, 1, 3), vec![first.clone(), at_zero(&[7, 8, 9]), at_zero(&[0, 0, 0])], 2);
    let b = run_plan(kernel_multi_in_out_plan(3, 2, 4, 1, 3), vec![first, at_zero(&[70, 80, 90]), at_zero(&[5, 5, 5])], 2);
    assert!(a.finished && b.finished);
    assert_eq!(a.outputs, b.outputs);
    assert_eq!(a.outputs[0], vec![(4, 1), (7, 2), (9, 3)]);
}

#[test]
fn from_router_undoes_to_router() {
    let a = vec![(0, 11), (0, 12), (0, 13)];
    let b = vec![(0, 21), (0, 22), (0, 23)];
    let there = run_plan(to_router_plan(2, 3), vec![a.clone(), b.clone()], 1);
    assert!(there.finished);
    let back = run_plan(from_router_plan(2, 3), vec![there.outputs[0].clone()], 2);
    assert!(back.finished);
    let data: Vec<Vec<usize>> = back.outputs.iter().map(|o| o.iter().map(|&(_, d)| d).collect()).collect();
    assert_eq!(data, vec![vec![11, 12, 13], vec![21, 22, 23]]);
}
