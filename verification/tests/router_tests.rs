use std::collections::VecDeque;

use noc_sim::control::{Action, Event, Fault, Peek};
use noc_sim::mesh_router::MeshRouter;
use noc_sim::ports::RouterPorts;
use noc_sim::sweep_router::SweepRouter;

/// What a run of a unit against prepared input channels gave.
struct Outcome {
    outputs: Vec<Vec<(u64, usize)>>,
    clock: u64,
    finished: bool,
    fault: Option<Fault>,
}

/// Runs a unit whose input channels already hold all their packets (and are
/// closed once empty) and whose output channels take every packet.
fn run_unit(
    next: &mut dyn FnMut(Event) -> Action,
    mut inputs: Vec<VecDeque<(u64, usize)>>,
    outputs: usize,
    limit: usize,
) -> Outcome {
    let mut out = vec![Vec::new(); outputs];
    let mut clock: u64 = 0;
    let mut ev = Event::Start;
    let mut idle_in_a_row = 0;
    for _ in 0..limit {
        let act = next(ev);
        ev = match act {
            Action::Peek { input } => match inputs[input].front() {
                Some(&(time, data)) => Event::Peeked { peek: Peek::Data { time, data } },
                None => Event::Peeked { peek: Peek::Closed },
            },
            Action::Dequeue { input } => match inputs[input].pop_front() {
                Some((time, data)) => {
                    clock = clock.max(time);
                    Event::Received { data: Some(data) }
                }
                None => Event::Received { data: None },
            },
            Action::Tick => Event::Now { time: clock },
            Action::Enqueue { output, time, data } => {
                out[output].push((time, data));
                Event::Done
            }
            Action::IncrCycles { cycles } => {
                clock += cycles;
                Event::Done
            }
            Action::AdvanceTo { time } => {
                clock = clock.max(time);
                Event::Done
            }
            Action::Idle => {
                idle_in_a_row += 1;
                if idle_in_a_row > 100 {
                    break;
                }
                Event::Done
            }
            Action::Finish => {
                return Outcome { outputs: out, clock, finished: true, fault: None };
            }
            Action::Fail { fault } => {
                return Outcome { outputs: out, clock, finished: false, fault: Some(fault) };
            }
        };
        if !matches!(act, Action::Idle) {
            idle_in_a_row = 0;
        }
    }
    Outcome { outputs: out, clock, finished: false, fault: None }
}

fn stream(n: usize, data: usize) -> VecDeque<(u64, usize)> {
    (0..n).map(|i| (i as u64, data)).collect()
}

#[test]
fn test_router_mesh() {
    // Four inputs of 1000 packets each, all for the router's own tile.
    let mut ports = RouterPorts::new();
    assert!(ports.assign("N_in", 0, 1));
    assert!(ports.assign("S_in", 1, 1));
    assert!(ports.assign("E_in", 2, 1));
    assert!(ports.assign("W_in", 3, 1));
    assert!(ports.assign("L_out", 0, 4));
    let (x, y, y_dim, num_input, num_vc) = (0, 0, 1, 1000, 10);
    let mut router = MeshRouter::new(ports, x, y, y_dim, num_input, num_vc, false);
    let inputs = vec![stream(1000, 0), stream(1000, 0), stream(1000, 0), stream(1000, 0)];
    let outcome = run_unit(&mut |ev| router.next(ev), inputs, 1, 1_000_000);
    assert!(outcome.finished, "fault: {:?}", outcome.fault);
    assert_eq!(outcome.outputs[0].len(), 4000);
    assert!(outcome.outputs[0].iter().all(|&(_, d)| d == 0));
    println!("Elapsed cycles: {:?}", outcome.clock);
    assert_eq!(router.scoreboard(), vec![1000, 1000, 1000, 1000, 0]);
}

#[test]
fn mesh_router_routes_by_dimension_order() {
    // Router (1, 1) of a 3 x 3 mesh; packets come from its tile.
    let mut ports = RouterPorts::new();
    assert!(ports.assign("L_in", 0, 4));
    assert!(ports.assign("N_out", 0, 1));
    assert!(ports.assign("S_out", 1, 1));
    assert!(ports.assign("E_out", 2, 1));
    assert!(ports.assign("W_out", 3, 1));
    let mut router = MeshRouter::new(ports, 1, 1, 3, 1, 1, false);
    // addresses x * 3 + y: (0, 2) -> north, (2, 0) -> south, (1, 2) -> east, (1, 0) -> west
    let input: VecDeque<(u64, usize)> = vec![(0, 2), (0, 6), (0, 5), (0, 3)].into_iter().collect();
    let outcome = run_unit(&mut |ev| router.next(ev), vec![input], 4, 10_000);
    assert!(outcome.finished, "fault: {:?}", outcome.fault);
    let data: Vec<Vec<usize>> = outcome.outputs.iter().map(|o| o.iter().map(|&(_, d)| d).collect()).collect();
    assert_eq!(data, vec![vec![2], vec![6], vec![5], vec![3]]);
    // each packet leaves one cycle after the router read its clock
    assert!(outcome.outputs.iter().all(|o| o[0].0 >= 1));
}

#[test]
fn mesh_router_without_output_port_fails() {
    let mut ports = RouterPorts::new();
    assert!(ports.assign("N_in", 0, 1));
    assert!(ports.assign("L_out", 0, 1));
    let mut router = MeshRouter::new(ports, 0, 0, 2, 1, 1, false);
    // address 1 is (0, 1): east of the router, which has no east output
    let outcome = run_unit(&mut |ev| router.next(ev), vec![stream(1, 1)], 1, 1000);
    assert_eq!(outcome.fault, Some(Fault::NoOutputPort));
}

#[test]
fn mesh_router_drops_local_packets_when_asked() {
    let mut ports = RouterPorts::new();
    assert!(ports.assign("W_in", 0, 2));
    assert!(ports.assign("L_out", 0, 2));
    let mut router = MeshRouter::new(ports, 0, 1, 2, 1, 1, true);
    let outcome = run_unit(&mut |ev| router.next(ev), vec![stream(2, 1)], 1, 1000);
    assert!(outcome.outputs[0].is_empty());
    assert_eq!(router.scoreboard(), vec![0, 0, 0, 2, 0]);
    // the output never reaches its share, so the router does not finish
    assert!(!outcome.finished);
    assert_eq!(outcome.fault, None);
}

#[test]
fn mesh_router_goal_ignores_virtual_channels() {
    let mut ports = RouterPorts::new();
    assert!(ports.assign("S_in", 0, 3));
    assert!(ports.assign("L_out", 0, 3));
    let mut router = MeshRouter::new(ports, 0, 0, 1, 5, 7, false);
    let outcome = run_unit(&mut |ev| router.next(ev), vec![stream(15, 0)], 1, 100_000);
    assert!(outcome.finished);
    assert_eq!(outcome.outputs[0].len(), 15);
}

#[test]
fn mesh_router_rejects_wrong_event() {
    let mut router = MeshRouter::new(RouterPorts::new(), 0, 0, 1, 1, 1, false);
    assert_eq!(router.next(Event::Done), Action::Fail { fault: Fault::UnexpectedEvent });
    assert_eq!(router.next(Event::Start), Action::Fail { fault: Fault::UnexpectedEvent });
}

#[test]
fn sweep_router_forwards_and_finishes() {
    let mut ports = RouterPorts::new();
    assert!(ports.assign("N_in", 0, 2));
    assert!(ports.assign("L_in", 1, 1));
    assert!(ports.assign("L_out", 0, 2));
    assert!(ports.assign("S_out", 1, 1));
    // router (1, 0) of a mesh with 2 columns: address 2 is (1, 0), address 4 is (2, 0)
    let mut router = SweepRouter::new(ports, 1, 0, 2, 3);
    let inputs = vec![stream(6, 2), stream(3, 4)];
    let outcome = run_unit(&mut |ev| router.next(ev), inputs, 2, 100_000);
    assert!(outcome.finished, "fault: {:?}", outcome.fault);
    assert_eq!(outcome.outputs[0].len(), 6);
    assert_eq!(outcome.outputs[1].len(), 3);
    assert!(outcome.outputs[0].iter().all(|&(_, d)| d == 2));
    assert!(outcome.outputs[1].iter().all(|&(_, d)| d == 4));
}

#[test]
fn sweep_router_drops_missing_addresses() {
    let mut ports = RouterPorts::new();
    assert!(ports.assign("E_in", 0, 2));
    assert!(ports.assign("L_out", 0, 1));
    let mut router = SweepRouter::new(ports, 0, 0, 1, 1);
    let input: VecDeque<(u64, usize)> = vec![(0, 999999), (1, 0)].into_iter().collect();
    let outcome = run_unit(&mut |ev| router.next(ev), vec![input], 1, 10_000);
    assert!(outcome.finished, "fault: {:?}", outcome.fault);
    assert_eq!(outcome.outputs[0].len(), 1);
    assert_eq!(outcome.outputs[0][0].1, 0);
}

#[test]
fn mesh_router_keeps_order_per_output() {
    let mut ports = RouterPorts::new();
    assert!(ports.assign("L_in", 0, 4));
    assert!(ports.assign("N_out", 0, 3));
    assert!(ports.assign("S_out", 1, 1));
    // router (1, 1) of a mesh with 3 columns: addresses 0, 1 and 2 lie north, 7 south
    let mut router = MeshRouter::new(ports, 1, 1, 3, 1, 4, false);
    let input: VecDeque<(u64, usize)> = vec![(0, 2), (0, 7), (0, 0), (0, 1)].into_iter().collect();
    let outcome = run_unit(&mut |ev| router.next(ev), vec![input], 2, 10_000);
    assert!(outcome.finished, "fault: {:?}", outcome.fault);
    let data: Vec<Vec<usize>> = outcome.outputs.iter().map(|o| o.iter().map(|&(_, d)| d).collect()).collect();
    assert_eq!(data, vec![vec![2, 0, 1], vec![7]]);
}
