//! The schedules of the accelerator's fixed-function units: kernels, the
//! adapters around compute (PCU) and memory (PMU) units, the adapters between
//! tiles and routers, and the routers at the edges of a mesh that pass
//! packets straight through.
//!
//! Each function gives the [`Plan`] that a unit carries out.  Inputs and
//! outputs are numbered in the order in which the unit lists its channels.
use crate::control::Fault;
use crate::script::{ops_ok, op_ok, puts_only_first, Op, Plan, PlanView, Source};
use vstd::prelude::*;

verus! {

/// `Take` from inputs `0 .. n`.
pub open spec fn takes(n: nat) -> Seq<Op> {
    Seq::new(n, |j: int| Op::Take { input: j as usize })
}

/// A packet with the data kept from input `src` on each of outputs
/// `0 .. n`, stamped `delay` after the time read.
pub open spec fn puts(n: nat, delay: u64, src: Source) -> Seq<Op> {
    Seq::new(n, |j: int| Op::Put { output: j as usize, delay, src })
}

/// For each output `j` in `0 .. n`: read the clock, then put destination
/// entry `j` on output `j`, one cycle later.
pub open spec fn announce(n: nat) -> Seq<Op> {
    Seq::new(
        2 * n,
        |k: int|
            if k % 2 == 0 {
                Op::Tick
            } else {
                Op::Put { output: (k / 2) as usize, delay: 1, src: Source::Dest { index: (k / 2) as usize } }
            },
    )
}

/// For each input `first + j`, `j` in `0 .. n`: take a packet from it, which
/// must be there.
pub open spec fn take_each(first: nat, n: nat) -> Seq<Op> {
    Seq::new(
        2 * n,
        |k: int|
            if k % 2 == 0 {
                Op::Take { input: (first + k / 2) as usize }
            } else {
                Op::Expect { input: (first + k / 2) as usize }
            },
    )
}

/// For each input `j` in `0 .. n`: take a packet from it, which must be
/// there, and forward it on output 0 at the time read.
pub open spec fn gather(n: nat) -> Seq<Op> {
    Seq::new(
        4 * n,
        |k: int|
            if k % 4 == 0 {
                Op::Take { input: (k / 4) as usize }
            } else if k % 4 == 1 {
                Op::Expect { input: (k / 4) as usize }
            } else if k % 4 == 2 {
                Op::Tick
            } else {
                Op::Put { output: 0, delay: 0, src: Source::Input { input: (k / 4) as usize } }
            },
    )
}

/// For each output `j` in `0 .. n`: take a packet from input 0, which must
/// be there, and forward it on output `j` at the time read.
pub open spec fn scatter(n: nat) -> Seq<Op> {
    Seq::new(
        4 * n,
        |k: int|
            if k % 4 == 0 {
                Op::Take { input: 0 }
            } else if k % 4 == 1 {
                Op::Expect { input: 0 }
            } else if k % 4 == 2 {
                Op::Tick
            } else {
                Op::Put { output: (k / 4) as usize, delay: 0, src: Source::Input { input: 0 } }
            },
    )
}

fn push_takes(v: &mut Vec<Op>, n: usize)
    ensures
        final(v)@ == old(v)@ + takes(n as nat),
{
    let ghost start = v@;
    let mut j: usize = 0;
    while j < n
        invariant
            j <= n,
            v@ == start + takes(j as nat),
        decreases n - j,
    {
        v.push(Op::Take { input: j });
        proof {
            assert(start + takes((j + 1) as nat) =~= (start + takes(j as nat)).push(Op::Take { input: j }));
        }
        j = j + 1;
    }
}

fn push_puts(v: &mut Vec<Op>, n: usize, delay: u64, src: Source)
    ensures
        final(v)@ == old(v)@ + puts(n as nat, delay, src),
{
    let ghost start = v@;
    let mut j: usize = 0;
    while j < n
        invariant
            j <= n,
            v@ == start + puts(j as nat, delay, src),
        decreases n - j,
    {
        v.push(Op::Put { output: j, delay, src });
        proof {
            assert(start + puts((j + 1) as nat, delay, src) =~= (start + puts(j as nat, delay, src)).push(
                Op::Put { output: j, delay, src },
            ));
        }
        j = j + 1;
    }
}

fn push_announce(v: &mut Vec<Op>, n: usize)
    ensures
        final(v)@ == old(v)@ + announce(n as nat),
{
    let ghost start = v@;
    let mut j: usize = 0;
    while j < n
        invariant
            j <= n,
            v@ == start + announce(j as nat),
        decreases n - j,
    {
        v.push(Op::Tick);
        v.push(Op::Put { output: j, delay: 1, src: Source::Dest { index: j } });
        proof {
            assert(start + announce((j + 1) as nat) =~= (start + announce(j as nat)).push(Op::Tick).push(
                Op::Put { output: j, delay: 1, src: Source::Dest { index: j } },
            ));
        }
        j = j + 1;
    }
}

fn push_take_each(v: &mut Vec<Op>, first: usize, n: usize)
    requires
        first + n <= usize::MAX,
    ensures
        final(v)@ == old(v)@ + take_each(first as nat, n as nat),
{
    let ghost start = v@;
    let mut j: usize = 0;
    while j < n
        invariant
            j <= n,
            first + n <= usize::MAX,
            v@ == start + take_each(first as nat, j as nat),
        decreases n - j,
    {
        v.push(Op::Take { input: first + j });
        v.push(Op::Expect { input: first + j });
        proof {
            assert(start + take_each(first as nat, (j + 1) as nat) =~= (start + take_each(
                first as nat,
                j as nat,
            )).push(Op::Take { input: (first + j) as usize }).push(
                Op::Expect { input: (first + j) as usize },
            ));
        }
        j = j + 1;
    }
}

fn push_gather(v: &mut Vec<Op>, n: usize)
    ensures
        final(v)@ == old(v)@ + gather(n as nat),
{
    let ghost start = v@;
    let mut j: usize = 0;
    while j < n
        invariant
            j <= n,
            v@ == start + gather(j as nat),
        decreases n - j,
    {
        v.push(Op::Take { input: j });
        v.push(Op::Expect { input: j });
        v.push(Op::Tick);
        v.push(Op::Put { output: 0, delay: 0, src: Source::Input { input: j } });
        proof {
            assert(start + gather((j + 1) as nat) =~= (start + gather(j as nat)).push(
                Op::Take { input: j },
            ).push(Op::Expect { input: j }).push(Op::Tick).push(
                Op::Put { output: 0, delay: 0, src: Source::Input { input: j } },
            ));
        }
        j = j + 1;
    }
}

fn push_scatter(v: &mut Vec<Op>, n: usize)
    ensures
        final(v)@ == old(v)@ + scatter(n as nat),
{
    let ghost start = v@;
    let mut j: usize = 0;
    while j < n
        invariant
            j <= n,
            v@ == start + scatter(j as nat),
        decreases n - j,
    {
        v.push(Op::Take { input: 0 });
        v.push(Op::Expect { input: 0 });
        v.push(Op::Tick);
        v.push(Op::Put { output: j, delay: 0, src: Source::Input { input: 0 } });
        proof {
            assert(start + scatter((j + 1) as nat) =~= (start + scatter(j as nat)).push(
                Op::Take { input: 0 },
            ).push(Op::Expect { input: 0 }).push(Op::Tick).push(
                Op::Put { output: j, delay: 0, src: Source::Input { input: 0 } },
            ));
        }
        j = j + 1;
    }
}

/// For each lane `j` in `0 .. n`: put the packet kept from input `j` on
/// output `j`, one cycle after the time read.
pub open spec fn forward(n: nat) -> Seq<Op> {
    Seq::new(n, |j: int| Op::Put { output: j as usize, delay: 1, src: Source::Input { input: j as usize } })
}

fn push_forward(v: &mut Vec<Op>, n: usize)
    ensures
        final(v)@ == old(v)@ + forward(n as nat),
{
    let ghost start = v@;
    let mut j: usize = 0;
    while j < n
        invariant
            j <= n,
            v@ == start + forward(j as nat),
        decreases n - j,
    {
        v.push(Op::Put { output: j, delay: 1, src: Source::Input { input: j } });
        proof {
            assert(start + forward((j + 1) as nat) =~= (start + forward(j as nat)).push(
                Op::Put { output: j, delay: 1, src: Source::Input { input: j } },
            ));
        }
        j = j + 1;
    }
}

/// The larger of `n` and 1.
pub open spec fn at_least_one(n: usize) -> usize {
    if n == 0 {
        1
    } else {
        n
    }
}

/// `a * b * c`, when it and `a * b` fit in a machine word.
pub open spec fn product3(a: usize, b: usize, c: usize) -> Option<usize> {
    if a * b <= usize::MAX && a * b * c <= usize::MAX {
        Some((a * b * c) as usize)
    } else {
        None
    }
}

/// `a * b * c * d`, when it and every partial product fit in a machine word.
pub open spec fn product4(a: usize, b: usize, c: usize, d: usize) -> Option<usize> {
    if a * b <= usize::MAX && a * b * c <= usize::MAX && a * b * c * d <= usize::MAX {
        Some((a * b * c * d) as usize)
    } else {
        None
    }
}

fn mul3(a: usize, b: usize, c: usize) -> (r: Option<usize>)
    ensures
        r == product3(a, b, c),
{
    match a.checked_mul(b) {
        Some(ab) => ab.checked_mul(c),
        None => None,
    }
}

fn mul4(a: usize, b: usize, c: usize, d: usize) -> (r: Option<usize>)
    ensures
        r == product4(a, b, c, d),
{
    match mul3(a, b, c) {
        Some(abc) => abc.checked_mul(d),
        None => None,
    }
}

/// A kernel: in each of `loop_bound` rounds it takes a packet from its
/// input and puts the same data on its output, stamped `latency` cycles
/// after the current time, then lets `init_interval` cycles pass.
pub fn kernel_plan(latency: usize, init_interval: usize, loop_bound: usize) -> (p: Plan)
    ensures
        p@.wf(),
        p@ == (PlanView {
            inputs: 1,
            rounds: loop_bound,
            head: seq![
                Op::Take { input: 0 },
                Op::Tick,
                Op::Put { output: 0, delay: latency as u64, src: Source::Input { input: 0 } },
                Op::Wait { cycles: init_interval as u64 },
            ],
            reps: 0,
            every: 1,
            body: Seq::empty(),
            tail: Seq::empty(),
            coda: Seq::empty(),
            dests: Seq::empty(),
        }),
{
    let head = vec![
        Op::Take { input: 0 },
        Op::Tick,
        Op::Put { output: 0, delay: latency as u64, src: Source::Input { input: 0 } },
        Op::Wait { cycles: init_interval as u64 },
    ];
    let p = Plan {
        inputs: 1,
        rounds: loop_bound,
        head,
        reps: 0,
        every: 1,
        body: Vec::new(),
        tail: Vec::new(),
        coda: Vec::new(),
        dests: Vec::new(),
    };
    proof {
        assert(p@.head =~= seq![
            Op::Take { input: 0 },
            Op::Tick,
            Op::Put { output: 0, delay: latency as u64, src: Source::Input { input: 0 } },
            Op::Wait { cycles: init_interval as u64 },
        ]);
        assert(p@.body =~= Seq::empty());
        assert(p@.tail =~= Seq::empty());
        assert(p@.coda =~= Seq::empty());
        assert(p@.dests =~= Seq::empty());
    }
    p
}

/// A kernel with several inputs and outputs: in each of `loop_bound` rounds
/// it takes a packet from each of its `in_len` inputs and puts the data of
/// the first one on each of its `out_len` outputs, stamped `latency` cycles
/// after the current time, then lets `init_interval` cycles pass.  The
/// packet from the first input must be there; without inputs the kernel
/// fails.
pub fn kernel_multi_in_out_plan(
    in_len: usize,
    out_len: usize,
    latency: usize,
    init_interval: usize,
    loop_bound: usize,
) -> (p: Plan)
    ensures
        p@.wf(),
        p@.forwards_only_first(),
        p@ == (PlanView {
            inputs: at_least_one(in_len),
            rounds: loop_bound,
            head: takes(in_len as nat) + seq![Op::Expect { input: 0 }, Op::Tick] + puts(
                out_len as nat,
                latency as u64,
                Source::Input { input: 0 },
            ) + seq![Op::Wait { cycles: init_interval as u64 }],
            reps: 0,
            every: 1,
            body: Seq::empty(),
            tail: Seq::empty(),
            coda: Seq::empty(),
            dests: Seq::empty(),
        }),
{
    let mut head: Vec<Op> = Vec::new();
    push_takes(&mut head, in_len);
    head.push(Op::Expect { input: 0 });
    head.push(Op::Tick);
    push_puts(&mut head, out_len, latency as u64, Source::Input { input: 0 });
    head.push(Op::Wait { cycles: init_interval as u64 });
    let inputs = if in_len == 0 {
        1
    } else {
        in_len
    };
    let p = Plan {
        inputs,
        rounds: loop_bound,
        head,
        reps: 0,
        every: 1,
        body: Vec::new(),
        tail: Vec::new(),
        coda: Vec::new(),
        dests: Vec::new(),
    };
    proof {
        assert(p@.head =~= takes(in_len as nat) + seq![Op::Expect { input: 0 }, Op::Tick] + puts(
            out_len as nat,
            latency as u64,
            Source::Input { input: 0 },
        ) + seq![Op::Wait { cycles: init_interval as u64 }]);
        assert(p@.body =~= Seq::empty());
        assert(p@.tail =~= Seq::empty());
        assert(p@.coda =~= Seq::empty());
        assert(p@.dests =~= Seq::empty());
        assert(ops_ok(p@.head, inputs)) by {
            assert forall|i: int| 0 <= i < p@.head.len() implies op_ok(#[trigger] p@.head[i], inputs) by {
                if i < in_len {
                    assert(p@.head[i] == takes(in_len as nat)[i]);
                }
            }
        }
        assert(puts_only_first(p@.head)) by {
            assert forall|i: int| 0 <= i < p@.head.len() implies match #[trigger] p@.head[i] {
                Op::Put { src: Source::Input { input }, .. } => input == 0,
                _ => true,
            } by {
                if i < in_len {
                    assert(p@.head[i] == takes(in_len as nat)[i]);
                } else if in_len + 2 <= i < in_len + 2 + out_len {
                    assert(p@.head[i] == puts(out_len as nat, latency as u64, Source::Input { input: 0 })[i - in_len - 2]);
                }
            }
        }
    }
    p
}

/// The upstream adapter of a SIMD compute unit: for each of `num_input`
/// items it takes a packet from each of its `in_len` inputs (the first one
/// must be there) and feeds the unit `m * k * n` copies of the first one's
/// data, each stamped one cycle after the time read just before it; at the
/// end one cycle passes.  Fails when `m * k * n` does not fit in a machine
/// word.
pub fn simd_upstream_plan(in_len: usize, num_input: usize, m: usize, k: usize, n: usize) -> (r: Result<
    Plan,
    Fault,
>)
    ensures
        r is Err <==> product3(m, k, n) is None,
        r matches Err(f) ==> f == Fault::CountOverflow,
        r matches Ok(p) ==> p@.wf() && p@ == (PlanView {
            inputs: at_least_one(in_len),
            rounds: num_input,
            head: takes(in_len as nat) + seq![Op::Expect { input: 0 }],
            reps: product3(m, k, n).unwrap(),
            every: 1,
            body: seq![Op::Tick, Op::Put { output: 0, delay: 1, src: Source::Input { input: 0 } }],
            tail: Seq::empty(),
            coda: seq![Op::Wait { cycles: 1 }],
            dests: Seq::empty(),
        }),
{
    let reps = match mul3(m, k, n) {
        Some(v) => v,
        None => {
            return Err(Fault::CountOverflow);
        },
    };
    let mut head: Vec<Op> = Vec::new();
    push_takes(&mut head, in_len);
    head.push(Op::Expect { input: 0 });
    let inputs = if in_len == 0 {
        1
    } else {
        in_len
    };
    let p = Plan {
        inputs,
        rounds: num_input,
        head,
        reps,
        every: 1,
        body: vec![Op::Tick, Op::Put { output: 0, delay: 1, src: Source::Input { input: 0 } }],
        tail: Vec::new(),
        coda: vec![Op::Wait { cycles: 1 }],
        dests: Vec::new(),
    };
    proof {
        assert(p@.head =~= takes(in_len as nat) + seq![Op::Expect { input: 0 }]);
        assert(p@.body =~= seq![Op::Tick, Op::Put { output: 0, delay: 1, src: Source::Input { input: 0 } }]);
        assert(p@.tail =~= Seq::empty());
        assert(p@.coda =~= seq![Op::Wait { cycles: 1 }]);
        assert(p@.dests =~= Seq::empty());
        assert(ops_ok(p@.head, inputs)) by {
            assert forall|i: int| 0 <= i < p@.head.len() implies op_ok(#[trigger] p@.head[i], inputs) by {
                if i < in_len {
                    assert(p@.head[i] == takes(in_len as nat)[i]);
                }
            }
        }
    }
    Ok(p)
}

/// The upstream adapter of a systolic compute unit: like the SIMD one, but
/// each copy goes both to the lane input (output 0) and to the stage input
/// (output 1) of the unit.
pub fn systolic_upstream_plan(in_len: usize, num_input: usize, m: usize, k: usize, n: usize) -> (r: Result<
    Plan,
    Fault,
>)
    ensures
        r is Err <==> product3(m, k, n) is None,
        r matches Err(f) ==> f == Fault::CountOverflow,
        r matches Ok(p) ==> p@.wf() && p@ == (PlanView {
            inputs: at_least_one(in_len),
            rounds: num_input,
            head: takes(in_len as nat) + seq![Op::Expect { input: 0 }],
            reps: product3(m, k, n).unwrap(),
            every: 1,
            body: seq![
                Op::Tick,
                Op::Put { output: 0, delay: 1, src: Source::Input { input: 0 } },
                Op::Put { output: 1, delay: 1, src: Source::Input { input: 0 } },
            ],
            tail: Seq::empty(),
            coda: seq![Op::Wait { cycles: 1 }],
            dests: Seq::empty(),
        }),
{
    let reps = match mul3(m, k, n) {
        Some(v) => v,
        None => {
            return Err(Fault::CountOverflow);
        },
    };
    let mut head: Vec<Op> = Vec::new();
    push_takes(&mut head, in_len);
    head.push(Op::Expect { input: 0 });
    let inputs = if in_len == 0 {
        1
    } else {
        in_len
    };
    let p = Plan {
        inputs,
        rounds: num_input,
        head,
        reps,
        every: 1,
        body: vec![
            Op::Tick,
            Op::Put { output: 0, delay: 1, src: Source::Input { input: 0 } },
            Op::Put { output: 1, delay: 1, src: Source::Input { input: 0 } },
        ],
        tail: Vec::new(),
        coda: vec![Op::Wait { cycles: 1 }],
        dests: Vec::new(),
    };
    proof {
        assert(p@.head =~= takes(in_len as nat) + seq![Op::Expect { input: 0 }]);
        assert(p@.body =~= seq![
            Op::Tick,
            Op::Put { output: 0, delay: 1, src: Source::Input { input: 0 } },
            Op::Put { output: 1, delay: 1, src: Source::Input { input: 0 } },
        ]);
        assert(p@.tail =~= Seq::empty());
        assert(p@.coda =~= seq![Op::Wait { cycles: 1 }]);
        assert(p@.dests =~= Seq::empty());
        assert(ops_ok(p@.head, inputs)) by {
            assert forall|i: int| 0 <= i < p@.head.len() implies op_ok(#[trigger] p@.head[i], inputs) by {
                if i < in_len {
                    assert(p@.head[i] == takes(in_len as nat)[i]);
                }
            }
        }
    }
    Ok(p)
}

/// The upstream adapter of a memory unit: for each of `num_input` items it
/// takes a packet from each of its `in_len` inputs (the first one must be
/// there) and writes the first one's data `counter` times: each time it puts
/// address 0 on the write-address output (0) and the data on the write-data
/// output (1), stamped one cycle after the time read just before; at the end
/// one cycle passes.
pub fn pmu_upstream_plan(in_len: usize, num_input: usize, counter: usize) -> (p: Plan)
    ensures
        p@.wf(),
        p@ == (PlanView {
            inputs: at_least_one(in_len),
            rounds: num_input,
            head: takes(in_len as nat) + seq![Op::Expect { input: 0 }],
            reps: counter,
            every: 1,
            body: seq![
                Op::Tick,
                Op::Put { output: 0, delay: 1, src: Source::Value { value: 0 } },
                Op::Put { output: 1, delay: 1, src: Source::Input { input: 0 } },
            ],
            tail: Seq::empty(),
            coda: seq![Op::Wait { cycles: 1 }],
            dests: Seq::empty(),
        }),
{
    let mut head: Vec<Op> = Vec::new();
    push_takes(&mut head, in_len);
    head.push(Op::Expect { input: 0 });
    let inputs = if in_len == 0 {
        1
    } else {
        in_len
    };
    let p = Plan {
        inputs,
        rounds: num_input,
        head,
        reps: counter,
        every: 1,
        body: vec![
            Op::Tick,
            Op::Put { output: 0, delay: 1, src: Source::Value { value: 0 } },
            Op::Put { output: 1, delay: 1, src: Source::Input { input: 0 } },
        ],
        tail: Vec::new(),
        coda: vec![Op::Wait { cycles: 1 }],
        dests: Vec::new(),
    };
    proof {
        assert(p@.head =~= takes(in_len as nat) + seq![Op::Expect { input: 0 }]);
        assert(p@.body =~= seq![
            Op::Tick,
            Op::Put { output: 0, delay: 1, src: Source::Value { value: 0 } },
            Op::Put { output: 1, delay: 1, src: Source::Input { input: 0 } },
        ]);
        assert(p@.tail =~= Seq::empty());
        assert(p@.coda =~= seq![Op::Wait { cycles: 1 }]);
        assert(p@.dests =~= Seq::empty());
        assert(ops_ok(p@.head, inputs)) by {
            assert forall|i: int| 0 <= i < p@.head.len() implies op_ok(#[trigger] p@.head[i], inputs) by {
                if i < in_len {
                    assert(p@.head[i] == takes(in_len as nat)[i]);
                }
            }
        }
    }
    p
}

/// The shared shape of the downstream adapters: `rounds` rounds, each
/// taking one packet (or, with `pair`, one from each of two inputs); every
/// `every`-th round, for each output `j`, the clock is read and destination
/// entry `j` goes out on output `j` one cycle later; at the end one cycle
/// passes.
pub open spec fn announcer(rounds: usize, every: usize, pair: bool, out_len: usize, dests: Seq<usize>) -> PlanView {
    PlanView {
        inputs: if pair {
            2
        } else {
            1
        },
        rounds,
        head: if pair {
            seq![Op::Take { input: 0 }, Op::Take { input: 1 }]
        } else {
            seq![Op::Take { input: 0 }, Op::Expect { input: 0 }]
        },
        reps: 1,
        every: at_least_one(every),
        body: announce(out_len as nat),
        tail: Seq::empty(),
        coda: seq![Op::Wait { cycles: 1 }],
        dests,
    }
}

fn announcer_plan(rounds: usize, every: usize, pair: bool, out_len: usize, dests: Vec<usize>) -> (p: Plan)
    ensures
        p@.wf(),
        p@ == announcer(rounds, every, pair, out_len, dests@),
{
    let mut body: Vec<Op> = Vec::new();
    push_announce(&mut body, out_len);
    let head = if pair {
        vec![Op::Take { input: 0 }, Op::Take { input: 1 }]
    } else {
        vec![Op::Take { input: 0 }, Op::Expect { input: 0 }]
    };
    let p = Plan {
        inputs: if pair {
            2
        } else {
            1
        },
        rounds,
        head,
        reps: 1,
        every: if every == 0 {
            1
        } else {
            every
        },
        body,
        tail: Vec::new(),
        coda: vec![Op::Wait { cycles: 1 }],
        dests,
    };
    proof {
        if pair {
            assert(p@.head =~= seq![Op::Take { input: 0 }, Op::Take { input: 1 }]);
        } else {
            assert(p@.head =~= seq![Op::Take { input: 0 }, Op::Expect { input: 0 }]);
        }
        assert(p@.body =~= announce(out_len as nat));
        assert(p@.tail =~= Seq::empty());
        assert(p@.coda =~= seq![Op::Wait { cycles: 1 }]);
    }
    p
}

/// The downstream adapter of a SIMD compute unit: it takes the unit's
/// `m * k * n * num_input` results one by one (each must be there); with the
/// first result of every item it sends, on each of its `out_len` outputs,
/// that output's destination address from `out_dst`.  At the end one cycle
/// passes.  Fails when `m * k * n * num_input` does not fit in a machine word.
pub fn simd_downstream_plan(out_len: usize, out_dst: Vec<usize>, num_input: usize, m: usize, k: usize, n: usize) -> (r: Result<
    Plan,
    Fault,
>)
    ensures
        r is Err <==> product4(m, k, n, num_input) is None,
        r matches Err(f) ==> f == Fault::CountOverflow,
        r matches Ok(p) ==> p@.wf() && p@ == announcer(
            product4(m, k, n, num_input).unwrap(),
            product3(m, k, n).unwrap(),
            false,
            out_len,
            out_dst@,
        ),
{
    let total = match mul4(m, k, n, num_input) {
        Some(v) => v,
        None => {
            return Err(Fault::CountOverflow);
        },
    };
    let per_item = mul3(m, k, n).unwrap();
    Ok(announcer_plan(total, per_item, false, out_len, out_dst))
}

/// The downstream adapter of a systolic compute unit: like the SIMD one, but
/// each step takes one result from the lane output (input 0) and one from
/// the stage output (input 1) of the unit, neither of which needs to be there.
pub fn systolic_downstream_plan(out_len: usize, out_dst: Vec<usize>, num_input: usize, m: usize, k: usize, n: usize) -> (r: Result<
    Plan,
    Fault,
>)
    ensures
        r is Err <==> product4(m, k, n, num_input) is None,
        r matches Err(f) ==> f == Fault::CountOverflow,
        r matches Ok(p) ==> p@.wf() && p@ == announcer(
            product4(m, k, n, num_input).unwrap(),
            product3(m, k, n).unwrap(),
            true,
            out_len,
            out_dst@,
        ),
{
    let total = match mul4(m, k, n, num_input) {
        Some(v) => v,
        None => {
            return Err(Fault::CountOverflow);
        },
    };
    let per_item = mul3(m, k, n).unwrap();
    Ok(announcer_plan(total, per_item, true, out_len, out_dst))
}

/// The downstream adapter of a memory unit: it takes the unit's
/// `counter * num_input` read results one by one (each must be there); with
/// the first result of every item it sends, on each of its `out_len`
/// outputs, that output's destination address from `out_dst`.  At the end
/// one cycle passes.  Fails when `counter * num_input` does not fit in a
/// machine word.
pub fn pmu_downstream_plan(out_len: usize, out_dst: Vec<usize>, num_input: usize, counter: usize) -> (r: Result<
    Plan,
    Fault,
>)
    ensures
        r is Err <==> counter * num_input > usize::MAX,
        r matches Err(f) ==> f == Fault::CountOverflow,
        r matches Ok(p) ==> p@.wf() && p@ == announcer(
            (counter * num_input) as usize,
            counter,
            false,
            out_len,
            out_dst@,
        ),
{
    let total = match counter.checked_mul(num_input) {
        Some(v) => v,
        None => {
            return Err(Fault::CountOverflow);
        },
    };
    Ok(announcer_plan(total, counter, false, out_len, out_dst))
}

/// A router at the edge of a mesh that passes packets straight through on
/// `lanes` lanes: in each of `loop_bound` rounds it takes a packet from each
/// input, reads the clock, puts the packet from input `j` on output `j` one
/// cycle later (the packet must be there by then), and lets one cycle pass.
pub fn pass_through_plan(lanes: usize, loop_bound: usize) -> (p: Plan)
    ensures
        p@.wf(),
        p@ == (PlanView {
            inputs: lanes,
            rounds: loop_bound,
            head: takes(lanes as nat) + seq![Op::Tick] + forward(lanes as nat) + seq![Op::Wait { cycles: 1 }],
            reps: 0,
            every: 1,
            body: Seq::empty(),
            tail: Seq::empty(),
            coda: Seq::empty(),
            dests: Seq::empty(),
        }),
{
    let mut head: Vec<Op> = Vec::new();
    push_takes(&mut head, lanes);
    head.push(Op::Tick);
    push_forward(&mut head, lanes);
    head.push(Op::Wait { cycles: 1 });
    let p = Plan {
        inputs: lanes,
        rounds: loop_bound,
        head,
        reps: 0,
        every: 1,
        body: Vec::new(),
        tail: Vec::new(),
        coda: Vec::new(),
        dests: Vec::new(),
    };
    proof {
        let t = takes(lanes as nat);
        let f = forward(lanes as nat);
        assert(p@.head =~= t + seq![Op::Tick] + f + seq![Op::Wait { cycles: 1 }]);
        assert(p@.body =~= Seq::empty());
        assert(p@.tail =~= Seq::empty());
        assert(p@.coda =~= Seq::empty());
        assert(p@.dests =~= Seq::empty());
        assert(ops_ok(p@.head, lanes)) by {
            assert forall|i: int| 0 <= i < p@.head.len() implies op_ok(#[trigger] p@.head[i], lanes) by {
                if i < lanes {
                    assert(p@.head[i] == t[i]);
                } else if lanes + 1 <= i < 2 * lanes + 1 {
                    assert(p@.head[i] == f[i - lanes - 1]);
                }
            }
        }
    }
    p
}

/// The router in the middle of a mesh that passes packets straight across:
/// in each of `loop_bound` rounds it takes a packet from each of its north,
/// south, east and west inputs (0 to 3) and from each of its `in_len` local
/// inputs (4 on), each of which must be there; it reads the clock and, one
/// cycle later, puts the packet from the south on the north output (0), the
/// one from the north on the south output (1), the one from the west on the
/// east output (2) and the one from the east on the west output (3); then
/// one cycle passes.  The local packets are dropped.
pub fn crossing_plan(in_len: usize, loop_bound: usize) -> (p: Plan)
    requires
        in_len <= usize::MAX - 4,
    ensures
        p@.wf(),
        p@ == (PlanView {
            inputs: (in_len + 4) as usize,
            rounds: loop_bound,
            head: take_each(0, 4) + take_each(4, in_len as nat) + seq![
                Op::Tick,
                Op::Put { output: 0, delay: 1, src: Source::Input { input: 1 } },
                Op::Put { output: 1, delay: 1, src: Source::Input { input: 0 } },
                Op::Put { output: 2, delay: 1, src: Source::Input { input: 3 } },
                Op::Put { output: 3, delay: 1, src: Source::Input { input: 2 } },
                Op::Wait { cycles: 1 },
            ],
            reps: 0,
            every: 1,
            body: Seq::empty(),
            tail: Seq::empty(),
            coda: Seq::empty(),
            dests: Seq::empty(),
        }),
{
    let mut head: Vec<Op> = Vec::new();
    push_take_each(&mut head, 0, 4);
    push_take_each(&mut head, 4, in_len);
    head.push(Op::Tick);
    head.push(Op::Put { output: 0, delay: 1, src: Source::Input { input: 1 } });
    head.push(Op::Put { output: 1, delay: 1, src: Source::Input { input: 0 } });
    head.push(Op::Put { output: 2, delay: 1, src: Source::Input { input: 3 } });
    head.push(Op::Put { output: 3, delay: 1, src: Source::Input { input: 2 } });
    head.push(Op::Wait { cycles: 1 });
    let inputs = in_len + 4;
    let p = Plan {
        inputs,
        rounds: loop_bound,
        head,
        reps: 0,
        every: 1,
        body: Vec::new(),
        tail: Vec::new(),
        coda: Vec::new(),
        dests: Vec::new(),
    };
    proof {
        let a = take_each(0, 4);
        let b = take_each(4, in_len as nat);
        let c = seq![
            Op::Tick,
            Op::Put { output: 0, delay: 1, src: Source::Input { input: 1 } },
            Op::Put { output: 1, delay: 1, src: Source::Input { input: 0 } },
            Op::Put { output: 2, delay: 1, src: Source::Input { input: 3 } },
            Op::Put { output: 3, delay: 1, src: Source::Input { input: 2 } },
            Op::Wait { cycles: 1 },
        ];
        assert(p@.head =~= a + b + c);
        assert(p@.body =~= Seq::empty());
        assert(p@.tail =~= Seq::empty());
        assert(p@.coda =~= Seq::empty());
        assert(p@.dests =~= Seq::empty());
        assert(ops_ok(p@.head, inputs)) by {
            assert forall|i: int| 0 <= i < p@.head.len() implies op_ok(#[trigger] p@.head[i], inputs) by {
                if i < 8 {
                    assert(p@.head[i] == a[i]);
                } else if i < 8 + 2 * in_len {
                    assert(p@.head[i] == b[i - 8]);
                } else {
                    assert(p@.head[i] == c[i - 8 - 2 * in_len]);
                }
            }
        }
    }
    p
}

/// The adapter from a tile to its router: for each of `num_input` items it
/// takes a packet from each of its `in_len` inputs in turn (each must be
/// there) and forwards it at once on its output, stamped with the time read
/// just before; after each item one cycle passes.
pub fn to_router_plan(in_len: usize, num_input: usize) -> (p: Plan)
    ensures
        p@.wf(),
        p@ == (PlanView {
            inputs: in_len,
            rounds: num_input,
            head: gather(in_len as nat) + seq![Op::Wait { cycles: 1 }],
            reps: 0,
            every: 1,
            body: Seq::empty(),
            tail: Seq::empty(),
            coda: Seq::empty(),
            dests: Seq::empty(),
        }),
{
    let mut head: Vec<Op> = Vec::new();
    push_gather(&mut head, in_len);
    head.push(Op::Wait { cycles: 1 });
    let p = Plan {
        inputs: in_len,
        rounds: num_input,
        head,
        reps: 0,
        every: 1,
        body: Vec::new(),
        tail: Vec::new(),
        coda: Vec::new(),
        dests: Vec::new(),
    };
    proof {
        let g = gather(in_len as nat);
        assert(p@.head =~= g + seq![Op::Wait { cycles: 1 }]);
        assert(p@.body =~= Seq::empty());
        assert(p@.tail =~= Seq::empty());
        assert(p@.coda =~= Seq::empty());
        assert(p@.dests =~= Seq::empty());
        assert(ops_ok(p@.head, in_len)) by {
            assert forall|i: int| 0 <= i < p@.head.len() implies op_ok(#[trigger] p@.head[i], in_len) by {
                if i < 4 * in_len {
                    assert(p@.head[i] == g[i]);
                }
            }
        }
    }
    p
}

/// The adapter from a router to its tile: for each of `num_input` items it
/// takes, for each of its `out_len` outputs in turn, a packet from its input
/// (which must be there) and forwards it at once on that output, stamped with
/// the time read just before; after each item one cycle passes.
pub fn from_router_plan(out_len: usize, num_input: usize) -> (p: Plan)
    ensures
        p@.wf(),
        p@ == (PlanView {
            inputs: 1,
            rounds: num_input,
            head: scatter(out_len as nat) + seq![Op::Wait { cycles: 1 }],
            reps: 0,
            every: 1,
            body: Seq::empty(),
            tail: Seq::empty(),
            coda: Seq::empty(),
            dests: Seq::empty(),
        }),
{
    let mut head: Vec<Op> = Vec::new();
    push_scatter(&mut head, out_len);
    head.push(Op::Wait { cycles: 1 });
    let p = Plan {
        inputs: 1,
        rounds: num_input,
        head,
        reps: 0,
        every: 1,
        body: Vec::new(),
        tail: Vec::new(),
        coda: Vec::new(),
        dests: Vec::new(),
    };
    proof {
        let g = scatter(out_len as nat);
        assert(p@.head =~= g + seq![Op::Wait { cycles: 1 }]);
        assert(p@.body =~= Seq::empty());
        assert(p@.tail =~= Seq::empty());
        assert(p@.coda =~= Seq::empty());
        assert(p@.dests =~= Seq::empty());
        assert(ops_ok(p@.head, 1)) by {
            assert forall|i: int| 0 <= i < p@.head.len() implies op_ok(#[trigger] p@.head[i], 1) by {
                if i < 4 * out_len {
                    assert(p@.head[i] == g[i]);
                }
            }
        }
    }
    p
}

/// The read-address generator of a memory tile: for each of the
/// `counter * num_input` write acknowledgements it takes from its input
/// (each must be there), it puts the read address 0 on its output, stamped
/// with the time read just after the acknowledgement came.  Fails when
/// `counter * num_input` does not fit in a machine word.
pub fn read_address_plan(counter: usize, num_input: usize) -> (r: Result<Plan, Fault>)
    ensures
        r is Err <==> counter * num_input > usize::MAX,
        r matches Err(f) ==> f == Fault::CountOverflow,
        r matches Ok(p) ==> p@.wf() && p@ == (PlanView {
            inputs: 1,
            rounds: (counter * num_input) as usize,
            head: seq![
                Op::Take { input: 0 },
                Op::Expect { input: 0 },
                Op::Tick,
                Op::Put { output: 0, delay: 0, src: Source::Value { value: 0 } },
            ],
            reps: 0,
            every: 1,
            body: Seq::empty(),
            tail: Seq::empty(),
            coda: Seq::empty(),
            dests: Seq::empty(),
        }),
{
    let rounds = match counter.checked_mul(num_input) {
        Some(v) => v,
        None => {
            return Err(Fault::CountOverflow);
        },
    };
    let p = Plan {
        inputs: 1,
        rounds,
        head: vec![
            Op::Take { input: 0 },
            Op::Expect { input: 0 },
            Op::Tick,
            Op::Put { output: 0, delay: 0, src: Source::Value { value: 0 } },
        ],
        reps: 0,
        every: 1,
        body: Vec::new(),
        tail: Vec::new(),
        coda: Vec::new(),
        dests: Vec::new(),
    };
    proof {
        assert(p@.head =~= seq![
            Op::Take { input: 0 },
            Op::Expect { input: 0 },
            Op::Tick,
            Op::Put { output: 0, delay: 0, src: Source::Value { value: 0 } },
        ]);
        assert(p@.body =~= Seq::empty());
        assert(p@.tail =~= Seq::empty());
        assert(p@.coda =~= Seq::empty());
        assert(p@.dests =~= Seq::empty());
    }
    Ok(p)
}

/// The packets that the adapter to a router puts out when its `n` inputs
/// hold `ins`: `rounds` rounds of one packet from each input in turn.
pub open spec fn interleave(ins: Seq<Seq<usize>>, n: nat, rounds: nat) -> Seq<usize> {
    Seq::new(rounds * n, |k: int| ins[k % (n as int)][k / (n as int)])
}

/// The packets that the adapter from a router puts on each of its `n`
/// outputs when it receives `s`: in each of `rounds` rounds, the `j`-th
/// packet of the round goes to output `j`.
pub open spec fn deinterleave(s: Seq<usize>, n: nat, rounds: nat) -> Seq<Seq<usize>> {
    Seq::new(n, |j: int| Seq::new(rounds, |r: int| s[r * n + j]))
}

/// The first `rounds` packets of each input.
pub open spec fn prefixes(ins: Seq<Seq<usize>>, rounds: int) -> Seq<Seq<usize>> {
    Seq::new(ins.len(), |j: int| ins[j].take(rounds))
}

/// In a round of the adapter to a router, operation `4 j` takes from input
/// `j` and operation `4 j + 3` forwards that packet on the output.
pub open spec fn gathers_lane(n: nat, j: int) -> bool {
    &&& gather(n)[4 * j] == (Op::Take { input: j as usize })
    &&& gather(n)[4 * j + 3] == (Op::Put { output: 0, delay: 0, src: Source::Input { input: j as usize } })
}

/// In a round of the adapter from a router, operation `4 j` takes the next
/// packet and operation `4 j + 3` forwards it on output `j`.
pub open spec fn scatters_lane(n: nat, j: int) -> bool {
    &&& scatter(n)[4 * j] == (Op::Take { input: 0 })
    &&& scatter(n)[4 * j + 3] == (Op::Put { output: j as usize, delay: 0, src: Source::Input { input: 0 } })
}

/// The adapter from a router undoes what the adapter to the router does.
/// In each round, the adapter to the router takes one packet from each of
/// its inputs in turn and forwards it at once, and the adapter from the
/// router takes one packet after the other and forwards the `j`-th of the
/// round on output `j`; so when the first one's output feeds the second
/// one's input, output `j` of the second one carries, in order, the packets
/// that came in on input `j` of the first one.
pub proof fn lemma_adapters_round_trip(n: usize, rounds: usize, ins: Seq<Seq<usize>>)
    requires
        ins.len() == n,
        forall|j: int| 0 <= j < n ==> #[trigger] ins[j].len() >= rounds,
    ensures
        forall|j: int| 0 <= j < n ==> #[trigger] gathers_lane(n as nat, j),
        forall|j: int| 0 <= j < n ==> #[trigger] scatters_lane(n as nat, j),
        deinterleave(interleave(ins, n as nat, rounds as nat), n as nat, rounds as nat) == prefixes(
            ins,
            rounds as int,
        ),
{
    let s = interleave(ins, n as nat, rounds as nat);
    let d = deinterleave(s, n as nat, rounds as nat);
    let want = prefixes(ins, rounds as int);
    assert forall|j: int| 0 <= j < n implies #[trigger] d[j] =~= want[j] by {
        assert forall|r: int| 0 <= r < rounds implies d[j][r] == want[j][r] by {
            let k = r * n + j;
            assert(0 <= r * n) by (nonlinear_arith)
                requires
                    0 <= r,
                    0 <= n,
            ;
            assert(r * n + j < rounds * n) by (nonlinear_arith)
                requires
                    0 <= j < n,
                    0 <= r < rounds,
            ;
            vstd::arithmetic::div_mod::lemma_fundamental_div_mod_converse(k, n as int, r, j);
            assert(s[k] == ins[k % (n as int)][k / (n as int)]);
        }
    }
    assert(d =~= want);
    assert forall|j: int| 0 <= j < n implies #[trigger] gathers_lane(n as nat, j) by {
        assert((4 * j) % 4 == 0 && (4 * j) / 4 == j);
        assert((4 * j + 3) % 4 == 3 && (4 * j + 3) / 4 == j);
    }
    assert forall|j: int| 0 <= j < n implies #[trigger] scatters_lane(n as nat, j) by {
        assert((4 * j) % 4 == 0 && (4 * j) / 4 == j);
        assert((4 * j + 3) % 4 == 3 && (4 * j + 3) / 4 == j);
    }
}

} // verus!
