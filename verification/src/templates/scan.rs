//! The windowed scan primitive.
//!
//! A scan block consumes its input in windows of `reset_freq` elements and,
//! unlike a reduce, broadcasts one output per element: the running fold of
//! the current window up to and including that element, stamped
//! `tick() + latency`.  At the start of each window it spends `reset_time`
//! cycles.  Upstream closure is a clean shutdown only on a window boundary;
//! closure in the middle of a window is a protocol violation.

use vstd::prelude::*;

use crate::channel::{
    chan_frame, chans_frame, chans_wf, max64, max_s, recvs_ok, sat_add, sat_add_s, sends_ok,
    Channel,
};
use crate::scalar::Scalar;
use crate::simulation::{SimError, StepOutcome};
use crate::templates::reduce::acc_view;
use crate::templates::types::{sender_id_vec, BroadcastSender, Receiver};
use crate::value::{RunningResult, Val, Value};

verus! {

/// Timing of a scan block.
#[derive(Clone, Copy, Debug)]
pub struct ScanTimings {
    /// Minimum cycle gap between consecutive acceptances of input.
    pub initiation_interval: u64,
    /// Cycles from an input to its output becoming visible.
    pub latency: u64,
    /// Dead cycles at the start of each window.
    pub reset_time: u64,
}

/// The update function a scan block folds its window with.
#[derive(Clone, Copy, Debug)]
pub enum ScanOp {
    /// Scalar running sum: the accumulator starts at the first element.
    Sum,
    /// One step of the online-softmax recurrence over a row of scores.
    OnlineSoftmax,
}

/// One scan step, or `None` when the payload shapes do not match the
/// operation or its arithmetic faults.
pub open spec fn scan_apply_s<S: Scalar>(op: ScanOp, x: Val<S>, acc: Option<Val<S>>) -> Option<
    Val<S>,
> {
    match op {
        ScanOp::Sum => match (x, acc) {
            (Val::Num(a), None) => Some(Val::Num(a)),
            (Val::Num(a), Some(Val::Num(o))) => if S::add_ok(a, o) {
                Some(Val::Num(S::add_s(a, o)))
            } else {
                None
            },
            _ => None,
        },
        ScanOp::OnlineSoftmax => match (x, acc) {
            (Val::Num(s), None) => Some(
                Val::Run(
                    RunningResult {
                        cur_max: s,
                        delta_max: s,
                        exp: S::one_s(),
                        delta_elem: S::exp_s(s),
                    },
                ),
            ),
            (Val::Num(s), Some(Val::Run(prev))) => {
                let nm = S::max_s(s, prev.cur_max);
                if S::sub_ok(prev.cur_max, nm) && S::sub_ok(s, nm) {
                    Some(
                        Val::Run(
                            RunningResult {
                                cur_max: nm,
                                delta_max: S::sub_s(prev.cur_max, nm),
                                exp: S::exp_s(S::sub_s(s, nm)),
                                delta_elem: S::exp_s(S::sub_s(prev.cur_max, nm)),
                            },
                        ),
                    )
                } else {
                    None
                }
            },
            _ => None,
        },
    }
}

/// Whether scanning `xs` with `op` succeeds at every step.
pub open spec fn scan_acc_ok<S: Scalar>(op: ScanOp, xs: Seq<Val<S>>) -> bool
    decreases xs.len(),
{
    xs.len() == 0 || (scan_acc_ok(op, xs.drop_last()) && scan_apply_s(
        op,
        xs.last(),
        scan_acc_s(op, xs.drop_last()),
    ) is Some)
}

/// The running value after scanning `xs` with `op`: `None` for an empty
/// scan.  Meaningful where [`scan_acc_ok`] holds.
pub open spec fn scan_acc_s<S: Scalar>(op: ScanOp, xs: Seq<Val<S>>) -> Option<Val<S>>
    decreases xs.len(),
{
    if xs.len() == 0 {
        None
    } else {
        Some(scan_apply_s(op, xs.last(), scan_acc_s(op, xs.drop_last()))->Some_0)
    }
}

/// A scan that succeeds on a whole sequence succeeds on every prefix.
pub proof fn lemma_scan_ok_prefix<S: Scalar>(op: ScanOp, xs: Seq<Val<S>>, k: int)
    requires
        scan_acc_ok(op, xs),
        0 <= k <= xs.len(),
    ensures
        scan_acc_ok(op, xs.subrange(0, k)),
    decreases xs.len(),
{
    if k == xs.len() {
        assert(xs.subrange(0, k) =~= xs);
    } else {
        assert(scan_acc_ok(op, xs.drop_last()));
        lemma_scan_ok_prefix(op, xs.drop_last(), k);
        assert(xs.drop_last().subrange(0, k) =~= xs.subrange(0, k));
    }
}

/// Applies one scan step to concrete payloads.
pub fn scan_apply<S: Scalar>(op: &ScanOp, x: Value<S>, acc: &Option<Value<S>>) -> (r: Option<
    Value<S>,
>)
    ensures
        match r {
            Some(v) => scan_apply_s(*op, x@, acc_view_ref(acc)) == Some(v@),
            None => scan_apply_s(*op, x@, acc_view_ref(acc)) is None,
        },
{
    match op {
        ScanOp::Sum => match (&x, acc) {
            (Value::Num(a), None) => Some(Value::Num(*a)),
            (Value::Num(a), Some(Value::Num(o))) => match S::add(*a, *o) {
                Some(v) => Some(Value::Num(v)),
                None => None,
            },
            _ => None,
        },
        ScanOp::OnlineSoftmax => match (&x, acc) {
            (Value::Num(s), None) => Some(
                Value::Run(
                    RunningResult {
                        cur_max: *s,
                        delta_max: *s,
                        exp: S::one(),
                        delta_elem: S::expv(*s),
                    },
                ),
            ),
            (Value::Num(s), Some(Value::Run(prev))) => {
                let nm = S::maxv(*s, prev.cur_max);
                let d1 = match S::sub(prev.cur_max, nm) {
                    Some(d) => d,
                    None => {
                        return None;
                    },
                };
                let d2 = match S::sub(*s, nm) {
                    Some(d) => d,
                    None => {
                        return None;
                    },
                };
                Some(
                    Value::Run(
                        RunningResult {
                            cur_max: nm,
                            delta_max: d1,
                            exp: S::expv(d2),
                            delta_elem: S::expv(d1),
                        },
                    ),
                )
            },
            _ => None,
        },
    }
}

/// The view of an optional payload held by reference.
pub open spec fn acc_view_ref<S>(acc: &Option<Value<S>>) -> Option<Val<S>> {
    match *acc {
        Some(v) => Some(v@),
        None => None,
    }
}

/// A windowed scan block.
pub struct Scan<S> {
    /// Index of this block in the simulation; set when it is added.
    pub id: usize,
    /// The window length.
    pub reset_freq: usize,
    /// Input channel index.
    pub input: usize,
    /// Output channel indices, one per broadcast target.
    pub targets: Vec<usize>,
    /// The update function.
    pub op: ScanOp,
    /// Timing configuration.
    pub timings: ScanTimings,
    /// The block's local clock.
    pub clock: u64,
    /// Position within the current window.
    pub iter: usize,
    /// Windows already completed.
    pub wins: usize,
    /// The running value of the current window; `None` between windows.
    pub accum: Option<Value<S>>,
    /// Whether the block has shut down cleanly.
    pub done: bool,
}

impl<S: Scalar> Scan<S> {
    /// Creates a scan block over the given endpoints.
    pub fn new(
        reset_freq: usize,
        input: Receiver,
        output: BroadcastSender,
        update_fn: ScanOp,
        timings: ScanTimings,
    ) -> (r: Self)
        ensures
            r.id == 0,
            r.reset_freq == reset_freq,
            r.input == input.id,
            r.targets@ == crate::templates::types::sender_ids(output.targets@),
            r.op == update_fn,
            r.timings == timings,
            r.clock == 0,
            r.iter == 0,
            r.wins == 0,
            r.accum is None,
            !r.done,
    {
        Scan {
            id: 0,
            reset_freq,
            input: input.id,
            targets: sender_id_vec(&output.targets),
            op: update_fn,
            timings,
            clock: 0,
            iter: 0,
            wins: 0,
            accum: None,
            done: false,
        }
    }

    /// The input prefix belonging to the current, unfinished window.
    pub open spec fn partial(self, chans: Seq<Channel<S>>) -> Seq<Val<S>> {
        chans[self.input as int].sent().subrange(
            self.wins * self.reset_freq,
            self.wins * self.reset_freq + self.iter,
        )
    }

    /// Output `p` on target `t` is the running fold of its window's prefix
    /// up to and including input `p`.
    pub open spec fn pos_ok(self, chans: Seq<Channel<S>>, t: int, p: int) -> bool {
        let w = self.reset_freq as int;
        let start = (p / w) * w;
        Some(chans[self.targets@[t] as int].sent()[p]) == scan_acc_s(
            self.op,
            chans[self.input as int].sent().subrange(start, p + 1),
        ) && scan_acc_ok(self.op, chans[self.input as int].sent().subrange(start, p + 1))
    }

    /// Coupling with one output channel.
    pub open spec fn target_ok(self, chans: Seq<Channel<S>>, t: int) -> bool {
        let c = self.targets@[t] as int;
        &&& c < chans.len()
        &&& sends_ok(chans[c], self.id, self.clock, self.timings.latency)
        &&& chans[c].receiver_tag != self.id
        &&& chans[c].sent().len() == chans[self.input as int].taken()
        &&& chans[c].closed == self.done
    }

    /// The block's invariant against the channel table.
    pub open spec fn wf(self, chans: Seq<Channel<S>>) -> bool {
        let w = self.reset_freq as int;
        let cin = self.input as int;
        &&& self.reset_freq >= 1
        &&& self.iter < self.reset_freq
        &&& cin < chans.len()
        &&& recvs_ok(chans[cin], self.id, self.clock)
        &&& chans[cin].sender_tag != self.id
        &&& (forall|t: int, j: int|
            0 <= t < j < self.targets@.len() ==> self.targets@[t] != self.targets@[j])
        &&& (forall|t: int| 0 <= t < self.targets@.len() ==> self.targets@[t] != self.input)
        &&& (forall|t: int| 0 <= t < self.targets@.len() ==> #[trigger] self.target_ok(chans, t))
        &&& chans[cin].taken() == self.wins * w + self.iter
        &&& (forall|t: int, p: int|
            0 <= t < self.targets@.len() && 0 <= p < chans[cin].taken() ==> #[trigger] self.pos_ok(
                chans,
                t,
                p,
            ))
        &&& scan_acc_ok(self.op, self.partial(chans))
        &&& acc_view(self.accum) == scan_acc_s(self.op, self.partial(chans))
        &&& (self.iter == 0 <==> self.accum is None)
        &&& (self.done ==> chans[cin].spec_exhausted() && self.iter == 0)
    }

    /// A step by another block leaves this block's invariant intact.
    pub proof fn lemma_wf_frame(self, pre: Seq<Channel<S>>, post: Seq<Channel<S>>, who: usize)
        requires
            self.wf(pre),
            chans_wf(pre),
            chans_wf(post),
            chans_frame(pre, post, who),
            who != self.id,
        ensures
            self.wf(post),
    {
        let w = self.reset_freq as int;
        let cin = self.input as int;
        assert(chan_frame(pre[cin], post[cin], who));
        assert(post[cin].deq_times == pre[cin].deq_times);
        assert(pre[cin].wf());
        assert(pre[cin].taken() <= pre[cin].hist@.len());
        assert(pre[cin].hist@.is_prefix_of(post[cin].hist@));
        assert forall|x: int| 0 <= x < pre[cin].taken() implies post[cin].sent()[x]
            == pre[cin].sent()[x] by {
            assert(post[cin].hist@[x] == pre[cin].hist@[x]);
        }
        assert forall|t: int| 0 <= t < self.targets@.len() implies #[trigger] self.target_ok(
            post,
            t,
        ) by {
            assert(self.target_ok(pre, t));
            let c = self.targets@[t] as int;
            assert(chan_frame(pre[c], post[c], who));
            assert(post[c].hist == pre[c].hist);
        }
        assert(self.partial(post) =~= self.partial(pre));
        assert forall|t: int, p: int|
            0 <= t < self.targets@.len() && 0 <= p < post[cin].taken() implies #[trigger] self.pos_ok(
            post,
            t,
            p,
        ) by {
            assert(self.pos_ok(pre, t, p));
            assert(self.target_ok(pre, t));
            let c = self.targets@[t] as int;
            assert(chan_frame(pre[c], post[c], who));
            assert(post[c].hist == pre[c].hist);
            let start = (p / w) * w;
            assert(post[cin].sent().subrange(start, p + 1) =~= pre[cin].sent().subrange(
                start,
                p + 1,
            )) by {
                broadcast use vstd::arithmetic::div_mod::lemma_fundamental_div_mod;
                broadcast use vstd::arithmetic::div_mod::lemma_mod_bound;

                assert(p == w * (p / w) + p % w);
                assert(0 <= p % w < w);
            }
        }
        if self.done {
            assert(post[cin].hist@ == pre[cin].hist@);
            assert(post[cin].wf());
            assert(post[cin].queue@.len() == 0);
        }
    }

    /// One scheduling step.
    ///
    /// Consumes one input element, folds it into the running value, and
    /// broadcasts the new running value stamped `tick() + latency`,
    /// spending `reset_time` extra cycles at a window start.  Upstream
    /// exhaustion on a window boundary closes the targets and finishes;
    /// mid-window it is a protocol violation.
    #[verifier::rlimit(100)]
    pub fn step(self, table: Vec<Channel<S>>) -> (r: (Self, Vec<Channel<S>>, StepOutcome))
        requires
            chans_wf(table@),
            self.wf(table@),
        ensures
            chans_wf(r.1@),
            chans_frame(table@, r.1@, self.id),
            r.0.id == self.id,
            r.0.input == self.input,
            r.0.targets == self.targets,
            r.0.op == self.op,
            r.0.timings == self.timings,
            r.0.reset_freq == self.reset_freq,
            r.0.clock >= self.clock,
            !(r.2 is Fault) ==> r.0.wf(r.1@),
            r.2 is Blocked ==> r.0 == self && r.1@ == table@,
            r.2 is Blocked ==> self.done || (table@[self.input as int].queue@.len() == 0
                && !table@[self.input as int].closed) || (exists|t: int|
                0 <= t < self.targets@.len()
                    && (#[trigger] table@[self.targets@[t] as int]).queue@.len()
                    >= table@[self.targets@[t] as int].cap),
            r.2 is Finished ==> r.0.done && !self.done && r.1@[self.input as int].taken()
                == table@[self.input as int].taken(),
            r.2 is Progress ==> !r.0.done && r.1@[self.input as int].taken()
                == table@[self.input as int].taken() + 1,
            r.2 is Progress ==> r.0.clock >= sat_add_s(
                max_s(
                    if self.iter == 0 {
                        sat_add_s(self.clock, self.timings.reset_time)
                    } else {
                        self.clock
                    },
                    table@[self.input as int].hist@[table@[self.input as int].taken()].0,
                ),
                self.timings.initiation_interval,
            ),
            r.2 is Progress ==> (forall|t: int|
                0 <= t < self.targets@.len() ==> (#[trigger] r.1@[self.targets@[t] as int].hist@).len()
                    == table@[self.targets@[t] as int].hist@.len() + 1
                    && sat_add_s(
                    r.1@[self.targets@[t] as int].hist@.last().0,
                    self.timings.initiation_interval,
                ) == sat_add_s(r.0.clock, self.timings.latency)
                    && r.1@[self.targets@[t] as int].hist@.last().0 >= sat_add_s(
                    max_s(
                        if self.iter == 0 {
                            sat_add_s(self.clock, self.timings.reset_time)
                        } else {
                            self.clock
                        },
                        table@[self.input as int].hist@[table@[self.input as int].taken()].0,
                    ),
                    self.timings.latency,
                )),
            r.2 matches StepOutcome::Fault(e) ==> (e == SimError::ProtocolViolation || e
                == SimError::BadPayload),
            r.2 == StepOutcome::Fault(SimError::ProtocolViolation) ==> table@[self.input as int].spec_exhausted()
                && self.iter != 0,
            r.2 == StepOutcome::Fault(SimError::BadPayload) ==> scan_apply_s(
                self.op,
                table@[self.input as int].sent()[table@[self.input as int].taken()],
                acc_view(self.accum),
            ) is None && table@[self.input as int].sent().len() > table@[self.input as int].taken(),
            self.done ==> r.2 is Blocked,
    {
        let ghost pre = table@;
        let ghost s0 = self;
        let mut b = self;
        let mut chans = table;
        proof {
            crate::channel::lemma_chans_frame_refl(pre, s0.id);
        }
        if b.done {
            return (b, chans, StepOutcome::Blocked);
        }
        let cin = b.input;
        let w = b.reset_freq;
        let n_out = b.targets.len();

        if chans[cin].queued() == 0 {
            if chans[cin].is_exhausted() {
                if b.iter == 0 {
                    // Clean shutdown: close every target and finish.
                    let mut t: usize = 0;
                    while t < n_out
                        invariant
                            t <= n_out,
                            b == s0,
                            chans@.len() == pre.len(),
                            chans_wf(chans@),
                            chans_frame(pre, chans@, b.id),
                            forall|c: int|
                                0 <= c < pre.len() ==> (#[trigger] chans@[c]) == pre[c] || chans@[c]
                                    == (Channel { closed: true, ..pre[c] }),
                            forall|k: int|
                                0 <= k < t ==> (#[trigger] chans@[b.targets@[k] as int]).closed,
                        decreases n_out - t,
                    {
                        let ghost tcur = t as int;
                        assert(s0.target_ok(pre, tcur));
                        let c = b.targets[t];
                        let ghost snap = chans@;
                        crate::channel::vec_close(&mut chans, c);
                        proof {
                            assert(chans@ == snap.update(
                                c as int,
                                (Channel { closed: true, ..snap[c as int] }),
                            ));
                            assert forall|k: int|
                                0 <= k < tcur + 1 implies (
                            #[trigger] chans@[b.targets@[k] as int]).closed by {
                                assert(s0.target_ok(pre, k));
                                if b.targets@[k] as int != c as int {
                                    crate::channel::lemma_update_untouched(
                                        snap,
                                        chans@,
                                        c as int,
                                        b.targets@[k] as int,
                                    );
                                }
                            }
                            assert forall|c2: int|
                                0 <= c2 < pre.len() implies (#[trigger] chans@[c2]) == pre[c2]
                                || chans@[c2] == (Channel { closed: true, ..pre[c2] }) by {
                                if c2 == c as int {
                                    assert(snap[c2] == pre[c2] || snap[c2] == (Channel {
                                        closed: true,
                                        ..pre[c2]
                                    }));
                                }
                            }
                            assert forall|c2: int| 0 <= c2 < chans@.len() implies (
                            #[trigger] chans@[c2]).wf() by {
                                assert(snap[c2].wf());
                                if c2 == c as int {
                                    assert(chans@[c2].hist == snap[c2].hist && chans@[c2].queue
                                        == snap[c2].queue && chans@[c2].deq_times
                                        == snap[c2].deq_times && chans@[c2].cap == snap[c2].cap);
                                }
                            }
                            assert forall|c2: int| 0 <= c2 < pre.len() implies chan_frame(
                                #[trigger] pre[c2],
                                #[trigger] chans@[c2],
                                b.id,
                            ) by {
                                assert(pre[c2].hist@.is_prefix_of(pre[c2].hist@));
                                assert(pre[c2].deq_times@.is_prefix_of(pre[c2].deq_times@));
                                if c2 == c as int && chans@[c2] != pre[c2] {
                                    assert(pre[c2].sender_tag == b.id);
                                }
                            }
                        }
                        t = t + 1;
                    }
                    b.done = true;
                    proof {
                        let post = chans@;
                        assert(post[cin as int] == pre[cin as int] || post[cin as int] == (Channel {
                            closed: true,
                            ..pre[cin as int]
                        }));
                        assert forall|t2: int|
                            0 <= t2 < b.targets@.len() implies #[trigger] b.target_ok(post, t2) by {
                            assert(s0.target_ok(pre, t2));
                            let c = b.targets@[t2] as int;
                            assert(post[c] == pre[c] || post[c] == (Channel {
                                closed: true,
                                ..pre[c]
                            }));
                            assert(post[c].closed);
                            assert(post[c].hist == pre[c].hist);
                        }
                        assert(b.partial(post) =~= s0.partial(pre));
                        assert forall|t2: int, p: int|
                            0 <= t2 < b.targets@.len() && 0 <= p < post[cin as int].taken() implies
                            #[trigger] b.pos_ok(post, t2, p) by {
                            assert(s0.pos_ok(pre, t2, p));
                            assert(s0.target_ok(pre, t2));
                            let c = b.targets@[t2] as int;
                            assert(post[c] == pre[c] || post[c] == (Channel {
                                closed: true,
                                ..pre[c]
                            }));
                            let wi = b.reset_freq as int;
                            let start = (p / wi) * wi;
                            assert(post[cin as int].sent().subrange(start, p + 1)
                                =~= pre[cin as int].sent().subrange(start, p + 1));
                            assert(post[c].sent() =~= pre[c].sent());
                        }
                    }
                    return (b, chans, StepOutcome::Finished);
                } else {
                    return (b, chans, StepOutcome::Fault(SimError::ProtocolViolation));
                }
            } else {
                return (b, chans, StepOutcome::Blocked);
            }
        }

        // Every output element needs room on every target.
        let mut t: usize = 0;
        while t < n_out
            invariant
                t <= n_out,
                b == s0,
                chans@ == pre,
                forall|k: int|
                    0 <= k < t ==> (#[trigger] chans@[b.targets@[k] as int]).queue@.len()
                        < chans@[b.targets@[k] as int].cap,
            decreases n_out - t,
        {
            let ghost tcur = t as int;
            assert(b.target_ok(chans@, tcur));
            let c = b.targets[t];
            if !chans[c].has_space() {
                return (b, chans, StepOutcome::Blocked);
            }
            t = t + 1;
        }

        let ghost base0: u64 = if s0.iter == 0 {
            sat_add_s(s0.clock, s0.timings.reset_time)
        } else {
            s0.clock
        };
        let ghost etime = pre[cin as int].hist@[pre[cin as int].taken()].0;
        if b.iter == 0 {
            b.clock = sat_add(b.clock, b.timings.reset_time);
        }
        let ghost taken0 = pre[cin as int].taken();
        let ghost snap = chans@;
        let (v, t2) = crate::channel::vec_dequeue(&mut chans, cin, b.clock);
        b.clock = t2;
        proof {
            assert forall|c2: int| 0 <= c2 < chans@.len() implies (#[trigger] chans@[c2]).wf() by {
                if c2 != cin as int {
                    crate::channel::lemma_update_untouched(snap, chans@, cin as int, c2);
                }
                assert(snap[c2].wf());
            }
            assert forall|c2: int| 0 <= c2 < pre.len() implies chan_frame(
                #[trigger] pre[c2],
                #[trigger] chans@[c2],
                b.id,
            ) by {
                assert(pre[c2].hist@.is_prefix_of(pre[c2].hist@));
                assert(pre[c2].deq_times@.is_prefix_of(pre[c2].deq_times@));
                if c2 != cin as int {
                    crate::channel::lemma_update_untouched(snap, chans@, cin as int, c2);
                }
            }
        }
        let y = match scan_apply(&b.op, v, &b.accum) {
            Some(y) => y,
            None => {
                proof {
                    assert(v@ == pre[cin as int].hist@[taken0].1);
                    assert(pre[cin as int].sent()[taken0] == pre[cin as int].hist@[taken0].1);
                    assert(pre[cin as int].sent().len() > taken0);
                    assert(acc_view_ref(&b.accum) == acc_view(s0.accum));
                }
                return (b, chans, StepOutcome::Fault(SimError::BadPayload));
            },
        };
        let ghost yv = y@;
        proof {
            assert(v@ == pre[cin as int].hist@[taken0].1);
            assert(pre[cin as int].sent()[taken0] == pre[cin as int].hist@[taken0].1);
            assert(acc_view_ref(&b.accum) == acc_view(s0.accum));
            assert(scan_apply_s(b.op, v@, acc_view(s0.accum)) == Some(yv));
        }

        // Wait for the slot each target will use, stamp, and broadcast.
        let ghost mid = chans@;
        let ghost clock_mid = b.clock;
        proof {
            assert forall|k: int| 0 <= k < n_out implies (#[trigger] mid[b.targets@[k] as int])
                == pre[b.targets@[k] as int] by {
                assert(s0.target_ok(pre, k));
                crate::channel::lemma_update_untouched(
                    snap,
                    mid,
                    cin as int,
                    b.targets@[k] as int,
                );
            }
            assert forall|k: int|
                0 <= k < n_out implies ((#[trigger] mid[b.targets@[k] as int]).closed == false
                && mid[b.targets@[k] as int].deq_times == pre[b.targets@[k] as int].deq_times) by {
                assert(s0.target_ok(pre, k));
                assert(mid[b.targets@[k] as int] == pre[b.targets@[k] as int]);
            }
        }
        let mut t: usize = 0;
        while t < n_out
            invariant
                t <= n_out,
                chans@ == mid,
                chans@.len() == pre.len(),
                b.id == s0.id,
                b.input == s0.input,
                b.targets == s0.targets,
                b.op == s0.op,
                b.timings == s0.timings,
                b.reset_freq == s0.reset_freq,
                b.iter == s0.iter,
                b.wins == s0.wins,
                b.accum == s0.accum,
                b.done == s0.done,
                b.clock >= clock_mid,
                clock_mid >= s0.clock,
                forall|k: int|
                    0 <= k < n_out ==> (#[trigger] mid[b.targets@[k] as int]) == pre[b.targets@[k] as int],
            decreases n_out - t,
        {
            let ghost tcur = t as int;
            assert(s0.target_ok(pre, tcur));
            let c = b.targets[t];
            assert(chans@[c as int] == pre[c as int]);
            let sft = chans[c].slot_free_time();
            b.clock = max64(b.clock, sft);
            t = t + 1;
        }

        let stamp = sat_add(b.clock, b.timings.latency);
        let ghost clock_bp = b.clock;
        proof {
            assert forall|k: int|
                0 <= k < n_out implies ((#[trigger] chans@[b.targets@[k] as int]).closed == false
                && chans@[b.targets@[k] as int].deq_times == pre[b.targets@[k] as int].deq_times
                && chans@[b.targets@[k] as int].hist@ == pre[b.targets@[k] as int].hist@) by {
                assert(s0.target_ok(pre, k));
                assert(mid[b.targets@[k] as int] == pre[b.targets@[k] as int]);
            }
        }
        let mut t: usize = 0;
        while t < n_out
            invariant
                t <= n_out,
                chans_wf(chans@),
                chans@.len() == pre.len(),
                chans_frame(mid, chans@, b.id),
                b.id == s0.id,
                b.input == s0.input,
                b.targets == s0.targets,
                b.op == s0.op,
                b.timings == s0.timings,
                b.reset_freq == s0.reset_freq,
                b.iter == s0.iter,
                b.wins == s0.wins,
                b.accum == s0.accum,
                b.done == s0.done,
                b.clock == clock_bp,
                clock_bp >= clock_mid,
                clock_mid >= s0.clock,
                stamp == sat_add_s(b.clock, b.timings.latency),
                forall|k: int|
                    0 <= k < n_out ==> (#[trigger] mid[b.targets@[k] as int]) == pre[b.targets@[k] as int],
                forall|k: int|
                    0 <= k < n_out ==> ((#[trigger] chans@[b.targets@[k] as int]).hist@ == (if k < t {
                        pre[b.targets@[k] as int].hist@.push((stamp, yv))
                    } else {
                        pre[b.targets@[k] as int].hist@
                    })),
                forall|k: int|
                    0 <= k < n_out ==> ((#[trigger] chans@[b.targets@[k] as int]).closed == false
                        && chans@[b.targets@[k] as int].deq_times
                        == pre[b.targets@[k] as int].deq_times),
                forall|c: int|
                    0 <= c < pre.len() && (forall|k: int|
                        0 <= k < t ==> b.targets@[k] != c) ==> (#[trigger] chans@[c]) == mid[c],
            decreases n_out - t,
        {
            let ghost tcur = t as int;
            assert(s0.target_ok(pre, tcur));
            let c = b.targets[t];
            assert(chans@[c as int] == mid[c as int]) by {
                assert(forall|k: int| 0 <= k < tcur ==> b.targets@[k] != b.targets@[tcur]);
            }
            assert(mid[c as int] == pre[c as int]);
            assert(pre[c as int].horizon() <= sat_add_s(s0.clock, b.timings.latency));
            assert(sat_add_s(s0.clock, b.timings.latency) <= stamp);
            let y2 = y.dup();
            let ghost snap2 = chans@;
            crate::channel::vec_enqueue(&mut chans, c, stamp, y2);
            proof {
                assert forall|k: int|
                    0 <= k < n_out implies ((#[trigger] chans@[b.targets@[k] as int]).hist@ == (if k
                        < tcur + 1 {
                        pre[b.targets@[k] as int].hist@.push((stamp, yv))
                    } else {
                        pre[b.targets@[k] as int].hist@
                    })) by {
                    assert(s0.target_ok(pre, k));
                    if k != tcur {
                        assert(b.targets@[k] != b.targets@[tcur]);
                        crate::channel::lemma_update_untouched(
                            snap2,
                            chans@,
                            c as int,
                            b.targets@[k] as int,
                        );
                    }
                }
                assert forall|k: int|
                    0 <= k < n_out implies ((#[trigger] chans@[b.targets@[k] as int]).closed
                        == false && chans@[b.targets@[k] as int].deq_times
                        == pre[b.targets@[k] as int].deq_times) by {
                    assert(s0.target_ok(pre, k));
                    if k != tcur {
                        assert(b.targets@[k] != b.targets@[tcur]);
                        crate::channel::lemma_update_untouched(
                            snap2,
                            chans@,
                            c as int,
                            b.targets@[k] as int,
                        );
                    }
                }
                assert forall|c2: int| 0 <= c2 < chans@.len() implies (
                #[trigger] chans@[c2]).wf() by {
                    if c2 != c as int {
                        crate::channel::lemma_update_untouched(snap2, chans@, c as int, c2);
                    }
                    assert(snap2[c2].wf());
                }
                assert(chans_frame(mid, chans@, b.id)) by {
                    assert forall|c2: int| 0 <= c2 < mid.len() implies chan_frame(
                        #[trigger] mid[c2],
                        #[trigger] chans@[c2],
                        b.id,
                    ) by {
                        assert(chan_frame(mid[c2], snap2[c2], b.id));
                        if c2 != c as int {
                            crate::channel::lemma_update_untouched(snap2, chans@, c as int, c2);
                        } else {
                            assert(snap2[c2].hist@.is_prefix_of(chans@[c2].hist@));
                            assert(mid[c2].hist@.is_prefix_of(chans@[c2].hist@));
                            assert(mid[c2].deq_times@.is_prefix_of(chans@[c2].deq_times@));
                        }
                    }
                }
            }
            t = t + 1;
        }
        b.clock = sat_add(b.clock, b.timings.initiation_interval);
        proof {
            assert(clock_mid == max_s(base0, etime));
            assert(b.clock >= sat_add_s(max_s(base0, etime), s0.timings.initiation_interval));
            assert forall|k: int|
                0 <= k < n_out implies (#[trigger] chans@[b.targets@[k] as int].hist@).len()
                == pre[b.targets@[k] as int].hist@.len() + 1 && sat_add_s(
                chans@[b.targets@[k] as int].hist@.last().0,
                s0.timings.initiation_interval,
            ) == sat_add_s(b.clock, s0.timings.latency)
                && chans@[b.targets@[k] as int].hist@.last().0 >= sat_add_s(
                max_s(base0, etime),
                s0.timings.latency,
            ) by {
                assert(chans@[b.targets@[k] as int].hist@ == pre[b.targets@[k] as int].hist@.push(
                    (stamp, yv),
                ));
                assert(chans@[b.targets@[k] as int].hist@.last().0 == stamp);
                assert(stamp == sat_add_s(clock_bp, s0.timings.latency));
                assert(b.clock == sat_add_s(clock_bp, s0.timings.initiation_interval));
            }
        }
        let ghost p0 = s0.wins * (w as int) + s0.iter;
        proof {
            crate::channel::lemma_chan_frame_trans(pre, mid, chans@, b.id);
            broadcast use vstd::std_specs::vec::axiom_spec_len;

            let ghost dv = chans@[cin as int].deq_times;
            assert(vstd::std_specs::vec::spec_vec_len(&dv) == dv@.len());
            assert(chans@[cin as int].taken() == p0 + 1);
        }
        let ghost prefix = pre[cin as int].sent().subrange(s0.wins * (w as int), p0 + 1);
        proof {
            assert(prefix.drop_last() =~= s0.partial(pre));
            assert(prefix.last() == pre[cin as int].sent()[p0]);
            assert(scan_acc_ok(b.op, prefix));
            assert(scan_acc_s(b.op, prefix) == Some(yv));
            assert(s0.wins <= s0.wins * (w as int)) by (nonlinear_arith)
                requires
                    w as int >= 1,
                    s0.wins >= 0,
            ;
            assert(s0.wins + 1 <= chans@[cin as int].taken());
        }
        if b.iter + 1 == w {
            b.iter = 0;
            b.wins = b.wins + 1;
            b.accum = None;
        } else {
            b.iter = b.iter + 1;
            b.accum = Some(y);
        }
        proof {
            let post = chans@;
            let wi = w as int;
            assert(post[cin as int].hist@ == pre[cin as int].hist@);
            assert(post[cin as int].taken() == p0 + 1);
            if s0.iter + 1 == wi {
                assert(b.wins * wi == p0 + 1) by (nonlinear_arith)
                    requires
                        b.wins == s0.wins + 1,
                        p0 == s0.wins * wi + s0.iter,
                        s0.iter + 1 == wi,
                ;
                assert(b.partial(post) =~= Seq::<Val<S>>::empty());
            } else {
                assert(b.partial(post) =~= prefix) by {
                    assert forall|x: int|
                        s0.wins * wi <= x < p0 + 1 implies post[cin as int].sent()[x]
                        == pre[cin as int].sent()[x] by {
                        assert(post[cin as int].hist@ == pre[cin as int].hist@);
                    }
                }
            }
            assert forall|t2: int| 0 <= t2 < b.targets@.len() implies #[trigger] b.target_ok(
                post,
                t2,
            ) by {
                assert(s0.target_ok(pre, t2));
                let c = b.targets@[t2] as int;
                assert(post[c].hist@ == pre[c].hist@.push((stamp, yv)));
                assert(post[c].sent() =~= pre[c].sent().push(yv));
                assert(post[c].horizon() == stamp);
                assert(sat_add_s(clock_bp, b.timings.latency) <= sat_add_s(
                    b.clock,
                    b.timings.latency,
                ));
            }
            assert forall|t2: int, p: int|
                0 <= t2 < b.targets@.len() && 0 <= p < post[cin as int].taken() implies
                #[trigger] b.pos_ok(post, t2, p) by {
                assert(s0.target_ok(pre, t2));
                let c = b.targets@[t2] as int;
                assert(post[c].sent() =~= pre[c].sent().push(yv));
                let start = (p / wi) * wi;
                if p < p0 {
                    assert(s0.pos_ok(pre, t2, p));
                    assert(post[c].sent()[p] == pre[c].sent()[p]);
                    assert(post[cin as int].sent().subrange(start, p + 1)
                        =~= pre[cin as int].sent().subrange(start, p + 1)) by {
                        broadcast use vstd::arithmetic::div_mod::lemma_fundamental_div_mod;
                        broadcast use vstd::arithmetic::div_mod::lemma_mod_bound;

                        assert(p == wi * (p / wi) + p % wi);
                        assert(0 <= p % wi < wi);
                    }
                } else {
                    assert(p == p0);
                    vstd::arithmetic::div_mod::lemma_fundamental_div_mod_converse_div(
                        p0,
                        wi,
                        s0.wins as int,
                        s0.iter as int,
                    );
                    assert(p0 / wi == s0.wins);
                    assert(start == s0.wins * wi);
                    assert(post[c].sent()[p0] == yv);
                    assert(post[cin as int].sent().subrange(start, p0 + 1) =~= prefix);
                }
            }
        }
        (b, chans, StepOutcome::Progress)
    }
}

} // verus!

verus! {

/// The scan law in its additive form: the running fold of a sequence of
/// integer payloads with the sum update succeeds and is exactly the sum of
/// that sequence, whenever every prefix sum is representable.  Applied to
/// each window prefix, this says a scan with addition emits the running
/// prefix sums of its window.
pub proof fn lemma_scan_sum(xs: Seq<Val<i64>>)
    requires
        crate::templates::reduce::all_nums(xs),
        crate::templates::reduce::sums_in_range(xs),
        xs.len() > 0,
    ensures
        scan_acc_ok(ScanOp::Sum, xs),
        scan_acc_s(ScanOp::Sum, xs) == Some(
            Val::Num(crate::templates::reduce::int_sum(xs) as i64),
        ),
    decreases xs.len(),
{
    let sum = crate::templates::reduce::int_sum(xs);
    assert(xs.subrange(0, xs.len() as int) =~= xs);
    assert(sum == crate::templates::reduce::int_sum(xs.subrange(0, xs.len() as int)));
    if xs.len() == 1 {
        assert(xs.drop_last() =~= Seq::<Val<i64>>::empty());
        assert(crate::templates::reduce::int_sum(xs.drop_last()) == 0);
        assert(xs.subrange(0, 1) =~= xs);
        assert(xs[xs.len() - 1] is Num);
        assert(scan_acc_s(ScanOp::Sum, xs.drop_last()) is None);
        assert(scan_acc_ok(ScanOp::Sum, xs.drop_last()));
        let a = match xs.last() {
            Val::Num(a) => a,
            _ => 0,
        };
        assert(scan_apply_s(ScanOp::Sum, xs.last(), None::<Val<i64>>) == Some(Val::Num(a)));
        assert(sum == a as int);
    } else {
        let pre = xs.drop_last();
        assert(crate::templates::reduce::all_nums(pre)) by {
            assert forall|i: int| 0 <= i < pre.len() implies (#[trigger] pre[i]) is Num by {
                assert(pre[i] == xs[i]);
            }
        }
        assert(crate::templates::reduce::sums_in_range(pre)) by {
            assert forall|i: int|
                0 <= i <= pre.len() implies i64::MIN
                <= #[trigger] crate::templates::reduce::int_sum(pre.subrange(0, i)) <= i64::MAX by {
                assert(pre.subrange(0, i) =~= xs.subrange(0, i));
            }
        }
        lemma_scan_sum(pre);
        assert(pre =~= xs.subrange(0, pre.len() as int));
        let o = crate::templates::reduce::int_sum(pre) as i64;
        let a = match xs.last() {
            Val::Num(a) => a,
            _ => 0,
        };
        assert(sum == crate::templates::reduce::int_sum(pre) + a);
        assert(i64::MIN <= crate::templates::reduce::int_sum(pre) <= i64::MAX) by {
            assert(crate::templates::reduce::int_sum(xs.subrange(0, pre.len() as int))
                == crate::templates::reduce::int_sum(pre));
        }
        assert(i64::MIN <= sum <= i64::MAX);
        assert(xs[xs.len() - 1] is Num);
        assert(xs.last() == Val::Num(a));
        assert(<i64 as Scalar>::add_ok(a, o));
        assert(scan_acc_s(ScanOp::Sum, pre) == Some(Val::Num(o)));
        assert(scan_apply_s(ScanOp::Sum, xs.last(), Some(Val::Num(o))) == Some(
            Val::Num(<i64 as Scalar>::add_s(a, o)),
        ));
        assert(scan_acc_ok(ScanOp::Sum, xs));
        assert(<i64 as Scalar>::add_s(a, o) == sum as i64);
    }
}

} // verus!
