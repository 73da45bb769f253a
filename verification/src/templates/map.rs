//! The map primitive.
//!
//! Each iteration receives one element from every input, applies the
//! configured function in zero simulated time, broadcasts the result
//! stamped `tick() + latency`, and advances the local clock by the
//! initiation interval.  The block shuts down cleanly when an input is
//! exhausted.

use vstd::prelude::*;

use crate::channel::{
    chan_frame, chans_frame, chans_wf, in_vals_at, max64, recvs_ok, sat_add, sat_add_s, sends_ok,
    Channel,
};
use crate::scalar::Scalar;
use crate::simulation::{SimError, StepOutcome};
use crate::templates::types::{receiver_id_vec, sender_id_vec, BroadcastSender, Receiver};
use crate::value::{vals_of, Val, Value};

verus! {

/// Timing of a map block.
#[derive(Clone, Copy, Debug)]
pub struct MapTimings {
    /// Minimum cycle gap between consecutive acceptances of input.
    pub initiation_interval: u64,
    /// Cycles from input acceptance to the output becoming visible.
    pub latency: u64,
}

/// The function a map block applies to the payloads it joins.
#[derive(Clone, Copy, Debug)]
pub enum MapOp<S> {
    /// One scalar input; adds the constant.
    AddConst(S),
    /// One scalar input; applies the exponential.
    Exp,
    /// Two scalar inputs; divides the first by the second.
    Div,
    /// One input carrying a pair of scalars; divides the first by the
    /// second.
    DivPair,
}

/// What a map operation yields on one joint input, or `None` when the
/// payload shapes do not match the operation or its arithmetic faults.
pub open spec fn map_apply_s<S: Scalar>(op: MapOp<S>, xs: Seq<Val<S>>) -> Option<Val<S>> {
    match op {
        MapOp::AddConst(c) => {
            if xs.len() == 1 {
                match xs[0] {
                    Val::Num(a) => {
                        if S::add_ok(a, c) {
                            Some(Val::Num(S::add_s(a, c)))
                        } else {
                            None
                        }
                    },
                    _ => None,
                }
            } else {
                None
            }
        },
        MapOp::Exp => {
            if xs.len() == 1 {
                match xs[0] {
                    Val::Num(a) => Some(Val::Num(S::exp_s(a))),
                    _ => None,
                }
            } else {
                None
            }
        },
        MapOp::Div => {
            if xs.len() == 2 {
                match (xs[0], xs[1]) {
                    (Val::Num(a), Val::Num(b)) => {
                        if S::div_ok(a, b) {
                            Some(Val::Num(S::div_s(a, b)))
                        } else {
                            None
                        }
                    },
                    _ => None,
                }
            } else {
                None
            }
        },
        MapOp::DivPair => {
            if xs.len() == 1 {
                match xs[0] {
                    Val::Pair(p, q) => match (*p, *q) {
                        (Val::Num(a), Val::Num(b)) => {
                            if S::div_ok(a, b) {
                                Some(Val::Num(S::div_s(a, b)))
                            } else {
                                None
                            }
                        },
                        _ => None,
                    },
                    _ => None,
                }
            } else {
                None
            }
        },
    }
}

/// Applies a map operation to one joint input.
pub fn map_apply<S: Scalar>(op: &MapOp<S>, xs: &Vec<Value<S>>) -> (r: Option<Value<S>>)
    ensures
        match r {
            Some(v) => map_apply_s(*op, vals_of(xs@)) == Some(v@),
            None => map_apply_s(*op, vals_of(xs@)) is None,
        },
{
    match op {
        MapOp::AddConst(c) => {
            if xs.len() == 1 {
                match &xs[0] {
                    Value::Num(a) => match S::add(*a, *c) {
                        Some(v) => Some(Value::Num(v)),
                        None => None,
                    },
                    _ => None,
                }
            } else {
                None
            }
        },
        MapOp::Exp => {
            if xs.len() == 1 {
                match &xs[0] {
                    Value::Num(a) => Some(Value::Num(S::expv(*a))),
                    _ => None,
                }
            } else {
                None
            }
        },
        MapOp::Div => {
            if xs.len() == 2 {
                let bad = match (&xs[0], &xs[1]) {
                    (Value::Num(_), Value::Num(_)) => false,
                    _ => true,
                };
                if bad {
                    return None;
                }
                match (&xs[0], &xs[1]) {
                    (Value::Num(a), Value::Num(b)) => match S::div(*a, *b) {
                        Some(v) => Some(Value::Num(v)),
                        None => None,
                    },
                    _ => None,
                }
            } else {
                None
            }
        },
        MapOp::DivPair => {
            if xs.len() == 1 {
                match &xs[0] {
                    Value::Pair(p, q) => match (&**p, &**q) {
                        (Value::Num(a), Value::Num(b)) => {
                            proof {
                                assert(vals_of(xs@)[0] == xs@[0]@);
                            }
                            match S::div(*a, *b) {
                                Some(v) => Some(Value::Num(v)),
                                None => None,
                            }
                        },
                        _ => {
                            proof {
                                let pv = (**p)@;
                                let qv = (**q)@;
                                assert(vals_of(xs@)[0] == xs@[0]@);
                            }
                            None
                        },
                    },
                    _ => {
                        proof {
                            assert(vals_of(xs@)[0] == xs@[0]@);
                        }
                        None
                    },
                }
            } else {
                None
            }
        },
    }
}

/// A map block: joins its inputs element by element and broadcasts the
/// image of each joint input.
pub struct MapBlock<S> {
    /// Index of this block in the simulation; set when it is added.
    pub id: usize,
    /// Input channel indices.
    pub inputs: Vec<usize>,
    /// Output channel indices, one per broadcast target.
    pub targets: Vec<usize>,
    /// The function applied to each joint input.
    pub op: MapOp<S>,
    /// Latency and initiation interval.
    pub timings: MapTimings,
    /// The block's local clock.
    pub clock: u64,
    /// How many joint inputs have been consumed and answered.
    pub count: usize,
    /// Whether the block has shut down cleanly.
    pub done: bool,
}

impl<S: Scalar> MapBlock<S> {
    /// Creates a map block over the given endpoints.
    pub fn new(input: Vec<Receiver>, output: BroadcastSender, mapf: MapOp<S>, timings: MapTimings) -> (r:
        Self)
        ensures
            r.inputs@ == crate::templates::types::receiver_ids(input@),
            r.targets@ == crate::templates::types::sender_ids(output.targets@),
            r.op == mapf,
            r.timings == timings,
            r.clock == 0,
            r.count == 0,
            !r.done,
            r.id == 0,
    {
        MapBlock {
            id: 0,
            inputs: receiver_id_vec(&input),
            targets: sender_id_vec(&output.targets),
            op: mapf,
            timings,
            clock: 0,
            count: 0,
            done: false,
        }
    }

    /// Coupling with one input channel.
    pub open spec fn in_ok(self, chans: Seq<Channel<S>>, i: int) -> bool {
        let c = self.inputs@[i] as int;
        &&& c < chans.len()
        &&& recvs_ok(chans[c], self.id, self.clock)
        &&& chans[c].sender_tag != self.id
        &&& chans[c].taken() == self.count
    }

    /// Broadcast element `j` carries the same timestamp on target `t` as on
    /// target 0: a fan-out enqueues clones of one element.
    pub open spec fn stamp_ok(self, chans: Seq<Channel<S>>, t: int, j: int) -> bool {
        chans[self.targets@[t] as int].hist@[j].0 == chans[self.targets@[0] as int].hist@[j].0
    }

    /// Output `j` on target `t` is stamped no earlier than the arrival of
    /// joint input `j` plus the block's latency (saturating at the clock's
    /// ceiling): the output becomes visible `latency` cycles after the
    /// inputs are accepted.
    pub open spec fn lat_ok(self, chans: Seq<Channel<S>>, t: int, j: int) -> bool {
        chans[self.targets@[t] as int].hist@[j].0 >= sat_add_s(
            chans[self.inputs@[0] as int].hist@[j].0,
            self.timings.latency,
        )
    }

    /// Coupling with one output channel, including what was sent on it.
    pub open spec fn target_ok(self, chans: Seq<Channel<S>>, t: int) -> bool {
        let c = self.targets@[t] as int;
        &&& c < chans.len()
        &&& sends_ok(chans[c], self.id, self.clock, self.timings.latency)
        &&& chans[c].receiver_tag != self.id
        &&& chans[c].sent().len() == self.count
        &&& (forall|j: int|
            0 <= j < self.count ==> map_apply_s(self.op, in_vals_at(chans, self.inputs@, j)) == Some(
                #[trigger] chans[c].sent()[j],
            ))
        &&& chans[c].closed == self.done
    }

    /// The block's invariant against the channel table.
    pub open spec fn wf(self, chans: Seq<Channel<S>>) -> bool {
        &&& self.inputs@.len() >= 1
        &&& (forall|i: int, j: int|
            0 <= i < j < self.inputs@.len() ==> self.inputs@[i] != self.inputs@[j])
        &&& (forall|i: int, j: int|
            0 <= i < j < self.targets@.len() ==> self.targets@[i] != self.targets@[j])
        &&& (forall|i: int| 0 <= i < self.inputs@.len() ==> #[trigger] self.in_ok(chans, i))
        &&& (forall|t: int| 0 <= t < self.targets@.len() ==> #[trigger] self.target_ok(chans, t))
        &&& (forall|t: int, j: int|
            0 <= t < self.targets@.len() && 0 <= j < self.count ==> #[trigger] self.stamp_ok(
                chans,
                t,
                j,
            ))
        &&& (forall|t: int, j: int|
            0 <= t < self.targets@.len() && 0 <= j < self.count ==> #[trigger] self.lat_ok(
                chans,
                t,
                j,
            ))
        &&& (self.done ==> exists|i: int|
            0 <= i < self.inputs@.len() && (#[trigger] chans[self.inputs@[i] as int]).spec_exhausted())
    }

    /// A step by another block leaves this block's invariant intact.
    pub proof fn lemma_wf_frame(self, pre: Seq<Channel<S>>, post: Seq<Channel<S>>, who: usize)
        requires
            self.wf(pre),
            chans_wf(pre),
            chans_wf(post),
            chans_frame(pre, post, who),
            who != self.id,
        ensures
            self.wf(post),
    {
        assert forall|i: int| 0 <= i < self.inputs@.len() implies #[trigger] self.in_ok(post, i) by {
            assert(self.in_ok(pre, i));
            let c = self.inputs@[i] as int;
            assert(chan_frame(pre[c], post[c], who));
        }
        assert forall|t: int| 0 <= t < self.targets@.len() implies #[trigger] self.target_ok(
            post,
            t,
        ) by {
            assert(self.target_ok(pre, t));
            let c = self.targets@[t] as int;
            assert(chan_frame(pre[c], post[c], who));
            assert(post[c].hist == pre[c].hist);
            assert forall|j: int| 0 <= j < self.count implies map_apply_s(
                self.op,
                in_vals_at(post, self.inputs@, j),
            ) == Some(#[trigger] post[c].sent()[j]) by {
                assert(map_apply_s(self.op, in_vals_at(pre, self.inputs@, j)) == Some(
                    pre[c].sent()[j],
                ));
                assert(in_vals_at(post, self.inputs@, j) =~= in_vals_at(pre, self.inputs@, j)) by {
                    assert forall|i: int| 0 <= i < self.inputs@.len() implies in_vals_at(
                        post,
                        self.inputs@,
                        j,
                    )[i] == in_vals_at(pre, self.inputs@, j)[i] by {
                        assert(self.in_ok(pre, i));
                        let ci = self.inputs@[i] as int;
                        assert(chan_frame(pre[ci], post[ci], who));
                        assert(pre[ci].hist@.is_prefix_of(post[ci].hist@));
                        assert(j < pre[ci].taken());
                        assert(pre[ci].wf());
                        assert(post[ci].hist@[j] == pre[ci].hist@[j]);
                    }
                }
            }
        }
        assert forall|t: int, j: int|
            0 <= t < self.targets@.len() && 0 <= j < self.count implies #[trigger] self.stamp_ok(
            post,
            t,
            j,
        ) by {
            assert(self.stamp_ok(pre, t, j));
            assert(self.target_ok(pre, t));
            assert(self.target_ok(pre, 0));
            let ct = self.targets@[t] as int;
            let c0 = self.targets@[0] as int;
            assert(chan_frame(pre[ct], post[ct], who));
            assert(chan_frame(pre[c0], post[c0], who));
        }
        assert forall|t: int, j: int|
            0 <= t < self.targets@.len() && 0 <= j < self.count implies #[trigger] self.lat_ok(
            post,
            t,
            j,
        ) by {
            assert(self.lat_ok(pre, t, j));
            assert(self.target_ok(pre, t));
            assert(self.in_ok(pre, 0));
            let ct = self.targets@[t] as int;
            let ci = self.inputs@[0] as int;
            assert(chan_frame(pre[ct], post[ct], who));
            assert(chan_frame(pre[ci], post[ci], who));
            assert(pre[ci].hist@.is_prefix_of(post[ci].hist@));
            assert(pre[ci].wf());
            assert(post[ci].hist@[j] == pre[ci].hist@[j]);
        }
        if self.done {
            let i = choose|i: int|
                0 <= i < self.inputs@.len() && (#[trigger] pre[self.inputs@[i] as int]).spec_exhausted();
            let c = self.inputs@[i] as int;
            assert(self.in_ok(pre, i));
            assert(chan_frame(pre[c], post[c], who));
            assert(pre[c].wf());
            assert(post[c].wf());
            assert(post[c].hist@ == pre[c].hist@);
            assert(post[c].deq_times@ == pre[c].deq_times@);
            assert(post[c].queue@.len() == 0);
            assert(post[c].spec_exhausted());
        }
    }

    /// One scheduling step.
    ///
    /// If every input has an element and every target has space, receives
    /// one element from each input, applies the operation, broadcasts the
    /// result stamped `tick() + latency`, and advances the clock by the
    /// initiation interval.  If an input is exhausted, closes the targets
    /// and finishes.  Otherwise the block is blocked and nothing changes.
    pub fn step(self, table: Vec<Channel<S>>) -> (r: (Self, Vec<Channel<S>>, StepOutcome))
        requires
            chans_wf(table@),
            self.wf(table@),
        ensures
            chans_wf(r.1@),
            chans_frame(table@, r.1@, self.id),
            r.0.id == self.id,
            r.0.inputs == self.inputs,
            r.0.targets == self.targets,
            r.0.op == self.op,
            r.0.timings == self.timings,
            r.0.clock >= self.clock,
            r.0.count >= self.count,
            !(r.2 is Fault) ==> r.0.wf(r.1@),
            r.2 is Blocked ==> r.0 == self && r.1@ == table@,
            r.2 is Blocked ==> self.done || (exists|i: int|
                0 <= i < self.inputs@.len()
                    && (#[trigger] table@[self.inputs@[i] as int]).queue@.len() == 0
                    && !table@[self.inputs@[i] as int].closed) || (exists|t: int|
                0 <= t < self.targets@.len()
                    && (#[trigger] table@[self.targets@[t] as int]).queue@.len()
                    >= table@[self.targets@[t] as int].cap),
            r.2 is Finished ==> r.0.done && !self.done && r.0.count == self.count,
            r.2 is Progress ==> !r.0.done && r.0.count == self.count + 1,
            r.2 matches StepOutcome::Fault(e) ==> e == SimError::BadPayload && map_apply_s(
                self.op,
                in_vals_at(table@, self.inputs@, self.count as int),
            ) is None && (forall|i: int|
                0 <= i < self.inputs@.len() ==> (#[trigger] table@[self.inputs@[i] as int]).sent().len()
                    > self.count),
            self.done ==> r.2 is Blocked,
    {
        let ghost pre = table@;
        let ghost s0 = self;
        let mut b = self;
        let mut chans = table;
        proof {
            crate::channel::lemma_chans_frame_refl(pre, s0.id);
        }
        if b.done {
            return (b, chans, StepOutcome::Blocked);
        }
        let n_in = b.inputs.len();
        let n_out = b.targets.len();

        // Find out whether every input has data, or some input is
        // exhausted.
        let mut exhausted = false;
        let mut i: usize = 0;
        while i < n_in
            invariant
                i <= n_in,
                b == s0,
                chans@ == pre,
                !exhausted ==> forall|k: int|
                    0 <= k < i ==> (#[trigger] chans@[b.inputs@[k] as int]).queue@.len() > 0,
                exhausted ==> exists|k: int|
                    0 <= k < n_in && (#[trigger] chans@[b.inputs@[k] as int]).spec_exhausted(),
            decreases n_in - i,
        {
            let ghost icur = i as int;
            assert(b.in_ok(chans@, icur));
            let c = b.inputs[i];
            if chans[c].queued() == 0 {
                if chans[c].is_exhausted() {
                    exhausted = true;
                } else {
                    return (b, chans, StepOutcome::Blocked);
                }
            }
            if exhausted {
                i = n_in;
            } else {
                i = i + 1;
            }
        }

        if exhausted {
            // Clean shutdown: close every target and finish.
            let mut t: usize = 0;
            while t < n_out
                invariant
                    t <= n_out,
                    b == s0,
                    chans@.len() == pre.len(),
                    chans_wf(chans@),
                    chans_frame(pre, chans@, b.id),
                    forall|c: int|
                        0 <= c < pre.len() ==> (#[trigger] chans@[c]) == pre[c] || chans@[c] == (
                        Channel { closed: true, ..pre[c] }),
                    forall|k: int|
                        0 <= k < t ==> (#[trigger] chans@[b.targets@[k] as int]).closed,
                decreases n_out - t,
            {
                let ghost tcur = t as int;
                assert(s0.target_ok(pre, tcur));
                let c = b.targets[t];
                let ghost snap = chans@;
                proof {
                    assert(snap == chans@);
                }
                crate::channel::vec_close(&mut chans, c);
                proof {
                    assert(chans@ == snap.update(
                        c as int,
                        (Channel { closed: true, ..snap[c as int] }),
                    ));
                    assert forall|k: int|
                        0 <= k < tcur + 1 implies (#[trigger] chans@[b.targets@[k] as int]).closed
                        by {
                        assert(s0.target_ok(pre, k));
                        if b.targets@[k] as int != c as int {
                            crate::channel::lemma_update_untouched(
                                snap,
                                chans@,
                                c as int,
                                b.targets@[k] as int,
                            );
                        }
                    }
                    assert forall|c2: int|
                        0 <= c2 < pre.len() implies (#[trigger] chans@[c2]) == pre[c2] || chans@[c2]
                        == (Channel { closed: true, ..pre[c2] }) by {
                        if c2 == c as int {
                            assert(snap[c2] == pre[c2] || snap[c2] == (Channel {
                                closed: true,
                                ..pre[c2]
                            }));
                        }
                    }
                    assert forall|c2: int| 0 <= c2 < chans@.len() implies (
                    #[trigger] chans@[c2]).wf() by {
                        assert(snap[c2].wf());
                        if c2 == c as int {
                            assert(chans@[c2].hist == snap[c2].hist && chans@[c2].queue
                                == snap[c2].queue && chans@[c2].deq_times == snap[c2].deq_times
                                && chans@[c2].cap == snap[c2].cap);
                        }
                    }
                    assert forall|c2: int| 0 <= c2 < pre.len() implies chan_frame(
                        #[trigger] pre[c2],
                        #[trigger] chans@[c2],
                        b.id,
                    ) by {
                        assert(pre[c2].hist@.is_prefix_of(pre[c2].hist@));
                        assert(pre[c2].deq_times@.is_prefix_of(pre[c2].deq_times@));
                        if c2 == c as int && chans@[c2] != pre[c2] {
                            assert(pre[c2].sender_tag == b.id);
                        }
                    }
                }
                t = t + 1;
            }
            b.done = true;
            proof {
                let post = chans@;
                assert forall|ii: int| 0 <= ii < b.inputs@.len() implies #[trigger] b.in_ok(
                    post,
                    ii,
                ) by {
                    assert(s0.in_ok(pre, ii));
                    let c = b.inputs@[ii] as int;
                    assert(post[c] == pre[c] || post[c] == (Channel { closed: true, ..pre[c] }));
                }
                assert forall|tt: int| 0 <= tt < b.targets@.len() implies #[trigger] b.target_ok(
                    post,
                    tt,
                ) by {
                    assert(s0.target_ok(pre, tt));
                    let c = b.targets@[tt] as int;
                    assert(post[c] == pre[c] || post[c] == (Channel { closed: true, ..pre[c] }));
                    assert(post[c].closed);
                    assert(post[c].hist == pre[c].hist);
                    assert forall|j: int| 0 <= j < b.count implies map_apply_s(
                        b.op,
                        in_vals_at(post, b.inputs@, j),
                    ) == Some(#[trigger] post[c].sent()[j]) by {
                        assert(map_apply_s(s0.op, in_vals_at(pre, s0.inputs@, j)) == Some(
                            pre[c].sent()[j],
                        ));
                        assert(in_vals_at(post, b.inputs@, j) =~= in_vals_at(pre, s0.inputs@, j))
                            by {
                            assert forall|i2: int| 0 <= i2 < b.inputs@.len() implies in_vals_at(
                                post,
                                b.inputs@,
                                j,
                            )[i2] == in_vals_at(pre, s0.inputs@, j)[i2] by {
                                assert(s0.in_ok(pre, i2));
                                let ci = b.inputs@[i2] as int;
                                assert(post[ci] == pre[ci] || post[ci] == (Channel {
                                    closed: true,
                                    ..pre[ci]
                                }));
                            }
                        }
                    }
                }
                assert(exists|k: int|
                    0 <= k < b.inputs@.len() && (#[trigger] post[b.inputs@[k] as int]).spec_exhausted())
                by {
                    let k = choose|k: int|
                        0 <= k < n_in && (#[trigger] pre[s0.inputs@[k] as int]).spec_exhausted();
                    let c = b.inputs@[k] as int;
                    assert(s0.in_ok(pre, k));
                    assert(post[c] == pre[c] || post[c] == (Channel { closed: true, ..pre[c] }));
                    assert(post[b.inputs@[k] as int].spec_exhausted());
                }
                assert forall|t: int, j: int|
                    0 <= t < b.targets@.len() && 0 <= j < b.count implies #[trigger] b.stamp_ok(
                    post,
                    t,
                    j,
                ) by {
                    assert(s0.stamp_ok(pre, t, j));
                    assert(s0.target_ok(pre, t));
                    assert(s0.target_ok(pre, 0));
                    let ct = b.targets@[t] as int;
                    let c0 = b.targets@[0] as int;
                    assert(post[ct] == pre[ct] || post[ct] == (Channel { closed: true, ..pre[ct] }));
                    assert(post[c0] == pre[c0] || post[c0] == (Channel { closed: true, ..pre[c0] }));
                }
                assert forall|t: int, j: int|
                    0 <= t < b.targets@.len() && 0 <= j < b.count implies #[trigger] b.lat_ok(
                    post,
                    t,
                    j,
                ) by {
                    assert(s0.lat_ok(pre, t, j));
                    assert(s0.target_ok(pre, t));
                    assert(s0.in_ok(pre, 0));
                    let ct = b.targets@[t] as int;
                    let ci = b.inputs@[0] as int;
                    assert(post[ct] == pre[ct] || post[ct] == (Channel { closed: true, ..pre[ct] }));
                    assert(post[ci] == pre[ci] || post[ci] == (Channel { closed: true, ..pre[ci] }));
                }
            }
            return (b, chans, StepOutcome::Finished);
        }

        // Every input has data; make sure every target has space.
        let mut t: usize = 0;
        while t < n_out
            invariant
                t <= n_out,
                b == s0,
                chans@ == pre,
                forall|k: int|
                    0 <= k < t ==> (#[trigger] chans@[b.targets@[k] as int]).queue@.len()
                        < chans@[b.targets@[k] as int].cap,
            decreases n_out - t,
        {
            let ghost tcur = t as int;
            assert(b.target_ok(chans@, tcur));
            let c = b.targets[t];
            if !chans[c].has_space() {
                return (b, chans, StepOutcome::Blocked);
            }
            t = t + 1;
        }

        // Receive one element from every input.
        let ghost count0 = b.count as int;
        proof {
            assert forall|k: int|
                0 <= k < n_in implies ((#[trigger] chans@[b.inputs@[k] as int]).taken() == count0
                && chans@[b.inputs@[k] as int].deq_last() <= b.clock) by {
                assert(b.in_ok(chans@, k));
            }
        }
        let mut xs: Vec<Value<S>> = Vec::new();
        let mut i: usize = 0;
        while i < n_in
            invariant
                i <= n_in,
                chans_wf(chans@),
                chans_frame(pre, chans@, b.id),
                chans@.len() == pre.len(),
                b.id == s0.id,
                b.inputs == s0.inputs,
                b.targets == s0.targets,
                b.op == s0.op,
                b.timings == s0.timings,
                b.count == s0.count,
                b.done == s0.done,
                b.clock >= s0.clock,
                xs@.len() == i,
                forall|k: int| 0 <= k < i ==> vals_of(xs@)[k] == in_vals_at(pre, b.inputs@, count0)[k],
                forall|k: int|
                    0 <= k < n_in ==> (#[trigger] chans@[b.inputs@[k] as int]).taken() == count0 + (
                    if k < i {
                        1int
                    } else {
                        0int
                    }),
                forall|k: int|
                    0 <= k < n_in ==> (#[trigger] chans@[b.inputs@[k] as int]).deq_last() <= b.clock,
                i >= 1 ==> b.clock >= pre[b.inputs@[0] as int].hist@[count0].0,
                forall|k: int|
                    i <= k < n_in ==> (#[trigger] chans@[b.inputs@[k] as int]).queue@.len() > 0,
                forall|c: int|
                    0 <= c < pre.len() && (forall|k: int|
                        0 <= k < i ==> b.inputs@[k] != c) ==> (#[trigger] chans@[c]) == pre[c],
            decreases n_in - i,
        {
            let ghost icur = i as int;
            assert(s0.in_ok(pre, icur));
            let c = b.inputs[i];
            assert(chans@[c as int].hist@ == pre[c as int].hist@) by {
                assert(chan_frame(pre[c as int], chans@[c as int], b.id));
            }
            let ghost snap = chans@;
            let ghost xs0 = xs@;
            let (v, t2) = crate::channel::vec_dequeue(&mut chans, c, b.clock);
            b.clock = t2;
            xs.push(v);
            proof {
                assert(xs@ == xs0.push(v));
                assert(v@ == pre[c as int].hist@[count0].1);
                assert(in_vals_at(pre, b.inputs@, count0)[icur] == pre[c as int].sent()[count0]);
                assert(pre[c as int].sent()[count0] == pre[c as int].hist@[count0].1);
                assert forall|k: int| 0 <= k < icur + 1 implies vals_of(xs@)[k] == in_vals_at(
                    pre,
                    b.inputs@,
                    count0,
                )[k] by {
                    if k < icur {
                        assert(xs@[k] == xs0[k]);
                        assert(vals_of(xs0)[k] == xs0[k]@);
                        assert(vals_of(xs@)[k] == xs@[k]@);
                    } else {
                        assert(xs@[k] == v);
                        assert(vals_of(xs@)[k] == v@);
                    }
                }
                assert forall|k: int|
                    0 <= k < n_in implies (#[trigger] chans@[b.inputs@[k] as int]).taken() == count0
                    + (if k < icur + 1 {
                    1int
                } else {
                    0int
                }) by {
                    assert(s0.in_ok(pre, k));
                    if k != icur {
                        assert(b.inputs@[k] != b.inputs@[icur]);
                        crate::channel::lemma_update_untouched(
                            snap,
                            chans@,
                            c as int,
                            b.inputs@[k] as int,
                        );
                    } else {
                        assert(chans@[c as int].taken() == snap[c as int].taken() + 1);
                    }
                }
                assert forall|k: int|
                    0 <= k < n_in implies (#[trigger] chans@[b.inputs@[k] as int]).deq_last()
                    <= b.clock by {
                    assert(s0.in_ok(pre, k));
                    if k != icur {
                        assert(b.inputs@[k] != b.inputs@[icur]);
                        crate::channel::lemma_update_untouched(
                            snap,
                            chans@,
                            c as int,
                            b.inputs@[k] as int,
                        );
                    }
                }
                assert forall|k: int|
                    icur + 1 <= k < n_in implies (#[trigger] chans@[b.inputs@[k] as int]).queue@.len()
                    > 0 by {
                    assert(s0.in_ok(pre, k));
                    assert(b.inputs@[k] != b.inputs@[icur]);
                    crate::channel::lemma_update_untouched(
                        snap,
                        chans@,
                        c as int,
                        b.inputs@[k] as int,
                    );
                }
                assert forall|c2: int| 0 <= c2 < chans@.len() implies (
                #[trigger] chans@[c2]).wf() by {
                    if c2 != c as int {
                        crate::channel::lemma_update_untouched(snap, chans@, c as int, c2);
                    }
                    assert(snap[c2].wf());
                }
                assert(chans_frame(pre, chans@, b.id)) by {
                    assert forall|c2: int| 0 <= c2 < pre.len() implies chan_frame(
                        #[trigger] pre[c2],
                        #[trigger] chans@[c2],
                        b.id,
                    ) by {
                        assert(chan_frame(pre[c2], snap[c2], b.id));
                        if c2 != c as int {
                            crate::channel::lemma_update_untouched(snap, chans@, c as int, c2);
                        } else {
                            assert(pre[c2].hist@.is_prefix_of(chans@[c2].hist@));
                            assert(snap[c2].deq_times@.is_prefix_of(chans@[c2].deq_times@));
                            assert(pre[c2].deq_times@.is_prefix_of(chans@[c2].deq_times@));
                        }
                    }
                }
            }
            i = i + 1;
        }

        // Apply the function.
        let y = match map_apply(&b.op, &xs) {
            Some(y) => y,
            None => {
                proof {
                    assert(vals_of(xs@) =~= in_vals_at(pre, b.inputs@, count0));
                    assert forall|i2: int|
                        0 <= i2 < b.inputs@.len() implies (#[trigger] pre[b.inputs@[i2] as int]).sent().len()
                        > count0 by {
                        assert(s0.in_ok(pre, i2));
                        let ci = b.inputs@[i2] as int;
                        assert(chans@[ci].taken() == count0 + 1);
                        assert(chan_frame(pre[ci], chans@[ci], b.id));
                        assert(chans@[ci].hist@ == pre[ci].hist@);
                        assert(chans@[ci].wf());
                    }
                }
                return (b, chans, StepOutcome::Fault(SimError::BadPayload));
            },
        };
        proof {
            assert(vals_of(xs@) =~= in_vals_at(pre, b.inputs@, count0));
        }
        let ghost yv = y@;

        // Wait for the slot each target will use, stamp, and broadcast.
        let ghost mid = chans@;
        let ghost clock_mid = b.clock;
        proof {
            assert forall|k: int| 0 <= k < n_out implies (#[trigger] mid[b.targets@[k] as int])
                == pre[b.targets@[k] as int] by {
                assert(s0.target_ok(pre, k));
                let c = b.targets@[k] as int;
                assert(pre[c].receiver_tag != b.id);
                assert forall|k2: int| 0 <= k2 < n_in implies b.inputs@[k2] != c by {
                    assert(s0.in_ok(pre, k2));
                    assert(pre[b.inputs@[k2] as int].receiver_tag == b.id);
                }
            }
            assert forall|k: int|
                0 <= k < n_out implies ((#[trigger] mid[b.targets@[k] as int]).closed == false
                && mid[b.targets@[k] as int].deq_times == pre[b.targets@[k] as int].deq_times) by {
                assert(s0.target_ok(pre, k));
            }
        }
        let mut t: usize = 0;
        while t < n_out
            invariant
                t <= n_out,
                chans@ == mid,
                chans@.len() == pre.len(),
                b.id == s0.id,
                b.inputs == s0.inputs,
                b.targets == s0.targets,
                b.op == s0.op,
                b.timings == s0.timings,
                b.count == s0.count,
                b.done == s0.done,
                b.clock >= clock_mid,
                clock_mid >= s0.clock,
            decreases n_out - t,
        {
            let ghost tcur = t as int;
            assert(s0.target_ok(pre, tcur));
            let c = b.targets[t];
            assert(chans@[c as int] == pre[c as int]);
            let sft = chans[c].slot_free_time();
            b.clock = max64(b.clock, sft);
            t = t + 1;
        }

        let stamp = sat_add(b.clock, b.timings.latency);
        let ghost clock_bp = b.clock;
        let mut t: usize = 0;
        while t < n_out
            invariant
                t <= n_out,
                chans_wf(chans@),
                chans@.len() == pre.len(),
                chans_frame(mid, chans@, b.id),
                b.id == s0.id,
                b.inputs == s0.inputs,
                b.targets == s0.targets,
                b.op == s0.op,
                b.timings == s0.timings,
                b.count == s0.count,
                b.done == s0.done,
                b.clock == clock_bp,
                clock_bp >= clock_mid,
                clock_mid >= s0.clock,
                stamp == sat_add_s(b.clock, b.timings.latency),
                forall|k: int|
                    0 <= k < n_out ==> ((#[trigger] chans@[b.targets@[k] as int]).hist@ == (if k < t {
                        pre[b.targets@[k] as int].hist@.push((stamp, yv))
                    } else {
                        pre[b.targets@[k] as int].hist@
                    })),
                forall|k: int|
                    0 <= k < n_out ==> ((#[trigger] chans@[b.targets@[k] as int]).closed == false
                        && chans@[b.targets@[k] as int].deq_times == pre[b.targets@[k] as int].deq_times),
                forall|c: int|
                    0 <= c < pre.len() && (forall|k: int|
                        0 <= k < t ==> b.targets@[k] != c) ==> (#[trigger] chans@[c]) == mid[c],
            decreases n_out - t,
        {
            let ghost tcur = t as int;
            assert(s0.target_ok(pre, tcur));
            let c = b.targets[t];
            assert(chans@[c as int] == mid[c as int]) by {
                assert(forall|k: int| 0 <= k < tcur ==> b.targets@[k] != b.targets@[tcur]);
            }
            assert(mid[c as int] == pre[c as int]);
            assert(pre[c as int].horizon() <= sat_add_s(s0.clock, b.timings.latency));
            assert(sat_add_s(s0.clock, b.timings.latency) <= stamp);
            let y2 = y.dup();
            let ghost snap = chans@;
            crate::channel::vec_enqueue(&mut chans, c, stamp, y2);
            proof {
                assert forall|k: int|
                    0 <= k < n_out implies ((#[trigger] chans@[b.targets@[k] as int]).hist@ == (if k
                        < tcur + 1 {
                        pre[b.targets@[k] as int].hist@.push((stamp, yv))
                    } else {
                        pre[b.targets@[k] as int].hist@
                    })) by {
                    assert(s0.target_ok(pre, k));
                    if k != tcur {
                        assert(b.targets@[k] != b.targets@[tcur]);
                        crate::channel::lemma_update_untouched(
                            snap,
                            chans@,
                            c as int,
                            b.targets@[k] as int,
                        );
                    }
                }
                assert forall|k: int|
                    0 <= k < n_out implies ((#[trigger] chans@[b.targets@[k] as int]).closed == false
                        && chans@[b.targets@[k] as int].deq_times == pre[b.targets@[k] as int].deq_times)
                    by {
                    assert(s0.target_ok(pre, k));
                    if k != tcur {
                        assert(b.targets@[k] != b.targets@[tcur]);
                        crate::channel::lemma_update_untouched(
                            snap,
                            chans@,
                            c as int,
                            b.targets@[k] as int,
                        );
                    }
                }
                assert forall|c2: int| 0 <= c2 < chans@.len() implies (
                #[trigger] chans@[c2]).wf() by {
                    if c2 != c as int {
                        crate::channel::lemma_update_untouched(snap, chans@, c as int, c2);
                    }
                    assert(snap[c2].wf());
                }
                assert(chans_frame(mid, chans@, b.id)) by {
                    assert forall|c2: int| 0 <= c2 < mid.len() implies chan_frame(
                        #[trigger] mid[c2],
                        #[trigger] chans@[c2],
                        b.id,
                    ) by {
                        assert(chan_frame(mid[c2], snap[c2], b.id));
                        if c2 != c as int {
                            crate::channel::lemma_update_untouched(snap, chans@, c as int, c2);
                        } else {
                            assert(snap[c2].hist@.is_prefix_of(chans@[c2].hist@));
                            assert(mid[c2].hist@.is_prefix_of(chans@[c2].hist@));
                            assert(mid[c2].deq_times@.is_prefix_of(chans@[c2].deq_times@));
                        }
                    }
                }
            }
            t = t + 1;
        }
        b.clock = sat_add(b.clock, b.timings.initiation_interval);
        proof {
            broadcast use vstd::std_specs::vec::axiom_spec_len;
            assert(s0.in_ok(pre, 0));
            let ci = b.inputs@[0] as int;
            assert forall|k2: int| 0 <= k2 < n_out implies b.targets@[k2] != b.inputs@[0] by {
                assert(s0.target_ok(pre, k2));
                assert(pre[b.targets@[k2] as int].sender_tag == b.id);
                assert(pre[ci].sender_tag != b.id);
            }
            assert(chans@[ci] == mid[ci]);
            assert(mid[ci].taken() == count0 + 1);
            let ghost dv = chans@[ci].deq_times;
            assert(vstd::std_specs::vec::spec_vec_len(&dv) == dv@.len());
            assert(dv@.len() == count0 + 1);
        }
        b.count = b.count + 1;
        proof {
            let post = chans@;
            crate::channel::lemma_chan_frame_trans(pre, mid, post, b.id);
            assert forall|ii: int| 0 <= ii < b.inputs@.len() implies #[trigger] b.in_ok(post, ii) by {
                assert(s0.in_ok(pre, ii));
                let c = b.inputs@[ii] as int;
                assert(chan_frame(mid[c], post[c], b.id));
                assert(post[c].deq_times == mid[c].deq_times) by {
                    if post[c] != mid[c] {
                        assert(exists|k: int| 0 <= k < n_out && b.targets@[k] == c);
                        let k = choose|k: int| 0 <= k < n_out && b.targets@[k] == c;
                        assert(s0.target_ok(pre, k));
                        assert(pre[c].receiver_tag != b.id);
                        assert(pre[c].receiver_tag == b.id);
                    }
                }
                assert(post[c].taken() == count0 + 1);
            }
            assert forall|tt: int| 0 <= tt < b.targets@.len() implies #[trigger] b.target_ok(
                post,
                tt,
            ) by {
                assert(s0.target_ok(pre, tt));
                let c = b.targets@[tt] as int;
                assert(post[c].hist@ == pre[c].hist@.push((stamp, yv)));
                assert(post[c].sent() =~= pre[c].sent().push(yv));
                assert(post[c].sent().len() == b.count);
                assert(post[c].horizon() == stamp);
                assert(sat_add_s(clock_bp, b.timings.latency) <= sat_add_s(b.clock, b.timings.latency));
                assert forall|j: int| 0 <= j < b.count implies map_apply_s(
                    b.op,
                    in_vals_at(post, b.inputs@, j),
                ) == Some(#[trigger] post[c].sent()[j]) by {
                    assert(in_vals_at(post, b.inputs@, j) =~= in_vals_at(pre, s0.inputs@, j)) by {
                        assert forall|i2: int| 0 <= i2 < b.inputs@.len() implies in_vals_at(
                            post,
                            b.inputs@,
                            j,
                        )[i2] == in_vals_at(pre, s0.inputs@, j)[i2] by {
                            assert(s0.in_ok(pre, i2));
                            let ci = b.inputs@[i2] as int;
                            assert(chan_frame(pre[ci], post[ci], b.id));
                            assert(pre[ci].hist@.is_prefix_of(post[ci].hist@));
                            assert(pre[ci].wf());
                            assert(post[ci].hist@[j] == pre[ci].hist@[j]);
                        }
                    }
                    if j < count0 {
                        assert(map_apply_s(s0.op, in_vals_at(pre, s0.inputs@, j)) == Some(
                            pre[c].sent()[j],
                        ));
                        assert(post[c].sent()[j] == pre[c].sent()[j]);
                    } else {
                        assert(j == count0);
                        assert(post[c].sent()[j] == yv);
                        assert(map_apply_s(b.op, in_vals_at(pre, b.inputs@, count0)) == Some(yv));
                    }
                }
            }
            assert forall|t: int, j: int|
                0 <= t < b.targets@.len() && 0 <= j < b.count implies #[trigger] b.stamp_ok(
                post,
                t,
                j,
            ) by {
                assert(s0.target_ok(pre, t));
                assert(s0.target_ok(pre, 0));
                let ct = b.targets@[t] as int;
                let c0 = b.targets@[0] as int;
                assert(post[ct].hist@ == pre[ct].hist@.push((stamp, yv)));
                assert(post[c0].hist@ == pre[c0].hist@.push((stamp, yv)));
                if j < count0 {
                    assert(s0.stamp_ok(pre, t, j));
                    assert(post[ct].hist@[j] == pre[ct].hist@[j]);
                    assert(post[c0].hist@[j] == pre[c0].hist@[j]);
                } else {
                    assert(post[ct].hist@[j].0 == stamp);
                    assert(post[c0].hist@[j].0 == stamp);
                }
            }
            assert forall|t: int, j: int|
                0 <= t < b.targets@.len() && 0 <= j < b.count implies #[trigger] b.lat_ok(
                post,
                t,
                j,
            ) by {
                assert(s0.target_ok(pre, t));
                assert(s0.in_ok(pre, 0));
                let ct = b.targets@[t] as int;
                let ci = b.inputs@[0] as int;
                assert(post[ct].hist@ == pre[ct].hist@.push((stamp, yv)));
                assert(post[ci].hist@ == pre[ci].hist@);
                assert(pre[ci].wf());
                if j < count0 {
                    assert(s0.lat_ok(pre, t, j));
                    assert(post[ct].hist@[j] == pre[ct].hist@[j]);
                } else {
                    assert(post[ct].hist@[j].0 == stamp);
                    assert(clock_bp >= clock_mid);
                    assert(clock_mid >= pre[ci].hist@[count0].0);
                    assert(stamp == sat_add_s(clock_bp, b.timings.latency));
                    assert(stamp >= sat_add_s(pre[ci].hist@[count0].0, b.timings.latency));
                }
            }
        }
        (b, chans, StepOutcome::Progress)
    }
}

} // verus!
