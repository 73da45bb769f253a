//! The flatmap primitive.
//!
//! A flatmap block receives one element, expands it into a run of output
//! payloads, and broadcasts those one per step, each stamped
//! `tick() + latency` with the clock advancing by the initiation interval
//! per output.  An element may expand to nothing.  The block shuts down
//! cleanly when its input is exhausted between elements.

use vstd::prelude::*;

use crate::channel::{
    chan_frame, chans_frame, chans_wf, max64, recvs_ok, sat_add, sat_add_s, sends_ok, Channel,
};
use crate::scalar::Scalar;
use crate::simulation::{SimError, StepOutcome};
use crate::templates::types::{sender_id_vec, BroadcastSender, Receiver};
use crate::value::{vals_of, Val, Value};

verus! {

/// Timing of a flatmap block.
#[derive(Clone, Copy, Debug)]
pub struct FlatmapTimings {
    /// Minimum cycle gap between consecutive outputs.
    pub initiation_interval: u64,
    /// Cycles from an input to each of its outputs becoming visible.
    pub latency: u64,
}

/// The expansion a flatmap block applies to each element.
#[derive(Clone, Copy, Debug)]
pub enum FlatmapOp {
    /// A scalar `v` expands to the scalars `0, 1, .., v - 1`.
    Iota,
    /// A pair of a vector and a scalar expands to the vector divided by
    /// the scalar, element-wise.
    Scale,
}

/// Element `i` of a scale expansion divides without fault.
pub open spec fn sc_elem_ok<S: Scalar>(v: Seq<S>, d: S, i: int) -> bool {
    S::div_ok(v[i], d)
}

/// Every element of a scale expansion divides without fault.
pub open spec fn sc_all_ok<S: Scalar>(v: Seq<S>, d: S) -> bool {
    forall|i: int| 0 <= i < v.len() ==> #[trigger] sc_elem_ok(v, d, i)
}

/// What one element expands to, or `None` when the payload shape does not
/// match the operation or its arithmetic faults.
pub open spec fn flat_apply_s<S: Scalar>(op: FlatmapOp, x: Val<S>) -> Option<Seq<Val<S>>> {
    match op {
        FlatmapOp::Iota => match x {
            Val::Num(a) => Some(
                Seq::new(S::count_s(a) as nat, |i: int| Val::Num(S::of_u64_s(i as u64))),
            ),
            _ => None,
        },
        FlatmapOp::Scale => match x {
            Val::Pair(p, q) => match (*p, *q) {
                (Val::Vect(v), Val::Num(d)) => if sc_all_ok(v, d) {
                    Some(Seq::new(v.len(), |i: int| Val::Num(S::div_s(v[i], d))))
                } else {
                    None
                },
                _ => None,
            },
            _ => None,
        },
    }
}

/// The concatenation of the expansions of every element of `ins`,
/// meaningful where each expansion succeeds.
pub open spec fn flat_out<S: Scalar>(op: FlatmapOp, ins: Seq<Val<S>>) -> Seq<Val<S>>
    decreases ins.len(),
{
    if ins.len() == 0 {
        Seq::empty()
    } else {
        flat_out(op, ins.drop_last()) + flat_apply_s(op, ins.last())->Some_0
    }
}

/// The expansions of a prefix never outnumber the expansions of the whole
/// stream.
pub proof fn lemma_flat_out_prefix<S: Scalar>(op: FlatmapOp, xs: Seq<Val<S>>, k: int)
    requires
        0 <= k <= xs.len(),
    ensures
        flat_out(op, xs.subrange(0, k)).len() <= flat_out(op, xs).len(),
    decreases xs.len(),
{
    if k == xs.len() {
        assert(xs.subrange(0, k) =~= xs);
    } else {
        assert(xs.drop_last().subrange(0, k) =~= xs.subrange(0, k));
        lemma_flat_out_prefix(op, xs.drop_last(), k);
    }
}

/// Expands one element into concrete payloads.
pub fn flat_apply<S: Scalar>(op: &FlatmapOp, x: Value<S>) -> (r: Option<Vec<Value<S>>>)
    ensures
        match r {
            Some(vs) => flat_apply_s(*op, x@) == Some(vals_of(vs@)),
            None => flat_apply_s(*op, x@) is None,
        },
{
    match op {
        FlatmapOp::Iota => match &x {
            Value::Num(a) => {
                let n = S::count(*a);
                let mut out: Vec<Value<S>> = Vec::new();
                let mut i: u64 = 0;
                while i < n
                    invariant
                        i <= n,
                        n == S::count_s(*a),
                        out@.len() == i,
                        forall|k: int|
                            0 <= k < i ==> (#[trigger] out@[k])@ == Val::Num(
                                S::of_u64_s(k as u64),
                            ),
                    decreases n - i,
                {
                    out.push(Value::Num(S::of_u64(i)));
                    i = i + 1;
                }
                proof {
                    assert(vals_of(out@) =~= Seq::new(
                        S::count_s(*a) as nat,
                        |i: int| Val::Num(S::of_u64_s(i as u64)),
                    )) by {
                        assert forall|k: int| 0 <= k < out@.len() implies vals_of(out@)[k]
                            == Val::Num(S::of_u64_s(k as u64)) by {
                            assert(vals_of(out@)[k] == out@[k]@);
                        }
                    }
                }
                Some(out)
            },
            _ => None,
        },
        FlatmapOp::Scale => match &x {
            Value::Pair(p, q) => match (&**p, &**q) {
                (Value::Vect(v), Value::Num(d)) => {
                    let mut out: Vec<Value<S>> = Vec::new();
                    let mut i: usize = 0;
                    while i < v.len()
                        invariant
                            i <= v.len(),
                            out@.len() == i,
                            forall|k: int|
                                0 <= k < i ==> sc_elem_ok(v@, *d, k) && (#[trigger] out@[k])@
                                    == Val::Num(S::div_s(v@[k], *d)),
                        decreases v.len() - i,
                    {
                        let vi = v[i];
                        let dv = *d;
                        match S::div(vi, dv) {
                            Some(c) => out.push(Value::Num(c)),
                            None => {
                                proof {
                                    assert((**p)@ == Val::Vect(v@));
                                    assert((**q)@ == Val::Num(*d));
                                    assert(vi == v@[i as int] && dv == *d);
                                    assert(!S::div_ok(v@[i as int], *d));
                                    assert(!sc_elem_ok(v@, *d, i as int));
                                    assert(!sc_all_ok(v@, *d));
                                    assert(flat_apply_s(*op, x@) is None);
                                }
                                return None;
                            },
                        }
                        i = i + 1;
                    }
                    proof {
                        assert((**p)@ == Val::Vect(v@));
                        assert((**q)@ == Val::Num(*d));
                        assert(sc_all_ok(v@, *d)) by {
                            assert forall|k: int| 0 <= k < v@.len() implies #[trigger] sc_elem_ok(
                                v@,
                                *d,
                                k,
                            ) by {
                                assert(out@[k]@ == Val::Num(S::div_s(v@[k], *d)));
                            }
                        }
                        assert(vals_of(out@) =~= Seq::new(
                            v@.len(),
                            |i: int| Val::Num(S::div_s(v@[i], *d)),
                        )) by {
                            assert forall|k: int| 0 <= k < out@.len() implies vals_of(out@)[k]
                                == Val::Num(S::div_s(v@[k], *d)) by {
                                assert(vals_of(out@)[k] == out@[k]@);
                            }
                        }
                        assert(flat_apply_s(*op, x@) == Some(vals_of(out@)));
                    }
                    Some(out)
                },
                _ => {
                    proof {
                        let pv = (**p)@;
                        let qv = (**q)@;
                        assert(flat_apply_s(*op, x@) is None);
                    }
                    None
                },
            },
            _ => None,
        },
    }
}

/// A flatmap block: expands each input into a run of outputs.
pub struct Flatmap<S> {
    /// Index of this block in the simulation; set when it is added.
    pub id: usize,
    /// Input channel index.
    pub input: usize,
    /// Output channel indices, one per broadcast target.
    pub targets: Vec<usize>,
    /// The expansion applied to each element.
    pub op: FlatmapOp,
    /// Latency and initiation interval.
    pub timings: FlatmapTimings,
    /// The block's local clock.
    pub clock: u64,
    /// The not-yet-emitted expansion of the last received element.
    pub pending: Vec<Value<S>>,
    /// How many payloads of `pending` have been emitted.
    pub pos: usize,
    /// Whether the block has shut down cleanly.
    pub done: bool,
}

impl<S: Scalar> Flatmap<S> {
    /// Creates a flatmap block over the given endpoints.  The expansions
    /// here join exactly one input stream.
    pub fn new(
        input: Vec<Receiver>,
        output: BroadcastSender,
        flatmapf: FlatmapOp,
        timings: FlatmapTimings,
    ) -> (r: Self)
        requires
            input@.len() == 1,
        ensures
            r.id == 0,
            r.input == input@[0].id,
            r.targets@ == crate::templates::types::sender_ids(output.targets@),
            r.op == flatmapf,
            r.timings == timings,
            r.clock == 0,
            r.pending@.len() == 0,
            r.pos == 0,
            !r.done,
    {
        Flatmap {
            id: 0,
            input: input[0].id,
            targets: sender_id_vec(&output.targets),
            op: flatmapf,
            timings,
            clock: 0,
            pending: Vec::new(),
            pos: 0,
            done: false,
        }
    }

    /// Expansion `j` of the consumed prefix succeeded.
    pub open spec fn eaten_ok(self, chans: Seq<Channel<S>>, j: int) -> bool {
        flat_apply_s(self.op, chans[self.input as int].sent()[j]) is Some
    }

    /// The stream every target must have sent so far: the expansions of
    /// every fully handled element, plus the emitted part of the current
    /// one.
    pub open spec fn expected_out(self, chans: Seq<Channel<S>>) -> Seq<Val<S>> {
        let consumed = chans[self.input as int].sent().subrange(
            0,
            chans[self.input as int].taken(),
        );
        if self.pending@.len() > 0 {
            flat_out(self.op, consumed.drop_last()) + vals_of(self.pending@).subrange(
                0,
                self.pos as int,
            )
        } else {
            flat_out(self.op, consumed)
        }
    }

    /// Coupling with one output channel.
    pub open spec fn target_ok(self, chans: Seq<Channel<S>>, t: int) -> bool {
        let c = self.targets@[t] as int;
        &&& c < chans.len()
        &&& sends_ok(chans[c], self.id, self.clock, self.timings.latency)
        &&& chans[c].receiver_tag != self.id
        &&& chans[c].sent() == self.expected_out(chans)
        &&& chans[c].closed == self.done
    }

    /// The block's invariant against the channel table.
    pub open spec fn wf(self, chans: Seq<Channel<S>>) -> bool {
        let cin = self.input as int;
        &&& cin < chans.len()
        &&& recvs_ok(chans[cin], self.id, self.clock)
        &&& chans[cin].sender_tag != self.id
        &&& (forall|t: int, j: int|
            0 <= t < j < self.targets@.len() ==> self.targets@[t] != self.targets@[j])
        &&& (forall|t: int| 0 <= t < self.targets@.len() ==> self.targets@[t] != self.input)
        &&& (forall|t: int| 0 <= t < self.targets@.len() ==> #[trigger] self.target_ok(chans, t))
        &&& self.pos <= self.pending@.len()
        &&& (self.pending@.len() > 0 ==> chans[cin].taken() >= 1 && flat_apply_s(
            self.op,
            chans[cin].sent()[chans[cin].taken() - 1],
        ) == Some(vals_of(self.pending@)) && self.pos < self.pending@.len())
        &&& (self.pending@.len() == 0 ==> self.pos == 0)
        &&& (forall|j: int| 0 <= j < chans[cin].taken() ==> #[trigger] self.eaten_ok(chans, j))
        &&& (self.done ==> chans[cin].spec_exhausted() && self.pending@.len() == 0)
    }

    /// A step by another block leaves this block's invariant intact.
    pub proof fn lemma_wf_frame(self, pre: Seq<Channel<S>>, post: Seq<Channel<S>>, who: usize)
        requires
            self.wf(pre),
            chans_wf(pre),
            chans_wf(post),
            chans_frame(pre, post, who),
            who != self.id,
        ensures
            self.wf(post),
    {
        let cin = self.input as int;
        assert(chan_frame(pre[cin], post[cin], who));
        assert(post[cin].deq_times == pre[cin].deq_times);
        assert(pre[cin].wf());
        assert(pre[cin].taken() <= pre[cin].hist@.len());
        assert(pre[cin].hist@.is_prefix_of(post[cin].hist@));
        assert forall|x: int| 0 <= x < pre[cin].taken() implies post[cin].sent()[x]
            == pre[cin].sent()[x] by {
            assert(post[cin].hist@[x] == pre[cin].hist@[x]);
        }
        assert(post[cin].sent().subrange(0, post[cin].taken()) =~= pre[cin].sent().subrange(
            0,
            pre[cin].taken(),
        ));
        assert(self.expected_out(post) == self.expected_out(pre));
        assert forall|t: int| 0 <= t < self.targets@.len() implies #[trigger] self.target_ok(
            post,
            t,
        ) by {
            assert(self.target_ok(pre, t));
            let c = self.targets@[t] as int;
            assert(chan_frame(pre[c], post[c], who));
            assert(post[c].hist == pre[c].hist);
        }
        assert forall|j: int| 0 <= j < post[cin].taken() implies #[trigger] self.eaten_ok(
            post,
            j,
        ) by {
            assert(self.eaten_ok(pre, j));
        }
        if self.done {
            assert(post[cin].hist@ == pre[cin].hist@);
            assert(post[cin].wf());
            assert(post[cin].queue@.len() == 0);
        }
    }

    /// One scheduling step.
    ///
    /// With part of an expansion still in hand, broadcasts its next
    /// payload stamped `tick() + latency` and advances the clock by the
    /// initiation interval.  Otherwise receives the next input and expands
    /// it, or finishes when the input is exhausted.
    #[verifier::rlimit(100)]
    pub fn step(self, table: Vec<Channel<S>>) -> (r: (Self, Vec<Channel<S>>, StepOutcome))
        requires
            chans_wf(table@),
            self.wf(table@),
        ensures
            chans_wf(r.1@),
            chans_frame(table@, r.1@, self.id),
            r.0.id == self.id,
            r.0.input == self.input,
            r.0.targets == self.targets,
            r.0.op == self.op,
            r.0.timings == self.timings,
            r.0.clock >= self.clock,
            !(r.2 is Fault) ==> r.0.wf(r.1@),
            r.2 is Blocked ==> r.0 == self && r.1@ == table@,
            r.2 is Blocked ==> self.done || (self.pending@.len() == 0
                && table@[self.input as int].queue@.len() == 0
                && !table@[self.input as int].closed) || (self.pending@.len() > 0 && exists|t: int|
                0 <= t < self.targets@.len()
                    && (#[trigger] table@[self.targets@[t] as int]).queue@.len()
                    >= table@[self.targets@[t] as int].cap),
            r.2 is Finished ==> r.0.done && !self.done,
            r.2 is Progress ==> !r.0.done,
            r.2 is Progress && self.targets@.len() > 0 ==> r.1@[self.input as int].taken()
                + r.1@[self.targets@[0] as int].hist@.len() == table@[self.input as int].taken()
                + table@[self.targets@[0] as int].hist@.len() + 1,
            r.2 is Finished ==> r.1@[self.input as int].taken()
                == table@[self.input as int].taken() && (self.targets@.len() > 0
                ==> r.1@[self.targets@[0] as int].hist@.len()
                == table@[self.targets@[0] as int].hist@.len()),
            r.2 matches StepOutcome::Fault(e) ==> e == SimError::BadPayload && flat_apply_s(
                self.op,
                table@[self.input as int].sent()[table@[self.input as int].taken()],
            ) is None && table@[self.input as int].sent().len() > table@[self.input as int].taken(),
            self.done ==> r.2 is Blocked,
    {
        let ghost pre = table@;
        let ghost s0 = self;
        let mut b = self;
        let mut chans = table;
        proof {
            crate::channel::lemma_chans_frame_refl(pre, s0.id);
        }
        if b.done {
            return (b, chans, StepOutcome::Blocked);
        }
        let cin = b.input;
        let n_out = b.targets.len();

        if b.pos < b.pending.len() {
            // Emit the next payload of the current expansion.
            let mut t: usize = 0;
            while t < n_out
                invariant
                    t <= n_out,
                    b == s0,
                    chans@ == pre,
                    forall|k: int|
                        0 <= k < t ==> (#[trigger] chans@[b.targets@[k] as int]).queue@.len()
                            < chans@[b.targets@[k] as int].cap,
                decreases n_out - t,
            {
                let ghost tcur = t as int;
                assert(b.target_ok(chans@, tcur));
                let c = b.targets[t];
                if !chans[c].has_space() {
                    return (b, chans, StepOutcome::Blocked);
                }
                t = t + 1;
            }
            let y = b.pending[b.pos].dup();
            let ghost yv = y@;
            proof {
                assert(yv == vals_of(b.pending@)[b.pos as int]);
            }
            let ghost mid = chans@;
            let mut t: usize = 0;
            while t < n_out
                invariant
                    t <= n_out,
                    chans@ == mid,
                    mid == pre,
                    chans@.len() == pre.len(),
                    b.id == s0.id,
                    b.input == s0.input,
                    b.targets == s0.targets,
                    b.op == s0.op,
                    b.timings == s0.timings,
                    b.pending == s0.pending,
                    b.pos == s0.pos,
                    b.done == s0.done,
                    b.clock >= s0.clock,
                decreases n_out - t,
            {
                let ghost tcur = t as int;
                assert(s0.target_ok(pre, tcur));
                let c = b.targets[t];
                assert(chans@[c as int] == pre[c as int]);
                let sft = chans[c].slot_free_time();
                b.clock = max64(b.clock, sft);
                t = t + 1;
            }
            let stamp = sat_add(b.clock, b.timings.latency);
            let ghost clock_bp = b.clock;
            proof {
                assert forall|k: int|
                    0 <= k < n_out implies ((#[trigger] chans@[b.targets@[k] as int]).closed
                    == false && chans@[b.targets@[k] as int].deq_times
                    == pre[b.targets@[k] as int].deq_times && chans@[b.targets@[k] as int].hist@
                    == pre[b.targets@[k] as int].hist@) by {
                    assert(s0.target_ok(pre, k));
                }
            }
            let mut t: usize = 0;
            while t < n_out
                invariant
                    t <= n_out,
                    chans_wf(chans@),
                    chans@.len() == pre.len(),
                    chans_frame(mid, chans@, b.id),
                    mid == pre,
                    b.id == s0.id,
                    b.input == s0.input,
                    b.targets == s0.targets,
                    b.op == s0.op,
                    b.timings == s0.timings,
                    b.pending == s0.pending,
                    b.pos == s0.pos,
                    b.done == s0.done,
                    b.clock == clock_bp,
                    clock_bp >= s0.clock,
                    stamp == sat_add_s(b.clock, b.timings.latency),
                    forall|k: int|
                        0 <= k < n_out ==> ((#[trigger] chans@[b.targets@[k] as int]).hist@ == (if k
                            < t {
                            pre[b.targets@[k] as int].hist@.push((stamp, yv))
                        } else {
                            pre[b.targets@[k] as int].hist@
                        })),
                    forall|k: int|
                        0 <= k < n_out ==> ((#[trigger] chans@[b.targets@[k] as int]).closed == false
                            && chans@[b.targets@[k] as int].deq_times
                            == pre[b.targets@[k] as int].deq_times),
                    forall|c: int|
                        0 <= c < pre.len() && (forall|k: int|
                            0 <= k < t ==> b.targets@[k] != c) ==> (#[trigger] chans@[c]) == mid[c],
                decreases n_out - t,
            {
                let ghost tcur = t as int;
                assert(s0.target_ok(pre, tcur));
                let c = b.targets[t];
                assert(chans@[c as int] == mid[c as int]) by {
                    assert(forall|k: int| 0 <= k < tcur ==> b.targets@[k] != b.targets@[tcur]);
                }
                assert(mid[c as int] == pre[c as int]);
                assert(pre[c as int].horizon() <= sat_add_s(s0.clock, b.timings.latency));
                assert(sat_add_s(s0.clock, b.timings.latency) <= stamp);
                let y2 = y.dup();
                let ghost snap2 = chans@;
                crate::channel::vec_enqueue(&mut chans, c, stamp, y2);
                proof {
                    assert forall|k: int|
                        0 <= k < n_out implies ((#[trigger] chans@[b.targets@[k] as int]).hist@ == (
                    if k < tcur + 1 {
                        pre[b.targets@[k] as int].hist@.push((stamp, yv))
                    } else {
                        pre[b.targets@[k] as int].hist@
                    })) by {
                        assert(s0.target_ok(pre, k));
                        if k != tcur {
                            assert(b.targets@[k] != b.targets@[tcur]);
                            crate::channel::lemma_update_untouched(
                                snap2,
                                chans@,
                                c as int,
                                b.targets@[k] as int,
                            );
                        }
                    }
                    assert forall|k: int|
                        0 <= k < n_out implies ((#[trigger] chans@[b.targets@[k] as int]).closed
                        == false && chans@[b.targets@[k] as int].deq_times
                        == pre[b.targets@[k] as int].deq_times) by {
                        assert(s0.target_ok(pre, k));
                        if k != tcur {
                            assert(b.targets@[k] != b.targets@[tcur]);
                            crate::channel::lemma_update_untouched(
                                snap2,
                                chans@,
                                c as int,
                                b.targets@[k] as int,
                            );
                        }
                    }
                    assert forall|c2: int| 0 <= c2 < chans@.len() implies (
                    #[trigger] chans@[c2]).wf() by {
                        if c2 != c as int {
                            crate::channel::lemma_update_untouched(snap2, chans@, c as int, c2);
                        }
                        assert(snap2[c2].wf());
                    }
                    assert(chans_frame(mid, chans@, b.id)) by {
                        assert forall|c2: int| 0 <= c2 < mid.len() implies chan_frame(
                            #[trigger] mid[c2],
                            #[trigger] chans@[c2],
                            b.id,
                        ) by {
                            assert(chan_frame(mid[c2], snap2[c2], b.id));
                            if c2 != c as int {
                                crate::channel::lemma_update_untouched(snap2, chans@, c as int, c2);
                            } else {
                                assert(snap2[c2].hist@.is_prefix_of(chans@[c2].hist@));
                                assert(mid[c2].hist@.is_prefix_of(chans@[c2].hist@));
                                assert(mid[c2].deq_times@.is_prefix_of(chans@[c2].deq_times@));
                            }
                        }
                    }
                }
                t = t + 1;
            }
            b.clock = sat_add(b.clock, b.timings.initiation_interval);
            let ghost pos0 = s0.pos as int;
            if b.pos + 1 == b.pending.len() {
                b.pending = Vec::new();
                b.pos = 0;
            } else {
                b.pos = b.pos + 1;
            }
            proof {
                let post = chans@;
                crate::channel::lemma_chan_frame_trans(pre, mid, post, b.id);
                assert(post[cin as int] == pre[cin as int]);
                if s0.targets@.len() > 0 {
                    assert(post[b.targets@[0] as int].hist@ == pre[b.targets@[0] as int].hist@.push(
                        (stamp, yv),
                    ));
                    assert(post[b.targets@[0] as int].hist@.len()
                        == pre[b.targets@[0] as int].hist@.len() + 1);
                }
                let taken = pre[cin as int].taken();
                let consumed = pre[cin as int].sent().subrange(0, taken);
                assert(post[cin as int].sent().subrange(0, post[cin as int].taken()) =~= consumed);
                let pv = vals_of(s0.pending@);
                assert(flat_apply_s(b.op, pre[cin as int].sent()[taken - 1]) == Some(pv));
                assert(yv == pv[pos0]);
                assert forall|t2: int| 0 <= t2 < b.targets@.len() implies #[trigger] b.target_ok(
                    post,
                    t2,
                ) by {
                    assert(s0.target_ok(pre, t2));
                    let c = b.targets@[t2] as int;
                    assert(post[c].hist@ == pre[c].hist@.push((stamp, yv)));
                    assert(post[c].sent() =~= pre[c].sent().push(yv));
                    assert(post[c].horizon() == stamp);
                    assert(sat_add_s(clock_bp, b.timings.latency) <= sat_add_s(
                        b.clock,
                        b.timings.latency,
                    ));
                    assert(pre[c].sent() == s0.expected_out(pre));
                    if s0.pos + 1 == s0.pending@.len() {
                        assert(consumed.len() >= 1);
                        assert(consumed.last() == pre[cin as int].sent()[taken - 1]);
                        assert(flat_out(b.op, consumed) == flat_out(b.op, consumed.drop_last())
                            + pv);
                        assert(pre[c].sent().push(yv) =~= flat_out(b.op, consumed.drop_last())
                            + pv) by {
                            assert(pv.subrange(0, pos0) =~= pv.drop_last());
                        }
                        assert(b.expected_out(post) == flat_out(b.op, consumed));
                        assert(post[c].sent() == b.expected_out(post)) by {
                            assert(post[c].sent() =~= flat_out(b.op, consumed));
                        }
                    } else {
                        assert(b.expected_out(post) == flat_out(b.op, consumed.drop_last())
                            + pv.subrange(0, pos0 + 1));
                        assert(post[c].sent() == b.expected_out(post)) by {
                            assert(pre[c].sent().push(yv) =~= flat_out(b.op, consumed.drop_last())
                                + pv.subrange(0, pos0 + 1));
                        }
                    }
                }
                assert forall|j: int| 0 <= j < post[cin as int].taken() implies #[trigger] b.eaten_ok(
                    post,
                    j,
                ) by {
                    assert(s0.eaten_ok(pre, j));
                }
            }
            return (b, chans, StepOutcome::Progress);
        }

        // Nothing in hand: receive the next element.
        if chans[cin].queued() == 0 {
            if chans[cin].is_exhausted() {
                let mut t: usize = 0;
                while t < n_out
                    invariant
                        t <= n_out,
                        b == s0,
                        chans@.len() == pre.len(),
                        chans_wf(chans@),
                        chans_frame(pre, chans@, b.id),
                        forall|c: int|
                            0 <= c < pre.len() ==> (#[trigger] chans@[c]) == pre[c] || chans@[c]
                                == (Channel { closed: true, ..pre[c] }),
                        forall|k: int|
                            0 <= k < t ==> (#[trigger] chans@[b.targets@[k] as int]).closed,
                    decreases n_out - t,
                {
                    let ghost tcur = t as int;
                    assert(s0.target_ok(pre, tcur));
                    let c = b.targets[t];
                    let ghost snap = chans@;
                    crate::channel::vec_close(&mut chans, c);
                    proof {
                        assert(chans@ == snap.update(
                            c as int,
                            (Channel { closed: true, ..snap[c as int] }),
                        ));
                        assert forall|k: int|
                            0 <= k < tcur + 1 implies (
                        #[trigger] chans@[b.targets@[k] as int]).closed by {
                            assert(s0.target_ok(pre, k));
                            if b.targets@[k] as int != c as int {
                                crate::channel::lemma_update_untouched(
                                    snap,
                                    chans@,
                                    c as int,
                                    b.targets@[k] as int,
                                );
                            }
                        }
                        assert forall|c2: int|
                            0 <= c2 < pre.len() implies (#[trigger] chans@[c2]) == pre[c2]
                            || chans@[c2] == (Channel { closed: true, ..pre[c2] }) by {
                            if c2 == c as int {
                                assert(snap[c2] == pre[c2] || snap[c2] == (Channel {
                                    closed: true,
                                    ..pre[c2]
                                }));
                            }
                        }
                        assert forall|c2: int| 0 <= c2 < chans@.len() implies (
                        #[trigger] chans@[c2]).wf() by {
                            assert(snap[c2].wf());
                            if c2 == c as int {
                                assert(chans@[c2].hist == snap[c2].hist && chans@[c2].queue
                                    == snap[c2].queue && chans@[c2].deq_times == snap[c2].deq_times
                                    && chans@[c2].cap == snap[c2].cap);
                            }
                        }
                        assert forall|c2: int| 0 <= c2 < pre.len() implies chan_frame(
                            #[trigger] pre[c2],
                            #[trigger] chans@[c2],
                            b.id,
                        ) by {
                            assert(pre[c2].hist@.is_prefix_of(pre[c2].hist@));
                            assert(pre[c2].deq_times@.is_prefix_of(pre[c2].deq_times@));
                            if c2 == c as int && chans@[c2] != pre[c2] {
                                assert(pre[c2].sender_tag == b.id);
                            }
                        }
                    }
                    t = t + 1;
                }
                b.done = true;
                proof {
                    let post = chans@;
                    assert(post[cin as int] == pre[cin as int] || post[cin as int] == (Channel {
                        closed: true,
                        ..pre[cin as int]
                    }));
                    assert(post[cin as int].taken() == pre[cin as int].taken());
                    if s0.targets@.len() > 0 {
                        let c0 = b.targets@[0] as int;
                        assert(s0.target_ok(pre, 0));
                        assert(post[c0] == pre[c0] || post[c0] == (Channel {
                            closed: true,
                            ..pre[c0]
                        }));
                        assert(post[c0].hist@.len() == pre[c0].hist@.len());
                    }
                    assert(post[cin as int].sent().subrange(0, post[cin as int].taken())
                        =~= pre[cin as int].sent().subrange(0, pre[cin as int].taken()));
                    assert(b.expected_out(post) == s0.expected_out(pre));
                    assert forall|t2: int| 0 <= t2 < b.targets@.len() implies #[trigger] b.target_ok(
                        post,
                        t2,
                    ) by {
                        assert(s0.target_ok(pre, t2));
                        let c = b.targets@[t2] as int;
                        assert(post[c] == pre[c] || post[c] == (Channel { closed: true, ..pre[c] }));
                        assert(post[c].closed);
                        assert(post[c].hist == pre[c].hist);
                    }
                    assert forall|j: int|
                        0 <= j < post[cin as int].taken() implies #[trigger] b.eaten_ok(post, j) by {
                        assert(s0.eaten_ok(pre, j));
                    }
                }
                return (b, chans, StepOutcome::Finished);
            }
            return (b, chans, StepOutcome::Blocked);
        }
        let ghost taken0 = pre[cin as int].taken();
        let ghost snap = chans@;
        let (v, t2) = crate::channel::vec_dequeue(&mut chans, cin, b.clock);
        b.clock = t2;
        proof {
            assert forall|c2: int| 0 <= c2 < chans@.len() implies (#[trigger] chans@[c2]).wf() by {
                if c2 != cin as int {
                    crate::channel::lemma_update_untouched(snap, chans@, cin as int, c2);
                }
                assert(snap[c2].wf());
            }
            assert forall|c2: int| 0 <= c2 < pre.len() implies chan_frame(
                #[trigger] pre[c2],
                #[trigger] chans@[c2],
                b.id,
            ) by {
                assert(pre[c2].hist@.is_prefix_of(pre[c2].hist@));
                assert(pre[c2].deq_times@.is_prefix_of(pre[c2].deq_times@));
                if c2 != cin as int {
                    crate::channel::lemma_update_untouched(snap, chans@, cin as int, c2);
                }
            }
            assert(v@ == pre[cin as int].sent()[taken0]);
        }
        let vs = match flat_apply(&b.op, v) {
            Some(vs) => vs,
            None => {
                proof {
                    assert(pre[cin as int].sent().len() > taken0);
                }
                return (b, chans, StepOutcome::Fault(SimError::BadPayload));
            },
        };
        if vs.len() > 0 {
            b.pending = vs;
            b.pos = 0;
        }
        proof {
            let post = chans@;
            assert(post[cin as int].taken() == taken0 + 1);
            assert(post[cin as int].hist@ == pre[cin as int].hist@);
            if s0.targets@.len() > 0 {
                assert(s0.target_ok(pre, 0));
                crate::channel::lemma_update_untouched(snap, post, cin as int, b.targets@[0] as int);
                assert(post[b.targets@[0] as int].hist@.len()
                    == pre[b.targets@[0] as int].hist@.len());
            }
            let consumed0 = pre[cin as int].sent().subrange(0, taken0);
            let consumed1 = post[cin as int].sent().subrange(0, taken0 + 1);
            assert(consumed1.drop_last() =~= consumed0);
            assert(consumed1.last() == pre[cin as int].sent()[taken0]);
            assert(flat_out(b.op, consumed1) == flat_out(b.op, consumed0) + flat_apply_s(
                b.op,
                pre[cin as int].sent()[taken0],
            )->Some_0);
            assert forall|t2: int| 0 <= t2 < b.targets@.len() implies #[trigger] b.target_ok(
                post,
                t2,
            ) by {
                assert(s0.target_ok(pre, t2));
                let c = b.targets@[t2] as int;
                crate::channel::lemma_update_untouched(snap, post, cin as int, c);
                assert(post[c] == pre[c]);
                assert(pre[c].sent() == flat_out(b.op, consumed0));
                if vals_of(vs@).len() > 0 {
                    assert(b.expected_out(post) == flat_out(b.op, consumed1.drop_last())
                        + vals_of(b.pending@).subrange(0, 0));
                    assert(post[c].sent() == b.expected_out(post)) by {
                        assert(flat_out(b.op, consumed1.drop_last()) + vals_of(
                            b.pending@,
                        ).subrange(0, 0) =~= flat_out(b.op, consumed0));
                    }
                } else {
                    assert(post[c].sent() == b.expected_out(post)) by {
                        assert(flat_out(b.op, consumed1) =~= flat_out(b.op, consumed0));
                    }
                }
            }
            assert forall|j: int| 0 <= j < post[cin as int].taken() implies #[trigger] b.eaten_ok(
                post,
                j,
            ) by {
                if j < taken0 {
                    assert(s0.eaten_ok(pre, j));
                } else {
                    assert(post[cin as int].sent()[j] == pre[cin as int].sent()[taken0]);
                }
            }
        }
        (b, chans, StepOutcome::Progress)
    }
}

} // verus!
