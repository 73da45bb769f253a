//! The repeat primitive.
//!
//! A repeat block re-emits each received element `repeats` times on its
//! broadcast output.  Each emission is stamped `tick() + 1` and advances
//! the local clock by one cycle, so the copies carry strictly increasing
//! timestamps.  The block shuts down cleanly when its input is exhausted
//! between elements.

use vstd::prelude::*;

use crate::channel::{
    chan_frame, chans_frame, chans_wf, max64, recvs_ok, sat_add, sat_add_s, sends_ok, Channel,
};
use crate::scalar::Scalar;
use crate::simulation::StepOutcome;
use crate::templates::types::{sender_id_vec, BroadcastSender, Receiver};
use crate::value::{Val, Value};

verus! {

/// A repeat block: re-emits each input `repeats` times.
pub struct Repeat<S> {
    /// Index of this block in the simulation; set when it is added.
    pub id: usize,
    /// Input channel index.
    pub input: usize,
    /// Output channel indices, one per broadcast target.
    pub targets: Vec<usize>,
    /// How many copies of each element to emit.
    pub repeats: usize,
    /// The block's local clock.
    pub clock: u64,
    /// The element currently being repeated, if any.
    pub cur: Option<Value<S>>,
    /// How many copies of `cur` have been emitted.
    pub emitted_reps: usize,
    /// Whether the block has shut down cleanly.
    pub done: bool,
}

impl<S: Scalar> Repeat<S> {
    /// Creates a repeat block over the given endpoints.
    pub fn new(input: Receiver, output: BroadcastSender, repeats: usize) -> (r: Self)
        ensures
            r.id == 0,
            r.input == input.id,
            r.targets@ == crate::templates::types::sender_ids(output.targets@),
            r.repeats == repeats,
            r.clock == 0,
            r.cur is None,
            r.emitted_reps == 0,
            !r.done,
    {
        Repeat {
            id: 0,
            input: input.id,
            targets: sender_id_vec(&output.targets),
            repeats,
            clock: 0,
            cur: None,
            emitted_reps: 0,
            done: false,
        }
    }

    /// How many copies have been sent in total.
    pub open spec fn out_len(self, chans: Seq<Channel<S>>) -> int {
        if self.cur is Some {
            (chans[self.input as int].taken() - 1) * self.repeats + self.emitted_reps
        } else {
            chans[self.input as int].taken() * self.repeats
        }
    }

    /// Output `p` on target `t` is a copy of input `p / repeats`.
    pub open spec fn rep_ok(self, chans: Seq<Channel<S>>, t: int, p: int) -> bool {
        chans[self.targets@[t] as int].sent()[p] == chans[self.input as int].sent()[p / (
        self.repeats as int)]
    }

    /// Coupling with one output channel.
    pub open spec fn target_ok(self, chans: Seq<Channel<S>>, t: int) -> bool {
        let c = self.targets@[t] as int;
        &&& c < chans.len()
        &&& sends_ok(chans[c], self.id, self.clock, 1)
        &&& chans[c].receiver_tag != self.id
        &&& chans[c].sent().len() == self.out_len(chans)
        &&& chans[c].closed == self.done
    }

    /// The block's invariant against the channel table.
    pub open spec fn wf(self, chans: Seq<Channel<S>>) -> bool {
        let cin = self.input as int;
        &&& cin < chans.len()
        &&& recvs_ok(chans[cin], self.id, self.clock)
        &&& chans[cin].sender_tag != self.id
        &&& (forall|t: int, j: int|
            0 <= t < j < self.targets@.len() ==> self.targets@[t] != self.targets@[j])
        &&& (forall|t: int| 0 <= t < self.targets@.len() ==> self.targets@[t] != self.input)
        &&& (forall|t: int| 0 <= t < self.targets@.len() ==> #[trigger] self.target_ok(chans, t))
        &&& (match self.cur {
            Some(x) => {
                &&& chans[cin].taken() >= 1
                &&& x@ == chans[cin].sent()[chans[cin].taken() - 1]
                &&& self.emitted_reps < self.repeats
            },
            None => self.emitted_reps == 0,
        })
        &&& (forall|t: int, p: int|
            0 <= t < self.targets@.len() && 0 <= p < self.out_len(chans) ==> #[trigger] self.rep_ok(
                chans,
                t,
                p,
            ))
        &&& (self.done ==> chans[cin].spec_exhausted() && self.cur is None)
    }

    /// A step by another block leaves this block's invariant intact.
    pub proof fn lemma_wf_frame(self, pre: Seq<Channel<S>>, post: Seq<Channel<S>>, who: usize)
        requires
            self.wf(pre),
            chans_wf(pre),
            chans_wf(post),
            chans_frame(pre, post, who),
            who != self.id,
        ensures
            self.wf(post),
    {
        let cin = self.input as int;
        assert(chan_frame(pre[cin], post[cin], who));
        assert(post[cin].deq_times == pre[cin].deq_times);
        assert(pre[cin].wf());
        assert(pre[cin].taken() <= pre[cin].hist@.len());
        assert(pre[cin].hist@.is_prefix_of(post[cin].hist@));
        assert forall|x: int| 0 <= x < pre[cin].taken() implies post[cin].sent()[x]
            == pre[cin].sent()[x] by {
            assert(post[cin].hist@[x] == pre[cin].hist@[x]);
        }
        assert(self.out_len(post) == self.out_len(pre));
        assert forall|t: int| 0 <= t < self.targets@.len() implies #[trigger] self.target_ok(
            post,
            t,
        ) by {
            assert(self.target_ok(pre, t));
            let c = self.targets@[t] as int;
            assert(chan_frame(pre[c], post[c], who));
            assert(post[c].hist == pre[c].hist);
        }
        assert forall|t: int, p: int|
            0 <= t < self.targets@.len() && 0 <= p < self.out_len(post) implies #[trigger] self.rep_ok(
            post,
            t,
            p,
        ) by {
            assert(self.rep_ok(pre, t, p));
            assert(self.target_ok(pre, t));
            let c = self.targets@[t] as int;
            assert(chan_frame(pre[c], post[c], who));
            assert(post[c].hist == pre[c].hist);
            let r = self.repeats as int;
            if r >= 1 {
                assert(0 <= p / r < pre[cin].taken()) by {
                    broadcast use vstd::arithmetic::div_mod::lemma_fundamental_div_mod;
                    broadcast use vstd::arithmetic::div_mod::lemma_mod_bound;

                    assert(p == r * (p / r) + p % r);
                    assert(0 <= p % r < r);
                    if self.cur is Some {
                        assert(p < (pre[cin].taken() - 1) * r + r) by (nonlinear_arith)
                            requires
                                p < (pre[cin].taken() - 1) * r + self.emitted_reps,
                                self.emitted_reps < r,
                        ;
                        assert((pre[cin].taken() - 1) * r + r == pre[cin].taken() * r)
                            by (nonlinear_arith);
                        assert(p / r <= pre[cin].taken() - 1) by (nonlinear_arith)
                            requires
                                p == r * (p / r) + p % r,
                                0 <= p % r < r,
                                p < pre[cin].taken() * r,
                        ;
                    } else {
                        assert(p / r <= pre[cin].taken() - 1) by (nonlinear_arith)
                            requires
                                p == r * (p / r) + p % r,
                                0 <= p % r < r,
                                p < pre[cin].taken() * r,
                        ;
                    }
                    assert(p / r >= 0) by (nonlinear_arith)
                        requires
                            p == r * (p / r) + p % r,
                            0 <= p % r < r,
                            p >= 0,
                            r >= 1,
                    ;
                }
                assert(post[cin].sent()[p / r] == pre[cin].sent()[p / r]);
            } else {
                assert(self.out_len(pre) <= 0);
            }
        }
        if self.done {
            assert(post[cin].hist@ == pre[cin].hist@);
            assert(post[cin].wf());
            assert(post[cin].queue@.len() == 0);
        }
    }

    /// One scheduling step.
    ///
    /// With no element in hand, receives the next input (or finishes when
    /// the input is exhausted).  With an element in hand, broadcasts one
    /// copy stamped `tick() + 1` and advances the clock by one cycle,
    /// until `repeats` copies are out.
    #[verifier::rlimit(100)]
    pub fn step(self, table: Vec<Channel<S>>) -> (r: (Self, Vec<Channel<S>>, StepOutcome))
        requires
            chans_wf(table@),
            self.wf(table@),
        ensures
            chans_wf(r.1@),
            chans_frame(table@, r.1@, self.id),
            r.0.id == self.id,
            r.0.input == self.input,
            r.0.targets == self.targets,
            r.0.repeats == self.repeats,
            r.0.clock >= self.clock,
            !(r.2 is Fault),
            r.0.wf(r.1@),
            r.2 is Blocked ==> r.0 == self && r.1@ == table@,
            r.2 is Blocked ==> self.done || (self.cur is None
                && table@[self.input as int].queue@.len() == 0
                && !table@[self.input as int].closed) || (self.cur is Some && exists|t: int|
                0 <= t < self.targets@.len()
                    && (#[trigger] table@[self.targets@[t] as int]).queue@.len()
                    >= table@[self.targets@[t] as int].cap),
            r.2 is Finished ==> r.0.done && !self.done,
            r.2 is Progress ==> !r.0.done,
            r.2 is Progress && self.cur is Some ==> r.0.clock >= sat_add_s(self.clock, 1),
            r.2 is Progress && self.cur is Some ==> (forall|t: int|
                0 <= t < self.targets@.len() ==> (#[trigger] r.1@[self.targets@[t] as int].hist@).len()
                    == table@[self.targets@[t] as int].hist@.len() + 1
                    && r.1@[self.targets@[t] as int].hist@.last().0 == r.0.clock),
            r.2 is Progress && self.cur is None ==> (forall|t: int|
                0 <= t < self.targets@.len() ==> #[trigger] r.1@[self.targets@[t] as int].hist@
                    == table@[self.targets@[t] as int].hist@),
            self.done ==> r.2 is Blocked,
    {
        let ghost pre = table@;
        let ghost s0 = self;
        let mut b = self;
        let mut chans = table;
        proof {
            crate::channel::lemma_chans_frame_refl(pre, s0.id);
        }
        if b.done {
            return (b, chans, StepOutcome::Blocked);
        }
        let cin = b.input;
        let n_out = b.targets.len();
        let filled = match &b.cur {
            Some(_) => true,
            None => false,
        };
        if !filled {
            if chans[cin].queued() == 0 {
                if chans[cin].is_exhausted() {
                    // Clean shutdown: close every target and finish.
                    let mut t: usize = 0;
                    while t < n_out
                        invariant
                            t <= n_out,
                            b == s0,
                            chans@.len() == pre.len(),
                            chans_wf(chans@),
                            chans_frame(pre, chans@, b.id),
                            forall|c: int|
                                0 <= c < pre.len() ==> (#[trigger] chans@[c]) == pre[c] || chans@[c]
                                    == (Channel { closed: true, ..pre[c] }),
                            forall|k: int|
                                0 <= k < t ==> (#[trigger] chans@[b.targets@[k] as int]).closed,
                        decreases n_out - t,
                    {
                        let ghost tcur = t as int;
                        assert(s0.target_ok(pre, tcur));
                        let c = b.targets[t];
                        let ghost snap = chans@;
                        crate::channel::vec_close(&mut chans, c);
                        proof {
                            assert(chans@ == snap.update(
                                c as int,
                                (Channel { closed: true, ..snap[c as int] }),
                            ));
                            assert forall|k: int|
                                0 <= k < tcur + 1 implies (
                            #[trigger] chans@[b.targets@[k] as int]).closed by {
                                assert(s0.target_ok(pre, k));
                                if b.targets@[k] as int != c as int {
                                    crate::channel::lemma_update_untouched(
                                        snap,
                                        chans@,
                                        c as int,
                                        b.targets@[k] as int,
                                    );
                                }
                            }
                            assert forall|c2: int|
                                0 <= c2 < pre.len() implies (#[trigger] chans@[c2]) == pre[c2]
                                || chans@[c2] == (Channel { closed: true, ..pre[c2] }) by {
                                if c2 == c as int {
                                    assert(snap[c2] == pre[c2] || snap[c2] == (Channel {
                                        closed: true,
                                        ..pre[c2]
                                    }));
                                }
                            }
                            assert forall|c2: int| 0 <= c2 < chans@.len() implies (
                            #[trigger] chans@[c2]).wf() by {
                                assert(snap[c2].wf());
                                if c2 == c as int {
                                    assert(chans@[c2].hist == snap[c2].hist && chans@[c2].queue
                                        == snap[c2].queue && chans@[c2].deq_times
                                        == snap[c2].deq_times && chans@[c2].cap == snap[c2].cap);
                                }
                            }
                            assert forall|c2: int| 0 <= c2 < pre.len() implies chan_frame(
                                #[trigger] pre[c2],
                                #[trigger] chans@[c2],
                                b.id,
                            ) by {
                                assert(pre[c2].hist@.is_prefix_of(pre[c2].hist@));
                                assert(pre[c2].deq_times@.is_prefix_of(pre[c2].deq_times@));
                                if c2 == c as int && chans@[c2] != pre[c2] {
                                    assert(pre[c2].sender_tag == b.id);
                                }
                            }
                        }
                        t = t + 1;
                    }
                    b.done = true;
                    proof {
                        let post = chans@;
                        assert(post[cin as int] == pre[cin as int] || post[cin as int] == (Channel {
                            closed: true,
                            ..pre[cin as int]
                        }));
                        assert(b.out_len(post) == s0.out_len(pre));
                        assert forall|t2: int|
                            0 <= t2 < b.targets@.len() implies #[trigger] b.target_ok(post, t2) by {
                            assert(s0.target_ok(pre, t2));
                            let c = b.targets@[t2] as int;
                            assert(post[c] == pre[c] || post[c] == (Channel {
                                closed: true,
                                ..pre[c]
                            }));
                            assert(post[c].closed);
                            assert(post[c].hist == pre[c].hist);
                        }
                        assert forall|t2: int, p: int|
                            0 <= t2 < b.targets@.len() && 0 <= p < b.out_len(post) implies
                            #[trigger] b.rep_ok(post, t2, p) by {
                            assert(s0.rep_ok(pre, t2, p));
                            assert(s0.target_ok(pre, t2));
                            let c = b.targets@[t2] as int;
                            assert(post[c] == pre[c] || post[c] == (Channel {
                                closed: true,
                                ..pre[c]
                            }));
                        }
                    }
                    return (b, chans, StepOutcome::Finished);
                }
                return (b, chans, StepOutcome::Blocked);
            }
            // Receive the next element.
            let ghost taken0 = pre[cin as int].taken();
            let ghost snap = chans@;
            let (v, t2) = crate::channel::vec_dequeue(&mut chans, cin, b.clock);
            b.clock = t2;
            proof {
                assert forall|c2: int| 0 <= c2 < chans@.len() implies (
                #[trigger] chans@[c2]).wf() by {
                    if c2 != cin as int {
                        crate::channel::lemma_update_untouched(snap, chans@, cin as int, c2);
                    }
                    assert(snap[c2].wf());
                }
                assert forall|c2: int| 0 <= c2 < pre.len() implies chan_frame(
                    #[trigger] pre[c2],
                    #[trigger] chans@[c2],
                    b.id,
                ) by {
                    assert(pre[c2].hist@.is_prefix_of(pre[c2].hist@));
                    assert(pre[c2].deq_times@.is_prefix_of(pre[c2].deq_times@));
                    if c2 != cin as int {
                        crate::channel::lemma_update_untouched(snap, chans@, cin as int, c2);
                    }
                }
            }
            if b.repeats > 0 {
                b.cur = Some(v);
                b.emitted_reps = 0;
            }
            proof {
                let post = chans@;
                assert(post[cin as int].taken() == taken0 + 1);
                assert(post[cin as int].hist@ == pre[cin as int].hist@);
                assert(v@ == pre[cin as int].sent()[taken0]);
                let r = b.repeats as int;
                assert(b.out_len(post) == s0.out_len(pre)) by {
                    if r >= 1 {
                        assert((taken0 + 1 - 1) * r == taken0 * r);
                    } else {
                        assert(taken0 * 0 == 0 && (taken0 + 1) * 0 == 0) by (nonlinear_arith);
                    }
                }
                assert forall|t2: int| 0 <= t2 < b.targets@.len() implies #[trigger] b.target_ok(
                    post,
                    t2,
                ) by {
                    assert(s0.target_ok(pre, t2));
                    let c = b.targets@[t2] as int;
                    crate::channel::lemma_update_untouched(snap, post, cin as int, c);
                }
                assert forall|t2: int, p: int|
                    0 <= t2 < b.targets@.len() && 0 <= p < b.out_len(post) implies #[trigger] b.rep_ok(
                    post,
                    t2,
                    p,
                ) by {
                    assert(s0.rep_ok(pre, t2, p));
                    assert(s0.target_ok(pre, t2));
                    let c = b.targets@[t2] as int;
                    crate::channel::lemma_update_untouched(snap, post, cin as int, c);
                    if r >= 1 {
                        assert(0 <= p / r < taken0) by {
                            broadcast use vstd::arithmetic::div_mod::lemma_fundamental_div_mod;
                            broadcast use vstd::arithmetic::div_mod::lemma_mod_bound;

                            assert(p == r * (p / r) + p % r);
                            assert(0 <= p % r < r);
                            if b.cur is Some {
                                assert(p < taken0 * r);
                            }
                            assert(p / r <= taken0 - 1) by (nonlinear_arith)
                                requires
                                    p == r * (p / r) + p % r,
                                    0 <= p % r < r,
                                    p < taken0 * r,
                            ;
                            assert(p / r >= 0) by (nonlinear_arith)
                                requires
                                    p == r * (p / r) + p % r,
                                    0 <= p % r < r,
                                    p >= 0,
                                    r >= 1,
                            ;
                        }
                        assert(post[cin as int].sent()[p / r] == pre[cin as int].sent()[p / r]);
                    } else {
                        assert(b.out_len(post) <= 0);
                    }
                }
                assert forall|t2: int|
                    0 <= t2 < b.targets@.len() implies #[trigger] chans@[b.targets@[t2] as int].hist@
                    == pre[b.targets@[t2] as int].hist@ by {
                    assert(s0.target_ok(pre, t2));
                    crate::channel::lemma_update_untouched(
                        snap,
                        chans@,
                        cin as int,
                        b.targets@[t2] as int,
                    );
                }
            }
            return (b, chans, StepOutcome::Progress);
        }

        // Emit one copy of the element in hand.
        let mut t: usize = 0;
        while t < n_out
            invariant
                t <= n_out,
                b == s0,
                chans@ == pre,
                forall|k: int|
                    0 <= k < t ==> (#[trigger] chans@[b.targets@[k] as int]).queue@.len()
                        < chans@[b.targets@[k] as int].cap,
            decreases n_out - t,
        {
            let ghost tcur = t as int;
            assert(b.target_ok(chans@, tcur));
            let c = b.targets[t];
            if !chans[c].has_space() {
                return (b, chans, StepOutcome::Blocked);
            }
            t = t + 1;
        }
        let y = match &b.cur {
            Some(x) => x.dup(),
            None => {
                proof {
                    assert(false);
                }
                return (b, chans, StepOutcome::Blocked);
            },
        };
        let ghost yv = y@;
        let ghost taken0 = pre[cin as int].taken();
        let ghost mid = chans@;
        let mut t: usize = 0;
        while t < n_out
            invariant
                t <= n_out,
                chans@ == mid,
                chans@.len() == pre.len(),
                b.id == s0.id,
                b.input == s0.input,
                b.targets == s0.targets,
                b.repeats == s0.repeats,
                b.cur == s0.cur,
                b.emitted_reps == s0.emitted_reps,
                b.done == s0.done,
                b.clock >= s0.clock,
            decreases n_out - t,
        {
            let ghost tcur = t as int;
            assert(s0.target_ok(pre, tcur));
            let c = b.targets[t];
            assert(chans@[c as int] == pre[c as int]);
            let sft = chans[c].slot_free_time();
            b.clock = max64(b.clock, sft);
            t = t + 1;
        }
        let stamp = sat_add(b.clock, 1);
        let ghost clock_bp = b.clock;
        proof {
            assert forall|k: int|
                0 <= k < n_out implies ((#[trigger] chans@[b.targets@[k] as int]).closed == false
                && chans@[b.targets@[k] as int].deq_times == pre[b.targets@[k] as int].deq_times
                && chans@[b.targets@[k] as int].hist@ == pre[b.targets@[k] as int].hist@) by {
                assert(s0.target_ok(pre, k));
            }
        }
        let mut t: usize = 0;
        while t < n_out
            invariant
                t <= n_out,
                chans_wf(chans@),
                chans@.len() == pre.len(),
                chans_frame(mid, chans@, b.id),
                b.id == s0.id,
                b.input == s0.input,
                b.targets == s0.targets,
                b.repeats == s0.repeats,
                b.cur == s0.cur,
                b.emitted_reps == s0.emitted_reps,
                b.done == s0.done,
                b.clock == clock_bp,
                clock_bp >= s0.clock,
                stamp == sat_add_s(b.clock, 1),
                mid == pre,
                forall|k: int|
                    0 <= k < n_out ==> ((#[trigger] chans@[b.targets@[k] as int]).hist@ == (if k < t {
                        pre[b.targets@[k] as int].hist@.push((stamp, yv))
                    } else {
                        pre[b.targets@[k] as int].hist@
                    })),
                forall|k: int|
                    0 <= k < n_out ==> ((#[trigger] chans@[b.targets@[k] as int]).closed == false
                        && chans@[b.targets@[k] as int].deq_times
                        == pre[b.targets@[k] as int].deq_times),
                forall|c: int|
                    0 <= c < pre.len() && (forall|k: int|
                        0 <= k < t ==> b.targets@[k] != c) ==> (#[trigger] chans@[c]) == mid[c],
            decreases n_out - t,
        {
            let ghost tcur = t as int;
            assert(s0.target_ok(pre, tcur));
            let c = b.targets[t];
            assert(chans@[c as int] == mid[c as int]) by {
                assert(forall|k: int| 0 <= k < tcur ==> b.targets@[k] != b.targets@[tcur]);
            }
            assert(mid[c as int] == pre[c as int]);
            assert(pre[c as int].horizon() <= sat_add_s(s0.clock, 1));
            assert(sat_add_s(s0.clock, 1) <= stamp);
            let y2 = y.dup();
            let ghost snap2 = chans@;
            crate::channel::vec_enqueue(&mut chans, c, stamp, y2);
            proof {
                assert forall|k: int|
                    0 <= k < n_out implies ((#[trigger] chans@[b.targets@[k] as int]).hist@ == (if k
                        < tcur + 1 {
                        pre[b.targets@[k] as int].hist@.push((stamp, yv))
                    } else {
                        pre[b.targets@[k] as int].hist@
                    })) by {
                    assert(s0.target_ok(pre, k));
                    if k != tcur {
                        assert(b.targets@[k] != b.targets@[tcur]);
                        crate::channel::lemma_update_untouched(
                            snap2,
                            chans@,
                            c as int,
                            b.targets@[k] as int,
                        );
                    }
                }
                assert forall|k: int|
                    0 <= k < n_out implies ((#[trigger] chans@[b.targets@[k] as int]).closed
                        == false && chans@[b.targets@[k] as int].deq_times
                        == pre[b.targets@[k] as int].deq_times) by {
                    assert(s0.target_ok(pre, k));
                    if k != tcur {
                        assert(b.targets@[k] != b.targets@[tcur]);
                        crate::channel::lemma_update_untouched(
                            snap2,
                            chans@,
                            c as int,
                            b.targets@[k] as int,
                        );
                    }
                }
                assert forall|c2: int| 0 <= c2 < chans@.len() implies (
                #[trigger] chans@[c2]).wf() by {
                    if c2 != c as int {
                        crate::channel::lemma_update_untouched(snap2, chans@, c as int, c2);
                    }
                    assert(snap2[c2].wf());
                }
                assert(chans_frame(mid, chans@, b.id)) by {
                    assert forall|c2: int| 0 <= c2 < mid.len() implies chan_frame(
                        #[trigger] mid[c2],
                        #[trigger] chans@[c2],
                        b.id,
                    ) by {
                        assert(chan_frame(mid[c2], snap2[c2], b.id));
                        if c2 != c as int {
                            crate::channel::lemma_update_untouched(snap2, chans@, c as int, c2);
                        } else {
                            assert(snap2[c2].hist@.is_prefix_of(chans@[c2].hist@));
                            assert(mid[c2].hist@.is_prefix_of(chans@[c2].hist@));
                            assert(mid[c2].deq_times@.is_prefix_of(chans@[c2].deq_times@));
                        }
                    }
                }
            }
            t = t + 1;
        }
        b.clock = sat_add(b.clock, 1);
        proof {
            assert(b.clock == sat_add_s(clock_bp, 1));
            assert(b.clock >= sat_add_s(s0.clock, 1));
            assert forall|k: int|
                0 <= k < n_out implies (#[trigger] chans@[b.targets@[k] as int].hist@).len()
                == pre[b.targets@[k] as int].hist@.len() + 1
                && chans@[b.targets@[k] as int].hist@.last().0 == b.clock by {
                assert(chans@[b.targets@[k] as int].hist@ == pre[b.targets@[k] as int].hist@.push(
                    (stamp, yv),
                ));
                assert(chans@[b.targets@[k] as int].hist@.last().0 == stamp);
                assert(stamp == sat_add_s(clock_bp, 1));
            }
        }
        let ghost p0 = s0.out_len(pre);
        let ghost r_i = s0.repeats as int;
        if b.emitted_reps + 1 == b.repeats {
            b.cur = None;
            b.emitted_reps = 0;
        } else {
            b.emitted_reps = b.emitted_reps + 1;
        }
        proof {
            let post = chans@;
            crate::channel::lemma_chan_frame_trans(pre, mid, post, b.id);
            assert(post[cin as int] == pre[cin as int]);
            assert(p0 == (taken0 - 1) * r_i + s0.emitted_reps);
            assert(b.out_len(post) == p0 + 1) by {
                if s0.emitted_reps + 1 == s0.repeats {
                    assert(taken0 * r_i == (taken0 - 1) * r_i + r_i) by (nonlinear_arith);
                }
            }
            vstd::arithmetic::div_mod::lemma_fundamental_div_mod_converse_div(
                p0,
                r_i,
                taken0 - 1,
                s0.emitted_reps as int,
            );
            assert(p0 / r_i == taken0 - 1);
            assert forall|t2: int| 0 <= t2 < b.targets@.len() implies #[trigger] b.target_ok(
                post,
                t2,
            ) by {
                assert(s0.target_ok(pre, t2));
                let c = b.targets@[t2] as int;
                assert(post[c].hist@ == pre[c].hist@.push((stamp, yv)));
                assert(post[c].sent() =~= pre[c].sent().push(yv));
                assert(post[c].horizon() == stamp);
                assert(sat_add_s(clock_bp, 1) <= sat_add_s(b.clock, 1));
            }
            assert forall|t2: int, p: int|
                0 <= t2 < b.targets@.len() && 0 <= p < b.out_len(post) implies #[trigger] b.rep_ok(
                post,
                t2,
                p,
            ) by {
                assert(s0.target_ok(pre, t2));
                let c = b.targets@[t2] as int;
                assert(post[c].sent() =~= pre[c].sent().push(yv));
                if p < p0 {
                    assert(s0.rep_ok(pre, t2, p));
                    assert(post[c].sent()[p] == pre[c].sent()[p]);
                } else {
                    assert(p == p0);
                    assert(post[c].sent()[p0] == yv);
                    assert(yv == pre[cin as int].sent()[taken0 - 1]);
                }
            }
        }
        (b, chans, StepOutcome::Progress)
    }
}

} // verus!
