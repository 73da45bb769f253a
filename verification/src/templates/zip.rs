//! The zip primitive.
//!
//! A zip block receives one element from each of its two inputs and
//! broadcasts their pair stamped `tick() + 1`.  If both sides are exhausted
//! together it shuts down cleanly; if only one side is exhausted while the
//! other still carries data, the stream lengths are mismatched and the step
//! is a protocol violation.

use vstd::prelude::*;

use crate::channel::{
    chan_frame, chans_frame, chans_wf, max64, max_s, recvs_ok, sat_add, sat_add_s, sends_ok,
    Channel,
};
use crate::scalar::Scalar;
use crate::simulation::{SimError, StepOutcome};
use crate::templates::types::{sender_id_vec, BroadcastSender, Receiver};
use crate::value::{Val, Value};

verus! {

/// A zip block: pairs its two inputs element by element.
pub struct Zip<S> {
    /// Index of this block in the simulation; set when it is added.
    pub id: usize,
    /// Left input channel index.
    pub left: usize,
    /// Right input channel index.
    pub right: usize,
    /// Output channel indices, one per broadcast target.
    pub targets: Vec<usize>,
    /// The block's local clock.
    pub clock: u64,
    /// Whether the block has shut down cleanly.
    pub done: bool,
    /// Marker tying the block to its payload scalar.
    pub payload: Ghost<Option<S>>,
}

impl<S: Scalar> Zip<S> {
    /// Creates a zip block over the given endpoints.
    pub fn new(left: Receiver, right: Receiver, output: BroadcastSender) -> (r: Self)
        ensures
            r.id == 0,
            r.left == left.id,
            r.right == right.id,
            r.targets@ == crate::templates::types::sender_ids(output.targets@),
            r.clock == 0,
            !r.done,
    {
        Zip {
            id: 0,
            left: left.id,
            right: right.id,
            targets: sender_id_vec(&output.targets),
            clock: 0,
            done: false,
            payload: Ghost(None),
        }
    }

    /// Output `j` on target `t` is the pair of the two inputs' elements
    /// `j`.
    pub open spec fn pair_ok(self, chans: Seq<Channel<S>>, t: int, j: int) -> bool {
        chans[self.targets@[t] as int].sent()[j] == Val::Pair(
            Box::new(chans[self.left as int].sent()[j]),
            Box::new(chans[self.right as int].sent()[j]),
        )
    }

    /// Coupling with one output channel.
    pub open spec fn target_ok(self, chans: Seq<Channel<S>>, t: int) -> bool {
        let c = self.targets@[t] as int;
        &&& c < chans.len()
        &&& sends_ok(chans[c], self.id, self.clock, 1)
        &&& chans[c].receiver_tag != self.id
        &&& chans[c].sent().len() == chans[self.left as int].taken()
        &&& chans[c].closed == self.done
    }

    /// The block's invariant against the channel table.
    pub open spec fn wf(self, chans: Seq<Channel<S>>) -> bool {
        let cl = self.left as int;
        let cr = self.right as int;
        &&& self.left != self.right
        &&& cl < chans.len()
        &&& cr < chans.len()
        &&& recvs_ok(chans[cl], self.id, self.clock)
        &&& recvs_ok(chans[cr], self.id, self.clock)
        &&& chans[cl].sender_tag != self.id
        &&& chans[cr].sender_tag != self.id
        &&& (forall|t: int, j: int|
            0 <= t < j < self.targets@.len() ==> self.targets@[t] != self.targets@[j])
        &&& (forall|t: int|
            0 <= t < self.targets@.len() ==> self.targets@[t] != self.left && self.targets@[t]
                != self.right)
        &&& (forall|t: int| 0 <= t < self.targets@.len() ==> #[trigger] self.target_ok(chans, t))
        &&& chans[cl].taken() == chans[cr].taken()
        &&& (forall|t: int, j: int|
            0 <= t < self.targets@.len() && 0 <= j < chans[cl].taken() ==> #[trigger] self.pair_ok(
                chans,
                t,
                j,
            ))
        &&& (self.done ==> chans[cl].spec_exhausted() && chans[cr].spec_exhausted())
    }

    /// A step by another block leaves this block's invariant intact.
    pub proof fn lemma_wf_frame(self, pre: Seq<Channel<S>>, post: Seq<Channel<S>>, who: usize)
        requires
            self.wf(pre),
            chans_wf(pre),
            chans_wf(post),
            chans_frame(pre, post, who),
            who != self.id,
        ensures
            self.wf(post),
    {
        let cl = self.left as int;
        let cr = self.right as int;
        assert(chan_frame(pre[cl], post[cl], who));
        assert(chan_frame(pre[cr], post[cr], who));
        assert(post[cl].deq_times == pre[cl].deq_times);
        assert(post[cr].deq_times == pre[cr].deq_times);
        assert(pre[cl].wf());
        assert(pre[cr].wf());
        assert(pre[cl].hist@.is_prefix_of(post[cl].hist@));
        assert(pre[cr].hist@.is_prefix_of(post[cr].hist@));
        assert forall|t: int| 0 <= t < self.targets@.len() implies #[trigger] self.target_ok(
            post,
            t,
        ) by {
            assert(self.target_ok(pre, t));
            let c = self.targets@[t] as int;
            assert(chan_frame(pre[c], post[c], who));
            assert(post[c].hist == pre[c].hist);
        }
        assert forall|t: int, j: int|
            0 <= t < self.targets@.len() && 0 <= j < post[cl].taken() implies #[trigger] self.pair_ok(
            post,
            t,
            j,
        ) by {
            assert(self.pair_ok(pre, t, j));
            assert(self.target_ok(pre, t));
            let c = self.targets@[t] as int;
            assert(chan_frame(pre[c], post[c], who));
            assert(post[c].hist == pre[c].hist);
            assert(post[cl].hist@[j] == pre[cl].hist@[j]);
            assert(post[cr].hist@[j] == pre[cr].hist@[j]);
        }
        if self.done {
            assert(post[cl].hist@ == pre[cl].hist@);
            assert(post[cl].wf());
            assert(post[cl].queue@.len() == 0);
            assert(post[cr].hist@ == pre[cr].hist@);
            assert(post[cr].wf());
            assert(post[cr].queue@.len() == 0);
        }
    }

    /// One scheduling step.
    ///
    /// Receives one element from each input and broadcasts their pair
    /// stamped `tick() + 1`.  Joint exhaustion is a clean shutdown;
    /// one-sided exhaustion with data on the other side is a protocol
    /// violation.
    #[verifier::rlimit(100)]
    pub fn step(self, table: Vec<Channel<S>>) -> (r: (Self, Vec<Channel<S>>, StepOutcome))
        requires
            chans_wf(table@),
            self.wf(table@),
        ensures
            chans_wf(r.1@),
            chans_frame(table@, r.1@, self.id),
            r.0.id == self.id,
            r.0.left == self.left,
            r.0.right == self.right,
            r.0.targets == self.targets,
            r.0.clock >= self.clock,
            !(r.2 is Fault) ==> r.0.wf(r.1@),
            r.2 is Blocked ==> r.0 == self && r.1@ == table@,
            r.2 is Blocked ==> self.done || (table@[self.left as int].queue@.len() == 0
                && !table@[self.left as int].closed) || (table@[self.right as int].queue@.len() == 0
                && !table@[self.right as int].closed) || (exists|t: int|
                0 <= t < self.targets@.len()
                    && (#[trigger] table@[self.targets@[t] as int]).queue@.len()
                    >= table@[self.targets@[t] as int].cap),
            r.2 is Finished ==> r.0.done && !self.done && r.1@[self.left as int].taken()
                == table@[self.left as int].taken(),
            r.2 is Progress ==> !r.0.done && r.1@[self.left as int].taken()
                == table@[self.left as int].taken() + 1,
            r.2 is Progress ==> r.0.clock >= sat_add_s(
                max_s(
                    max_s(
                        self.clock,
                        table@[self.left as int].hist@[table@[self.left as int].taken()].0,
                    ),
                    table@[self.right as int].hist@[table@[self.right as int].taken()].0,
                ),
                1,
            ),
            r.2 is Progress ==> (forall|t: int|
                0 <= t < self.targets@.len() ==> (#[trigger] r.1@[self.targets@[t] as int].hist@).len()
                    == table@[self.targets@[t] as int].hist@.len() + 1
                    && r.1@[self.targets@[t] as int].hist@.last().0 == r.0.clock),
            r.2 matches StepOutcome::Fault(e) ==> e == SimError::ProtocolViolation && ((
            table@[self.left as int].spec_exhausted() && table@[self.right as int].queue@.len() > 0)
                || (table@[self.right as int].spec_exhausted()
                && table@[self.left as int].queue@.len() > 0)),
            self.done ==> r.2 is Blocked,
    {
        let ghost pre = table@;
        let ghost s0 = self;
        let mut b = self;
        let mut chans = table;
        proof {
            crate::channel::lemma_chans_frame_refl(pre, s0.id);
        }
        if b.done {
            return (b, chans, StepOutcome::Blocked);
        }
        let cl = b.left;
        let cr = b.right;
        let n_out = b.targets.len();

        let l_empty = chans[cl].queued() == 0;
        let r_empty = chans[cr].queued() == 0;
        if l_empty || r_empty {
            let l_exh = chans[cl].is_exhausted();
            let r_exh = chans[cr].is_exhausted();
            if l_exh && r_exh {
                // Clean shutdown: close every target and finish.
                let mut t: usize = 0;
                while t < n_out
                    invariant
                        t <= n_out,
                        b == s0,
                        chans@.len() == pre.len(),
                        chans_wf(chans@),
                        chans_frame(pre, chans@, b.id),
                        forall|c: int|
                            0 <= c < pre.len() ==> (#[trigger] chans@[c]) == pre[c] || chans@[c] == (
                            Channel { closed: true, ..pre[c] }),
                        forall|k: int|
                            0 <= k < t ==> (#[trigger] chans@[b.targets@[k] as int]).closed,
                    decreases n_out - t,
                {
                    let ghost tcur = t as int;
                    assert(s0.target_ok(pre, tcur));
                    let c = b.targets[t];
                    let ghost snap = chans@;
                    crate::channel::vec_close(&mut chans, c);
                    proof {
                        assert(chans@ == snap.update(
                            c as int,
                            (Channel { closed: true, ..snap[c as int] }),
                        ));
                        assert forall|k: int|
                            0 <= k < tcur + 1 implies (
                        #[trigger] chans@[b.targets@[k] as int]).closed by {
                            assert(s0.target_ok(pre, k));
                            if b.targets@[k] as int != c as int {
                                crate::channel::lemma_update_untouched(
                                    snap,
                                    chans@,
                                    c as int,
                                    b.targets@[k] as int,
                                );
                            }
                        }
                        assert forall|c2: int|
                            0 <= c2 < pre.len() implies (#[trigger] chans@[c2]) == pre[c2]
                            || chans@[c2] == (Channel { closed: true, ..pre[c2] }) by {
                            if c2 == c as int {
                                assert(snap[c2] == pre[c2] || snap[c2] == (Channel {
                                    closed: true,
                                    ..pre[c2]
                                }));
                            }
                        }
                        assert forall|c2: int| 0 <= c2 < chans@.len() implies (
                        #[trigger] chans@[c2]).wf() by {
                            assert(snap[c2].wf());
                            if c2 == c as int {
                                assert(chans@[c2].hist == snap[c2].hist && chans@[c2].queue
                                    == snap[c2].queue && chans@[c2].deq_times == snap[c2].deq_times
                                    && chans@[c2].cap == snap[c2].cap);
                            }
                        }
                        assert forall|c2: int| 0 <= c2 < pre.len() implies chan_frame(
                            #[trigger] pre[c2],
                            #[trigger] chans@[c2],
                            b.id,
                        ) by {
                            assert(pre[c2].hist@.is_prefix_of(pre[c2].hist@));
                            assert(pre[c2].deq_times@.is_prefix_of(pre[c2].deq_times@));
                            if c2 == c as int && chans@[c2] != pre[c2] {
                                assert(pre[c2].sender_tag == b.id);
                            }
                        }
                    }
                    t = t + 1;
                }
                b.done = true;
                proof {
                    let post = chans@;
                    assert(post[cl as int] == pre[cl as int] || post[cl as int] == (Channel {
                        closed: true,
                        ..pre[cl as int]
                    }));
                    assert(post[cr as int] == pre[cr as int] || post[cr as int] == (Channel {
                        closed: true,
                        ..pre[cr as int]
                    }));
                    assert forall|t2: int| 0 <= t2 < b.targets@.len() implies #[trigger] b.target_ok(
                        post,
                        t2,
                    ) by {
                        assert(s0.target_ok(pre, t2));
                        let c = b.targets@[t2] as int;
                        assert(post[c] == pre[c] || post[c] == (Channel { closed: true, ..pre[c] }));
                        assert(post[c].closed);
                        assert(post[c].hist == pre[c].hist);
                    }
                    assert forall|t2: int, j: int|
                        0 <= t2 < b.targets@.len() && 0 <= j < post[cl as int].taken() implies
                        #[trigger] b.pair_ok(post, t2, j) by {
                        assert(s0.pair_ok(pre, t2, j));
                        assert(s0.target_ok(pre, t2));
                        let c = b.targets@[t2] as int;
                        assert(post[c] == pre[c] || post[c] == (Channel { closed: true, ..pre[c] }));
                    }
                }
                return (b, chans, StepOutcome::Finished);
            }
            if l_exh && !r_empty {
                return (b, chans, StepOutcome::Fault(SimError::ProtocolViolation));
            }
            if r_exh && !l_empty {
                return (b, chans, StepOutcome::Fault(SimError::ProtocolViolation));
            }
            return (b, chans, StepOutcome::Blocked);
        }

        // Both inputs have data; every target needs room.
        let mut t: usize = 0;
        while t < n_out
            invariant
                t <= n_out,
                b == s0,
                chans@ == pre,
                forall|k: int|
                    0 <= k < t ==> (#[trigger] chans@[b.targets@[k] as int]).queue@.len()
                        < chans@[b.targets@[k] as int].cap,
            decreases n_out - t,
        {
            let ghost tcur = t as int;
            assert(b.target_ok(chans@, tcur));
            let c = b.targets[t];
            if !chans[c].has_space() {
                return (b, chans, StepOutcome::Blocked);
            }
            t = t + 1;
        }

        let ghost taken0 = pre[cl as int].taken();
        let ghost ltime = pre[cl as int].hist@[taken0].0;
        let ghost rtime = pre[cr as int].hist@[pre[cr as int].taken()].0;
        let ghost snap0 = chans@;
        let (vl, t1) = crate::channel::vec_dequeue(&mut chans, cl, b.clock);
        b.clock = t1;
        proof {
            assert forall|c2: int| 0 <= c2 < chans@.len() implies (#[trigger] chans@[c2]).wf() by {
                if c2 != cl as int {
                    crate::channel::lemma_update_untouched(snap0, chans@, cl as int, c2);
                }
                assert(snap0[c2].wf());
            }
            crate::channel::lemma_update_untouched(snap0, chans@, cl as int, cr as int);
        }
        let ghost snap1 = chans@;
        let (vr, t2) = crate::channel::vec_dequeue(&mut chans, cr, b.clock);
        b.clock = t2;
        proof {
            assert forall|c2: int| 0 <= c2 < chans@.len() implies (#[trigger] chans@[c2]).wf() by {
                if c2 != cr as int {
                    crate::channel::lemma_update_untouched(snap1, chans@, cr as int, c2);
                }
                assert(snap1[c2].wf());
            }
            assert forall|c2: int| 0 <= c2 < pre.len() implies chan_frame(
                #[trigger] pre[c2],
                #[trigger] chans@[c2],
                b.id,
            ) by {
                assert(pre[c2].hist@.is_prefix_of(pre[c2].hist@));
                assert(pre[c2].deq_times@.is_prefix_of(pre[c2].deq_times@));
                if c2 != cl as int && c2 != cr as int {
                    crate::channel::lemma_update_untouched(snap0, snap1, cl as int, c2);
                    crate::channel::lemma_update_untouched(snap1, chans@, cr as int, c2);
                }
            }
        }
        let y = Value::Pair(Box::new(vl), Box::new(vr));
        let ghost yv = y@;
        proof {
            assert(vl@ == pre[cl as int].hist@[taken0].1);
            assert(vr@ == pre[cr as int].hist@[taken0].1);
            assert(yv == Val::Pair(
                Box::new(pre[cl as int].sent()[taken0]),
                Box::new(pre[cr as int].sent()[taken0]),
            ));
        }

        // Wait for the slot each target will use, stamp, and broadcast.
        let ghost mid = chans@;
        let ghost clock_mid = b.clock;
        proof {
            assert forall|k: int| 0 <= k < n_out implies (#[trigger] mid[b.targets@[k] as int])
                == pre[b.targets@[k] as int] by {
                assert(s0.target_ok(pre, k));
                crate::channel::lemma_update_untouched(
                    snap0,
                    snap1,
                    cl as int,
                    b.targets@[k] as int,
                );
                crate::channel::lemma_update_untouched(
                    snap1,
                    mid,
                    cr as int,
                    b.targets@[k] as int,
                );
            }
            assert forall|k: int|
                0 <= k < n_out implies ((#[trigger] mid[b.targets@[k] as int]).closed == false
                && mid[b.targets@[k] as int].deq_times == pre[b.targets@[k] as int].deq_times
                && mid[b.targets@[k] as int].hist@ == pre[b.targets@[k] as int].hist@) by {
                assert(s0.target_ok(pre, k));
                assert(mid[b.targets@[k] as int] == pre[b.targets@[k] as int]);
            }
        }
        let mut t: usize = 0;
        while t < n_out
            invariant
                t <= n_out,
                chans@ == mid,
                chans@.len() == pre.len(),
                b.id == s0.id,
                b.left == s0.left,
                b.right == s0.right,
                b.targets == s0.targets,
                b.done == s0.done,
                b.clock >= clock_mid,
                clock_mid >= s0.clock,
                forall|k: int|
                    0 <= k < n_out ==> (#[trigger] mid[b.targets@[k] as int]) == pre[b.targets@[k] as int],
            decreases n_out - t,
        {
            let ghost tcur = t as int;
            assert(s0.target_ok(pre, tcur));
            let c = b.targets[t];
            assert(chans@[c as int] == pre[c as int]);
            let sft = chans[c].slot_free_time();
            b.clock = max64(b.clock, sft);
            t = t + 1;
        }

        let stamp = sat_add(b.clock, 1);
        let ghost clock_bp = b.clock;
        proof {
            assert forall|k: int|
                0 <= k < n_out implies ((#[trigger] chans@[b.targets@[k] as int]).closed == false
                && chans@[b.targets@[k] as int].deq_times == pre[b.targets@[k] as int].deq_times
                && chans@[b.targets@[k] as int].hist@ == pre[b.targets@[k] as int].hist@) by {
                assert(s0.target_ok(pre, k));
                assert(mid[b.targets@[k] as int] == pre[b.targets@[k] as int]);
            }
        }
        let mut t: usize = 0;
        while t < n_out
            invariant
                t <= n_out,
                chans_wf(chans@),
                chans@.len() == pre.len(),
                chans_frame(mid, chans@, b.id),
                b.id == s0.id,
                b.left == s0.left,
                b.right == s0.right,
                b.targets == s0.targets,
                b.done == s0.done,
                b.clock == clock_bp,
                clock_bp >= clock_mid,
                clock_mid >= s0.clock,
                stamp == sat_add_s(b.clock, 1),
                forall|k: int|
                    0 <= k < n_out ==> (#[trigger] mid[b.targets@[k] as int]) == pre[b.targets@[k] as int],
                forall|k: int|
                    0 <= k < n_out ==> ((#[trigger] chans@[b.targets@[k] as int]).hist@ == (if k < t {
                        pre[b.targets@[k] as int].hist@.push((stamp, yv))
                    } else {
                        pre[b.targets@[k] as int].hist@
                    })),
                forall|k: int|
                    0 <= k < n_out ==> ((#[trigger] chans@[b.targets@[k] as int]).closed == false
                        && chans@[b.targets@[k] as int].deq_times
                        == pre[b.targets@[k] as int].deq_times),
                forall|c: int|
                    0 <= c < pre.len() && (forall|k: int|
                        0 <= k < t ==> b.targets@[k] != c) ==> (#[trigger] chans@[c]) == mid[c],
            decreases n_out - t,
        {
            let ghost tcur = t as int;
            assert(s0.target_ok(pre, tcur));
            let c = b.targets[t];
            assert(chans@[c as int] == mid[c as int]) by {
                assert(forall|k: int| 0 <= k < tcur ==> b.targets@[k] != b.targets@[tcur]);
            }
            assert(mid[c as int] == pre[c as int]);
            assert(pre[c as int].horizon() <= sat_add_s(s0.clock, 1));
            assert(sat_add_s(s0.clock, 1) <= stamp);
            let y2 = y.dup();
            let ghost snap2 = chans@;
            crate::channel::vec_enqueue(&mut chans, c, stamp, y2);
            proof {
                assert forall|k: int|
                    0 <= k < n_out implies ((#[trigger] chans@[b.targets@[k] as int]).hist@ == (if k
                        < tcur + 1 {
                        pre[b.targets@[k] as int].hist@.push((stamp, yv))
                    } else {
                        pre[b.targets@[k] as int].hist@
                    })) by {
                    assert(s0.target_ok(pre, k));
                    if k != tcur {
                        assert(b.targets@[k] != b.targets@[tcur]);
                        crate::channel::lemma_update_untouched(
                            snap2,
                            chans@,
                            c as int,
                            b.targets@[k] as int,
                        );
                    }
                }
                assert forall|k: int|
                    0 <= k < n_out implies ((#[trigger] chans@[b.targets@[k] as int]).closed
                        == false && chans@[b.targets@[k] as int].deq_times
                        == pre[b.targets@[k] as int].deq_times) by {
                    assert(s0.target_ok(pre, k));
                    if k != tcur {
                        assert(b.targets@[k] != b.targets@[tcur]);
                        crate::channel::lemma_update_untouched(
                            snap2,
                            chans@,
                            c as int,
                            b.targets@[k] as int,
                        );
                    }
                }
                assert forall|c2: int| 0 <= c2 < chans@.len() implies (
                #[trigger] chans@[c2]).wf() by {
                    if c2 != c as int {
                        crate::channel::lemma_update_untouched(snap2, chans@, c as int, c2);
                    }
                    assert(snap2[c2].wf());
                }
                assert(chans_frame(mid, chans@, b.id)) by {
                    assert forall|c2: int| 0 <= c2 < mid.len() implies chan_frame(
                        #[trigger] mid[c2],
                        #[trigger] chans@[c2],
                        b.id,
                    ) by {
                        assert(chan_frame(mid[c2], snap2[c2], b.id));
                        if c2 != c as int {
                            crate::channel::lemma_update_untouched(snap2, chans@, c as int, c2);
                        } else {
                            assert(snap2[c2].hist@.is_prefix_of(chans@[c2].hist@));
                            assert(mid[c2].hist@.is_prefix_of(chans@[c2].hist@));
                            assert(mid[c2].deq_times@.is_prefix_of(chans@[c2].deq_times@));
                        }
                    }
                }
            }
            t = t + 1;
        }
        b.clock = sat_add(b.clock, 1);
        proof {
            assert(clock_mid == max_s(max_s(s0.clock, ltime), rtime));
            assert(b.clock == sat_add_s(clock_bp, 1));
            assert(b.clock >= sat_add_s(max_s(max_s(s0.clock, ltime), rtime), 1));
            assert forall|k: int|
                0 <= k < n_out implies (#[trigger] chans@[b.targets@[k] as int].hist@).len()
                == pre[b.targets@[k] as int].hist@.len() + 1
                && chans@[b.targets@[k] as int].hist@.last().0 == b.clock by {
                assert(chans@[b.targets@[k] as int].hist@ == pre[b.targets@[k] as int].hist@.push(
                    (stamp, yv),
                ));
                assert(chans@[b.targets@[k] as int].hist@.last().0 == stamp);
                assert(stamp == sat_add_s(clock_bp, 1));
            }
        }
        proof {
            let post = chans@;
            crate::channel::lemma_chan_frame_trans(pre, mid, post, b.id);
            assert(post[cl as int].hist@ == pre[cl as int].hist@);
            assert(post[cr as int].hist@ == pre[cr as int].hist@);
            assert(post[cl as int].taken() == taken0 + 1);
            assert(post[cr as int].taken() == taken0 + 1);
            assert forall|t2: int| 0 <= t2 < b.targets@.len() implies #[trigger] b.target_ok(
                post,
                t2,
            ) by {
                assert(s0.target_ok(pre, t2));
                let c = b.targets@[t2] as int;
                assert(post[c].hist@ == pre[c].hist@.push((stamp, yv)));
                assert(post[c].sent() =~= pre[c].sent().push(yv));
                assert(post[c].horizon() == stamp);
                assert(sat_add_s(clock_bp, 1) <= sat_add_s(b.clock, 1));
            }
            assert forall|t2: int, j: int|
                0 <= t2 < b.targets@.len() && 0 <= j < post[cl as int].taken() implies
                #[trigger] b.pair_ok(post, t2, j) by {
                assert(s0.target_ok(pre, t2));
                let c = b.targets@[t2] as int;
                assert(post[c].sent() =~= pre[c].sent().push(yv));
                assert(post[cl as int].hist@[j] == pre[cl as int].hist@[j]);
                assert(post[cr as int].hist@[j] == pre[cr as int].hist@[j]);
                if j < taken0 {
                    assert(s0.pair_ok(pre, t2, j));
                    assert(post[c].sent()[j] == pre[c].sent()[j]);
                } else {
                    assert(j == taken0);
                    assert(post[c].sent()[j] == yv);
                }
            }
        }
        (b, chans, StepOutcome::Progress)
    }
}

} // verus!
