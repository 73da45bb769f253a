//! Feed and drain blocks.
//!
//! A generator pushes a fixed list of payloads into one channel, one element
//! per cycle, and closes it.  A consumer drains one channel, recording every
//! element it receives together with its timestamp, until the channel is
//! exhausted.  Tests and drivers use them where a workload would sit at the
//! edges of a graph.

use vstd::prelude::*;

use crate::channel::{
    chan_frame, chans_frame, chans_wf, max64, recvs_ok, sat_add, sat_add_s, sends_ok, Channel,
    ChannelElement,
};
use crate::scalar::Scalar;
use crate::simulation::StepOutcome;
use crate::templates::types::{Receiver, Sender};
use crate::value::{Val, Value};

verus! {

/// A block that feeds a fixed list of payloads into one channel.
pub struct GeneratorContext<S> {
    /// Index of this block in the simulation; set when it is added.
    pub id: usize,
    /// Output channel index.
    pub output: usize,
    /// The payloads to emit, in order.
    pub values: Vec<Value<S>>,
    /// How many payloads have been emitted.
    pub idx: usize,
    /// The block's local clock.
    pub clock: u64,
    /// Whether the block has shut down.
    pub done: bool,
}

impl<S: Scalar> GeneratorContext<S> {
    /// Creates a generator that will emit `values` on `output`.
    pub fn new(values: Vec<Value<S>>, output: Sender) -> (r: Self)
        ensures
            r.id == 0,
            r.output == output.id,
            r.values == values,
            r.idx == 0,
            r.clock == 0,
            !r.done,
    {
        GeneratorContext { id: 0, output: output.id, values, idx: 0, clock: 0, done: false }
    }

    /// Element `j` of the output history is the view of payload `j`,
    /// stamped no earlier than cycle `j + 1`: the generator feeds one
    /// element per cycle.
    pub open spec fn emitted_ok(self, chans: Seq<Channel<S>>, j: int) -> bool {
        &&& chans[self.output as int].sent()[j] == self.values@[j]@
        &&& chans[self.output as int].hist@[j].0 as int >= j + 1
    }

    /// The block's invariant against the channel table.
    pub open spec fn wf(self, chans: Seq<Channel<S>>) -> bool {
        let cout = self.output as int;
        &&& cout < chans.len()
        &&& sends_ok(chans[cout], self.id, self.clock, 1)
        &&& chans[cout].receiver_tag != self.id
        &&& self.idx <= self.values@.len()
        &&& self.clock as int >= self.idx as int
        &&& chans[cout].sent().len() == self.idx
        &&& (forall|j: int| 0 <= j < self.idx ==> #[trigger] self.emitted_ok(chans, j))
        &&& chans[cout].closed == self.done
        &&& (self.done ==> self.idx == self.values@.len())
    }

    /// A step by another block leaves this block's invariant intact.
    pub proof fn lemma_wf_frame(self, pre: Seq<Channel<S>>, post: Seq<Channel<S>>, who: usize)
        requires
            self.wf(pre),
            chans_wf(pre),
            chans_wf(post),
            chans_frame(pre, post, who),
            who != self.id,
        ensures
            self.wf(post),
    {
        let cout = self.output as int;
        assert(chan_frame(pre[cout], post[cout], who));
        assert(post[cout].hist == pre[cout].hist);
        assert forall|j: int| 0 <= j < self.idx implies #[trigger] self.emitted_ok(post, j) by {
            assert(self.emitted_ok(pre, j));
        }
    }

    /// One scheduling step: emit the next payload stamped one cycle ahead,
    /// or close the channel once every payload is out.
    pub fn step(self, table: Vec<Channel<S>>) -> (r: (Self, Vec<Channel<S>>, StepOutcome))
        requires
            chans_wf(table@),
            self.wf(table@),
        ensures
            chans_wf(r.1@),
            chans_frame(table@, r.1@, self.id),
            r.0.id == self.id,
            r.0.output == self.output,
            r.0.values == self.values,
            r.0.clock >= self.clock,
            r.0.idx >= self.idx,
            !(r.2 is Fault),
            r.0.wf(r.1@),
            r.2 is Blocked ==> r.0 == self && r.1@ == table@,
            r.2 is Blocked ==> self.done || (self.idx < self.values@.len()
                && table@[self.output as int].queue@.len() >= table@[self.output as int].cap),
            r.2 is Finished ==> r.0.done && !self.done && r.0.idx == self.idx,
            r.2 is Progress ==> !r.0.done && r.0.idx == self.idx + 1,
            self.done ==> r.2 is Blocked,
    {
        let ghost pre = table@;
        let ghost s0 = self;
        let mut b = self;
        let mut chans = table;
        proof {
            crate::channel::lemma_chans_frame_refl(pre, s0.id);
        }
        if b.done {
            return (b, chans, StepOutcome::Blocked);
        }
        let cout = b.output;
        if b.idx == b.values.len() {
            let ghost snap = chans@;
            crate::channel::vec_close(&mut chans, cout);
            b.done = true;
            proof {
                assert forall|c2: int| 0 <= c2 < chans@.len() implies (
                #[trigger] chans@[c2]).wf() by {
                    if c2 != cout as int {
                        crate::channel::lemma_update_untouched(snap, chans@, cout as int, c2);
                    } else {
                        assert(chans@[c2].hist == snap[c2].hist && chans@[c2].queue == snap[c2].queue
                            && chans@[c2].deq_times == snap[c2].deq_times && chans@[c2].cap
                            == snap[c2].cap);
                    }
                    assert(snap[c2].wf());
                }
                assert forall|c2: int| 0 <= c2 < pre.len() implies chan_frame(
                    #[trigger] pre[c2],
                    #[trigger] chans@[c2],
                    b.id,
                ) by {
                    assert(pre[c2].hist@.is_prefix_of(pre[c2].hist@));
                    assert(pre[c2].deq_times@.is_prefix_of(pre[c2].deq_times@));
                    if c2 != cout as int {
                        crate::channel::lemma_update_untouched(snap, chans@, cout as int, c2);
                    }
                }
                assert forall|j: int| 0 <= j < b.idx implies #[trigger] b.emitted_ok(chans@, j) by {
                    assert(s0.emitted_ok(pre, j));
                }
            }
            return (b, chans, StepOutcome::Finished);
        }
        if !chans[cout].has_space() {
            return (b, chans, StepOutcome::Blocked);
        }
        let sft = chans[cout].slot_free_time();
        b.clock = max64(b.clock, sft);
        let stamp = sat_add(b.clock, 1);
        let v = b.values[b.idx].dup();
        proof {
            assert(pre[cout as int].horizon() <= sat_add_s(s0.clock, 1));
        }
        let ghost snap = chans@;
        crate::channel::vec_enqueue(&mut chans, cout, stamp, v);
        b.clock = sat_add(b.clock, 1);
        b.idx = b.idx + 1;
        proof {
            let post = chans@;
            assert forall|c2: int| 0 <= c2 < chans@.len() implies (#[trigger] chans@[c2]).wf() by {
                if c2 != cout as int {
                    crate::channel::lemma_update_untouched(snap, chans@, cout as int, c2);
                }
                assert(snap[c2].wf());
            }
            assert forall|c2: int| 0 <= c2 < pre.len() implies chan_frame(
                #[trigger] pre[c2],
                #[trigger] chans@[c2],
                b.id,
            ) by {
                assert(pre[c2].hist@.is_prefix_of(pre[c2].hist@));
                assert(pre[c2].deq_times@.is_prefix_of(pre[c2].deq_times@));
                if c2 != cout as int {
                    crate::channel::lemma_update_untouched(snap, chans@, cout as int, c2);
                } else {
                    assert(pre[c2].hist@.is_prefix_of(chans@[c2].hist@));
                }
            }
            assert(post[cout as int].sent() =~= pre[cout as int].sent().push(
                s0.values@[s0.idx as int]@,
            ));
            assert forall|j: int| 0 <= j < b.idx implies #[trigger] b.emitted_ok(post, j) by {
                if j < s0.idx {
                    assert(s0.emitted_ok(pre, j));
                    assert(post[cout as int].sent()[j] == pre[cout as int].sent()[j]);
                } else {
                    assert(post[cout as int].sent()[j] == s0.values@[s0.idx as int]@);
                }
            }
        }
        (b, chans, StepOutcome::Progress)
    }
}

/// A block that drains one channel, recording everything it receives.
pub struct ConsumerContext<S> {
    /// Index of this block in the simulation; set when it is added.
    pub id: usize,
    /// Input channel index.
    pub input: usize,
    /// Every element received so far, with its timestamp.
    pub collected: Vec<ChannelElement<S>>,
    /// The block's local clock.
    pub clock: u64,
    /// Whether the block has shut down.
    pub done: bool,
}

impl<S: Scalar> ConsumerContext<S> {
    /// Creates a consumer that drains `input`.
    pub fn new(input: Receiver) -> (r: Self)
        ensures
            r.id == 0,
            r.input == input.id,
            r.collected@.len() == 0,
            r.clock == 0,
            !r.done,
    {
        ConsumerContext { id: 0, input: input.id, collected: Vec::new(), clock: 0, done: false }
    }

    /// Record `j` matches element `j` of the input history.
    pub open spec fn record_ok(self, chans: Seq<Channel<S>>, j: int) -> bool {
        let cin = self.input as int;
        &&& self.collected@[j].time == chans[cin].hist@[j].0
        &&& self.collected@[j].data@ == chans[cin].hist@[j].1
    }

    /// The block's invariant against the channel table.
    pub open spec fn wf(self, chans: Seq<Channel<S>>) -> bool {
        let cin = self.input as int;
        &&& cin < chans.len()
        &&& recvs_ok(chans[cin], self.id, self.clock)
        &&& chans[cin].sender_tag != self.id
        &&& chans[cin].taken() == self.collected@.len()
        &&& (forall|j: int| 0 <= j < self.collected@.len() ==> #[trigger] self.record_ok(chans, j))
        &&& (self.done ==> chans[cin].spec_exhausted())
    }

    /// A step by another block leaves this block's invariant intact.
    pub proof fn lemma_wf_frame(self, pre: Seq<Channel<S>>, post: Seq<Channel<S>>, who: usize)
        requires
            self.wf(pre),
            chans_wf(pre),
            chans_wf(post),
            chans_frame(pre, post, who),
            who != self.id,
        ensures
            self.wf(post),
    {
        let cin = self.input as int;
        assert(chan_frame(pre[cin], post[cin], who));
        assert(pre[cin].hist@.is_prefix_of(post[cin].hist@));
        assert(pre[cin].wf());
        assert forall|j: int| 0 <= j < self.collected@.len() implies #[trigger] self.record_ok(
            post,
            j,
        ) by {
            assert(self.record_ok(pre, j));
            assert(post[cin].hist@[j] == pre[cin].hist@[j]);
        }
        if self.done {
            assert(post[cin].hist@ == pre[cin].hist@);
            assert(post[cin].wf());
            assert(post[cin].queue@.len() == 0);
        }
    }

    /// One scheduling step: receive and record the next element, or finish
    /// once the channel is exhausted.
    pub fn step(self, table: Vec<Channel<S>>) -> (r: (Self, Vec<Channel<S>>, StepOutcome))
        requires
            chans_wf(table@),
            self.wf(table@),
        ensures
            chans_wf(r.1@),
            chans_frame(table@, r.1@, self.id),
            r.0.id == self.id,
            r.0.input == self.input,
            r.0.clock >= self.clock,
            r.0.collected@.len() >= self.collected@.len(),
            !(r.2 is Fault),
            r.0.wf(r.1@),
            r.2 is Blocked ==> r.0 == self && r.1@ == table@,
            r.2 is Blocked ==> self.done || (table@[self.input as int].queue@.len() == 0
                && !table@[self.input as int].closed),
            r.2 is Finished ==> r.0.done && !self.done && r.0.collected@.len()
                == self.collected@.len(),
            r.2 is Progress ==> !r.0.done && r.0.collected@.len() == self.collected@.len() + 1,
            self.done ==> r.2 is Blocked,
    {
        let ghost pre = table@;
        let ghost s0 = self;
        let mut b = self;
        let mut chans = table;
        proof {
            crate::channel::lemma_chans_frame_refl(pre, s0.id);
        }
        if b.done {
            return (b, chans, StepOutcome::Blocked);
        }
        let cin = b.input;
        if chans[cin].queued() == 0 {
            if chans[cin].is_exhausted() {
                b.done = true;
                proof {
                    assert forall|j: int|
                        0 <= j < b.collected@.len() implies #[trigger] b.record_ok(chans@, j) by {
                        assert(s0.record_ok(pre, j));
                    }
                }
                return (b, chans, StepOutcome::Finished);
            }
            return (b, chans, StepOutcome::Blocked);
        }
        let t = match chans[cin].front_time() {
            Some(t) => t,
            None => {
                proof {
                    assert(false);
                }
                return (b, chans, StepOutcome::Blocked);
            },
        };
        let ghost snap = chans@;
        let (v, t2) = crate::channel::vec_dequeue(&mut chans, cin, b.clock);
        b.clock = t2;
        b.collected.push(ChannelElement { time: t, data: v });
        proof {
            let post = chans@;
            assert forall|c2: int| 0 <= c2 < chans@.len() implies (#[trigger] chans@[c2]).wf() by {
                if c2 != cin as int {
                    crate::channel::lemma_update_untouched(snap, chans@, cin as int, c2);
                }
                assert(snap[c2].wf());
            }
            assert forall|c2: int| 0 <= c2 < pre.len() implies chan_frame(
                #[trigger] pre[c2],
                #[trigger] chans@[c2],
                b.id,
            ) by {
                assert(pre[c2].hist@.is_prefix_of(pre[c2].hist@));
                assert(pre[c2].deq_times@.is_prefix_of(pre[c2].deq_times@));
                if c2 != cin as int {
                    crate::channel::lemma_update_untouched(snap, chans@, cin as int, c2);
                }
            }
            assert forall|j: int| 0 <= j < b.collected@.len() implies #[trigger] b.record_ok(
                post,
                j,
            ) by {
                if j < s0.collected@.len() {
                    assert(s0.record_ok(pre, j));
                    assert(b.collected@[j] == s0.collected@[j]);
                } else {
                    assert(b.collected@[j] == (ChannelElement { time: t, data: v }));
                }
            }
        }
        (b, chans, StepOutcome::Progress)
    }
}

} // verus!
