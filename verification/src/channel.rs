//! Bounded channels carrying timestamped payloads.
//!
//! A channel is a unidirectional FIFO of capacity at least one, with exactly
//! one sending block and one receiving block (fan-out is a set of channels,
//! one per consumer).  Every element carries the cycle at which it becomes
//! visible; timestamps on one channel never decrease.  The channel keeps,
//! beyond its buffered queue, the mathematical history of everything ever
//! sent on it and the receiver clock at every dequeue; contracts about whole
//! pipelines are stated over those histories.
//!
//! Back-pressure is captured by [`Channel::slot_free_time`]: the `s`-th send
//! on a channel of capacity `c` can only happen once the `(s - c)`-th
//! element has been dequeued, and the sender's clock must first advance to
//! the cycle at which that dequeue happened.

use vstd::prelude::*;

use crate::value::{Val, Value};

verus! {

/// Saturating addition on cycle counts.
pub open spec fn sat_add_s(a: u64, b: u64) -> u64 {
    if a + b > u64::MAX {
        u64::MAX
    } else {
        (a + b) as u64
    }
}

/// Saturating addition on cycle counts.
pub fn sat_add(a: u64, b: u64) -> (r: u64)
    ensures
        r == sat_add_s(a, b),
{
    match a.checked_add(b) {
        Some(s) => s,
        None => u64::MAX,
    }
}

/// The larger of two cycle counts.
pub open spec fn max_s(a: u64, b: u64) -> u64 {
    if a < b {
        b
    } else {
        a
    }
}

/// The larger of two cycle counts.
pub fn max64(a: u64, b: u64) -> (r: u64)
    ensures
        r == max_s(a, b),
{
    if a < b {
        b
    } else {
        a
    }
}

/// A timestamped payload: `data` becomes visible to the receiver at cycle
/// `time`.
#[derive(Debug)]
pub struct ChannelElement<S> {
    pub time: u64,
    pub data: Value<S>,
}

/// A bounded FIFO of timestamped payloads with one sender and one receiver.
pub struct Channel<S> {
    /// Capacity; at least one.
    pub cap: usize,
    /// The elements sent but not yet received, oldest first.
    pub queue: Vec<ChannelElement<S>>,
    /// For every dequeue so far, the receiver's clock just after it.
    pub deq_times: Vec<u64>,
    /// Set once the sending block has shut down.
    pub closed: bool,
    /// Index of the block holding the sender endpoint.
    pub sender_tag: usize,
    /// Index of the block holding the receiver endpoint.
    pub receiver_tag: usize,
    /// Every element ever sent, in order: its timestamp and its view.
    pub hist: Ghost<Seq<(u64, Val<S>)>>,
}

impl<S> Channel<S> {
    /// The number of elements ever dequeued.
    pub open spec fn taken(self) -> int {
        self.deq_times@.len() as int
    }

    /// The number of elements ever sent.
    pub open spec fn sent_total(self) -> int {
        self.hist@.len() as int
    }

    /// The views of every element ever sent, in order.
    pub open spec fn sent(self) -> Seq<Val<S>> {
        self.hist@.map_values(|p: (u64, Val<S>)| p.1)
    }

    /// The timestamps of every element ever sent, in order.
    pub open spec fn times(self) -> Seq<u64> {
        self.hist@.map_values(|p: (u64, Val<S>)| p.0)
    }

    /// The timestamp of the most recent send; new sends may not go below it.
    pub open spec fn horizon(self) -> u64 {
        if self.hist@.len() == 0 {
            0
        } else {
            self.hist@.last().0
        }
    }

    /// The receiver clock at the most recent dequeue.
    pub open spec fn deq_last(self) -> u64 {
        if self.deq_times@.len() == 0 {
            0
        } else {
            self.deq_times@.last()
        }
    }

    /// Closed and fully drained: every further receive reports exhaustion.
    pub open spec fn spec_exhausted(self) -> bool {
        self.closed && self.queue@.len() == 0
    }

    /// Well-formedness: the queue is the undelivered suffix of the history,
    /// timestamps and dequeue clocks never decrease, and no element is
    /// dequeued before its timestamp.
    pub open spec fn wf(self) -> bool {
        &&& 1 <= self.cap
        &&& self.deq_times@.len() + self.queue@.len() == self.hist@.len()
        &&& self.queue@.len() <= self.cap
        &&& (forall|i: int|
            0 <= i < self.queue@.len() ==> (#[trigger] self.queue@[i]).time == self.hist@[self.taken()
                + i].0 && self.queue@[i].data@ == self.hist@[self.taken() + i].1)
        &&& (forall|i: int, j: int|
            0 <= i <= j < self.hist@.len() ==> (#[trigger] self.hist@[i]).0
                <= (#[trigger] self.hist@[j]).0)
        &&& (forall|i: int, j: int|
            0 <= i <= j < self.deq_times@.len() ==> (#[trigger] self.deq_times@[i])
                <= (#[trigger] self.deq_times@[j]))
        &&& (forall|i: int|
            0 <= i < self.deq_times@.len() ==> (#[trigger] self.deq_times@[i]) >= self.hist@[i].0)
    }

    /// When a send would have to wait for space, the cycle at which the slot
    /// it will use was (or is) freed by the receiver.
    pub open spec fn spec_slot_free_time(self) -> u64 {
        if self.hist@.len() < self.cap {
            0
        } else {
            self.deq_times@[self.hist@.len() - self.cap]
        }
    }

    /// A fresh, open, empty channel.
    pub fn new(cap: usize, sender_tag: usize, receiver_tag: usize) -> (r: Self)
        requires
            cap >= 1,
        ensures
            r.wf(),
            r.cap == cap,
            r.sender_tag == sender_tag,
            r.receiver_tag == receiver_tag,
            r.hist@ =~= Seq::<(u64, Val<S>)>::empty(),
            r.deq_times@ =~= Seq::<u64>::empty(),
            !r.closed,
    {
        Channel {
            cap,
            queue: Vec::new(),
            deq_times: Vec::new(),
            closed: false,
            sender_tag,
            receiver_tag,
            hist: Ghost(Seq::empty()),
        }
    }

    /// The number of elements currently buffered.
    pub fn queued(&self) -> (r: usize)
        ensures
            r == self.queue@.len(),
    {
        self.queue.len()
    }

    /// Whether a send can proceed without waiting.
    pub fn has_space(&self) -> (r: bool)
        ensures
            r <==> self.queue@.len() < self.cap,
    {
        self.queue.len() < self.cap
    }

    /// Whether the channel is closed and drained.
    pub fn is_exhausted(&self) -> (r: bool)
        ensures
            r == self.spec_exhausted(),
    {
        self.closed && self.queue.len() == 0
    }

    /// The timestamp of the next element, if one is buffered.
    pub fn front_time(&self) -> (r: Option<u64>)
        requires
            self.wf(),
        ensures
            match r {
                Some(t) => self.queue@.len() > 0 && t == self.hist@[self.taken()].0,
                None => self.queue@.len() == 0,
            },
    {
        if self.queue.len() > 0 {
            Some(self.queue[0].time)
        } else {
            None
        }
    }

    /// Marks the sending side as shut down.
    pub fn close(&mut self)
        ensures
            *final(self) == (Channel { closed: true, ..*old(self) }),
    {
        self.closed = true;
    }

    /// The cycle at which the slot the next send will use was freed.
    pub fn slot_free_time(&self) -> (r: u64)
        requires
            self.wf(),
            self.queue@.len() < self.cap,
        ensures
            r == self.spec_slot_free_time(),
    {
        let q = self.queue.len();
        let d = self.deq_times.len();
        if d < self.cap - q {
            0
        } else {
            self.deq_times[d - (self.cap - q)]
        }
    }

    /// Appends an element to the channel.  The sender must have space, must
    /// still be open, and may not stamp below the channel's horizon.
    pub fn enqueue(&mut self, time: u64, data: Value<S>)
        requires
            old(self).wf(),
            !old(self).closed,
            old(self).queue@.len() < old(self).cap,
            time >= old(self).horizon(),
        ensures
            final(self).wf(),
            final(self).hist@ == old(self).hist@.push((time, data@)),
            final(self).queue@ == old(self).queue@.push(ChannelElement { time, data }),
            final(self).deq_times == old(self).deq_times,
            final(self).closed == old(self).closed,
            final(self).cap == old(self).cap,
            final(self).sender_tag == old(self).sender_tag,
            final(self).receiver_tag == old(self).receiver_tag,
            final(self).horizon() == time,
    {
        proof {
            assert forall|i: int, j: int|
                0 <= i <= j < old(self).hist@.len() + 1 implies (#[trigger] old(self).hist@.push(
                (time, data@),
            )[i]).0 <= (#[trigger] old(self).hist@.push((time, data@))[j]).0 by {
                if j < old(self).hist@.len() {
                } else if i < old(self).hist@.len() {
                    assert(old(self).hist@[i].0 <= old(self).horizon());
                }
            }
        }
        self.queue.push(ChannelElement { time, data });
        proof {
            self.hist@ = self.hist@.push((time, self.queue@.last().data@));
        }
    }

    /// Removes and returns the next element, recording the receiver's clock
    /// after the receive: at least `now`, and at least the element's
    /// timestamp.
    pub fn dequeue(&mut self, now: u64) -> (r: (Value<S>, u64))
        requires
            old(self).wf(),
            old(self).queue@.len() > 0,
            now >= old(self).deq_last(),
        ensures
            final(self).wf(),
            r.0@ == old(self).hist@[old(self).taken()].1,
            r.1 == max_s(now, old(self).hist@[old(self).taken()].0),
            final(self).deq_times@ == old(self).deq_times@.push(r.1),
            final(self).queue@ == old(self).queue@.drop_first(),
            final(self).hist == old(self).hist,
            final(self).closed == old(self).closed,
            final(self).cap == old(self).cap,
            final(self).sender_tag == old(self).sender_tag,
            final(self).receiver_tag == old(self).receiver_tag,
            final(self).deq_last() == r.1,
            final(self).taken() == old(self).taken() + 1,
    {
        let e = self.queue.remove(0);
        let t = max64(now, e.time);
        self.deq_times.push(t);
        proof {
            assert(self.queue@ =~= old(self).queue@.drop_first());
        }
        (e.data, t)
    }
}

/// Every channel in a simulation is well formed.
pub open spec fn chans_wf<S>(chans: Seq<Channel<S>>) -> bool {
    forall|c: int| 0 <= c < chans.len() ==> (#[trigger] chans[c]).wf()
}

/// The sender-side coupling between a block and one of its output channels:
/// the channel records the block as its sender, and everything sent so far
/// was stamped no later than the block's clock plus its output latency.
pub open spec fn sends_ok<S>(ch: Channel<S>, bid: usize, clock: u64, latency: u64) -> bool {
    &&& ch.sender_tag == bid
    &&& ch.horizon() <= sat_add_s(clock, latency)
}

/// The receiver-side coupling between a block and one of its input
/// channels: the channel records the block as its receiver, and the block's
/// clock is at least the clock of its last dequeue.
pub open spec fn recvs_ok<S>(ch: Channel<S>, bid: usize, clock: u64) -> bool {
    &&& ch.receiver_tag == bid
    &&& ch.deq_last() <= clock
}

/// What one step of block `bid` may do to a channel: histories only grow,
/// closure is never retracted, wiring tags and capacity never change, and a
/// channel whose sender is another block keeps its history while one whose
/// receiver is another block keeps its dequeue record.
pub open spec fn chan_frame<S>(pre: Channel<S>, post: Channel<S>, bid: usize) -> bool {
    &&& post.cap == pre.cap
    &&& post.sender_tag == pre.sender_tag
    &&& post.receiver_tag == pre.receiver_tag
    &&& pre.hist@.is_prefix_of(post.hist@)
    &&& pre.deq_times@.is_prefix_of(post.deq_times@)
    &&& (pre.closed ==> post.closed)
    &&& (pre.closed ==> post.hist == pre.hist)
    &&& (pre.sender_tag != bid ==> post.hist == pre.hist && post.closed == pre.closed)
    &&& (pre.receiver_tag != bid ==> post.deq_times == pre.deq_times)
    &&& (pre.sender_tag != bid && pre.receiver_tag != bid ==> post == pre)
}

/// [`chan_frame`], lifted to the whole channel table.
pub open spec fn chans_frame<S>(pre: Seq<Channel<S>>, post: Seq<Channel<S>>, bid: usize) -> bool {
    &&& post.len() == pre.len()
    &&& (forall|c: int| 0 <= c < pre.len() ==> chan_frame(#[trigger] pre[c], #[trigger] post[c], bid))
}

/// The payload views of a recorded stream, in order.
pub open spec fn datas_of<S>(s: Seq<ChannelElement<S>>) -> Seq<Val<S>> {
    s.map_values(|e: ChannelElement<S>| e.data@)
}

/// The payload views a multi-input block sees on its `j`-th joint receive:
/// element `i` is the `j`-th value ever sent on the block's `i`-th input.
pub open spec fn in_vals_at<S>(chans: Seq<Channel<S>>, inputs: Seq<usize>, j: int) -> Seq<Val<S>> {
    Seq::new(inputs.len() as nat, |i: int| chans[inputs[i] as int].sent()[j])
}

/// Closes channel `c` of the table.
pub fn vec_close<S>(chans: &mut Vec<Channel<S>>, c: usize)
    requires
        c < old(chans)@.len(),
    ensures
        final(chans)@ == old(chans)@.update(
            c as int,
            (Channel { closed: true, ..old(chans)@[c as int] }),
        ),
        final(chans)@ == old(chans)@.update(c as int, final(chans)@[c as int]),
        final(chans)@[c as int] == (Channel { closed: true, ..old(chans)@[c as int] }),
        forall|k: int| 0 <= k < old(chans)@.len() && k != c ==> final(chans)@[k] == old(chans)@[k],
{
    let mut ch = chans.remove(c);
    ch.close();
    chans.insert(c, ch);
    proof {
        assert(chans@ =~= old(chans)@.update(
            c as int,
            (Channel { closed: true, ..old(chans)@[c as int] }),
        ));
        assert forall|k: int|
            0 <= k < old(chans)@.len() && k != c implies chans@[k] == old(chans)@[k] by {
            assert(old(chans)@.update(
                c as int,
                (Channel { closed: true, ..old(chans)@[c as int] }),
            )[k] == old(chans)@[k]);
        }
    }
}

/// An update at one index leaves every other index unchanged.
pub proof fn lemma_update_untouched<S>(pre: Seq<Channel<S>>, post: Seq<Channel<S>>, c: int, x: int)
    requires
        0 <= c < pre.len(),
        post == pre.update(c, post[c]),
        0 <= x < pre.len(),
        x != c,
    ensures
        post[x] == pre[x],
{
    assert(pre.update(c, post[c])[x] == pre[x]);
}

/// Appends an element to channel `c` of the table.
pub fn vec_enqueue<S>(chans: &mut Vec<Channel<S>>, c: usize, time: u64, data: Value<S>)
    requires
        c < old(chans)@.len(),
        old(chans)@[c as int].wf(),
        !old(chans)@[c as int].closed,
        old(chans)@[c as int].queue@.len() < old(chans)@[c as int].cap,
        time >= old(chans)@[c as int].horizon(),
    ensures
        final(chans)@.len() == old(chans)@.len(),
        final(chans)@ == old(chans)@.update(c as int, final(chans)@[c as int]),
        forall|k: int| 0 <= k < old(chans)@.len() && k != c ==> final(chans)@[k] == old(chans)@[k],
        final(chans)@[c as int].wf(),
        final(chans)@[c as int].hist@ == old(chans)@[c as int].hist@.push((time, data@)),
        final(chans)@[c as int].queue@ == old(chans)@[c as int].queue@.push(
            ChannelElement { time, data },
        ),
        final(chans)@[c as int].deq_times == old(chans)@[c as int].deq_times,
        final(chans)@[c as int].closed == old(chans)@[c as int].closed,
        final(chans)@[c as int].cap == old(chans)@[c as int].cap,
        final(chans)@[c as int].sender_tag == old(chans)@[c as int].sender_tag,
        final(chans)@[c as int].receiver_tag == old(chans)@[c as int].receiver_tag,
        final(chans)@[c as int].horizon() == time,
{
    let mut ch = chans.remove(c);
    ch.enqueue(time, data);
    chans.insert(c, ch);
    proof {
        assert(chans@ =~= old(chans)@.update(c as int, chans@[c as int]));
    }
}

/// Removes the next element of channel `c` of the table, advancing the
/// receiver clock from `now` to at least the element's timestamp.
pub fn vec_dequeue<S>(chans: &mut Vec<Channel<S>>, c: usize, now: u64) -> (r: (Value<S>, u64))
    requires
        c < old(chans)@.len(),
        old(chans)@[c as int].wf(),
        old(chans)@[c as int].queue@.len() > 0,
        now >= old(chans)@[c as int].deq_last(),
    ensures
        final(chans)@.len() == old(chans)@.len(),
        final(chans)@ == old(chans)@.update(c as int, final(chans)@[c as int]),
        forall|k: int| 0 <= k < old(chans)@.len() && k != c ==> final(chans)@[k] == old(chans)@[k],
        final(chans)@[c as int].wf(),
        r.0@ == old(chans)@[c as int].hist@[old(chans)@[c as int].taken()].1,
        r.1 == max_s(now, old(chans)@[c as int].hist@[old(chans)@[c as int].taken()].0),
        r.1 >= now,
        final(chans)@[c as int].deq_times@ == old(chans)@[c as int].deq_times@.push(r.1),
        final(chans)@[c as int].queue@ == old(chans)@[c as int].queue@.drop_first(),
        final(chans)@[c as int].hist == old(chans)@[c as int].hist,
        final(chans)@[c as int].closed == old(chans)@[c as int].closed,
        final(chans)@[c as int].cap == old(chans)@[c as int].cap,
        final(chans)@[c as int].sender_tag == old(chans)@[c as int].sender_tag,
        final(chans)@[c as int].receiver_tag == old(chans)@[c as int].receiver_tag,
        final(chans)@[c as int].deq_last() == r.1,
        final(chans)@[c as int].taken() == old(chans)@[c as int].taken() + 1,
{
    let mut ch = chans.remove(c);
    let r = ch.dequeue(now);
    chans.insert(c, ch);
    proof {
        assert(chans@ =~= old(chans)@.update(c as int, chans@[c as int]));
    }
    r
}

/// A step that changes nothing satisfies the frame.
pub proof fn lemma_chans_frame_refl<S>(chans: Seq<Channel<S>>, bid: usize)
    ensures
        chans_frame(chans, chans, bid),
{
    assert forall|c: int| 0 <= c < chans.len() implies chan_frame(
        #[trigger] chans[c],
        #[trigger] chans[c],
        bid,
    ) by {
        assert(chans[c].hist@.is_prefix_of(chans[c].hist@));
        assert(chans[c].deq_times@.is_prefix_of(chans[c].deq_times@));
    }
}

/// Timestamps on one channel never decrease: any element sent later
/// carries a timestamp at least that of any element sent earlier.
pub proof fn lemma_timestamps_monotone<S>(ch: Channel<S>, i: int, j: int)
    requires
        ch.wf(),
        0 <= i <= j < ch.hist@.len(),
    ensures
        ch.times()[i] <= ch.times()[j],
{
    assert(ch.times()[i] == ch.hist@[i].0);
    assert(ch.times()[j] == ch.hist@[j].0);
}

/// A channel step frame composes.
pub proof fn lemma_chan_frame_trans<S>(a: Seq<Channel<S>>, b: Seq<Channel<S>>, c: Seq<Channel<S>>, bid: usize)
    requires
        chans_frame(a, b, bid),
        chans_frame(b, c, bid),
    ensures
        chans_frame(a, c, bid),
{
    assert forall|i: int| 0 <= i < a.len() implies chan_frame(#[trigger] a[i], #[trigger] c[i], bid) by {
        assert(chan_frame(a[i], b[i], bid));
        assert(chan_frame(b[i], c[i], bid));
        a[i].hist@.is_prefix_of(b[i].hist@);
        assert(a[i].hist@.len() <= b[i].hist@.len());
    }
}

} // verus!
