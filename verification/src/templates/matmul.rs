//! The matrix-multiply primitive.
//!
//! Computes `C = A · B` for `A: [M, K]` and `B: [K, N]`, one
//! multiply-accumulate per initiation interval, emitting each cell of `C`
//! stamped `tick() + dot_latency`.  The right stream always delivers the
//! `K` operands of every cell in turn (`B` transposed, repeated per row of
//! `A`).  Under the buffered behavior the left stream delivers each row of
//! `A` once, held in a local buffer for the row's `N` cells; under the
//! repeated behavior the left stream delivers the row again for every
//! cell, and each row costs `reset_time` dead cycles up front.  Batches
//! follow one another; exhaustion is a clean shutdown only at a batch
//! boundary.

use vstd::prelude::*;

use crate::channel::{
    chan_frame, chans_frame, chans_wf, max64, max_s, recvs_ok, sat_add, sat_add_s, sends_ok,
    Channel,
};
use crate::scalar::Scalar;
use crate::simulation::{SimError, StepOutcome};
use crate::templates::types::{Receiver, Sender};
use crate::value::{Val, Value};

verus! {

/// Timing of a matmul block.
#[derive(Clone, Copy, Debug)]
pub struct MatmulTiming {
    /// Cycles from a cell's last operand to the cell becoming visible.
    pub dot_latency: u64,
    /// Minimum cycle gap between consecutive multiply-accumulates.
    pub dot_ii: u64,
    /// Dead cycles at the start of each row under the repeated behavior.
    pub reset_time: u64,
}

/// The dimensions `A: [M, K] · B: [K, N]`.
#[derive(Clone, Copy, Debug)]
pub struct ShapeInfo {
    pub m: usize,
    pub n: usize,
    pub k: usize,
}

/// How the left stream delivers the rows of `A`.
#[derive(Clone, Copy, Debug, PartialEq, Eq, Structural)]
pub enum MatmulBehavior {
    /// Each row arrives once and is buffered for its `N` cells.
    Buffered,
    /// Each row arrives again for every cell.
    Repeated,
}

/// Whether `s` multiply-accumulate steps over the operand slices stay
/// representable: every operand is a scalar and no product or sum faults.
pub open spec fn mac_fold_ok<S: Scalar>(a: Seq<Val<S>>, b: Seq<Val<S>>, s: int) -> bool
    decreases s,
{
    s <= 0 || (mac_fold_ok(a, b, s - 1) && a[s - 1] is Num && b[s - 1] is Num && S::mul_ok(
        a[s - 1]->Num_0,
        b[s - 1]->Num_0,
    ) && S::add_ok(S::mul_s(a[s - 1]->Num_0, b[s - 1]->Num_0), mac_fold_s(a, b, s - 1)))
}

/// The accumulator after `s` multiply-accumulate steps over the operand
/// slices, starting from zero.  Meaningful where [`mac_fold_ok`] holds.
pub open spec fn mac_fold_s<S: Scalar>(a: Seq<Val<S>>, b: Seq<Val<S>>, s: int) -> S
    decreases s,
{
    if s <= 0 {
        S::zero_s()
    } else {
        S::add_s(S::mul_s(a[s - 1]->Num_0, b[s - 1]->Num_0), mac_fold_s(a, b, s - 1))
    }
}


/// A multiply-accumulate that stays representable for `s` steps stays
/// representable for any shorter run of steps.
pub proof fn lemma_mac_fold_ok_prefix<S: Scalar>(a: Seq<Val<S>>, b: Seq<Val<S>>, s: int, t: int)
    requires
        mac_fold_ok::<S>(a, b, s),
        0 <= t <= s,
    ensures
        mac_fold_ok::<S>(a, b, t),
    decreases s,
{
    if t < s {
        lemma_mac_fold_ok_prefix(a, b, s - 1, t);
    }
}

/// Two pairs of operand slices that agree on their first `s` positions
/// fold identically for `s` steps.
pub proof fn lemma_mac_fold_agree<S: Scalar>(
    a1: Seq<Val<S>>,
    b1: Seq<Val<S>>,
    a2: Seq<Val<S>>,
    b2: Seq<Val<S>>,
    s: int,
)
    requires
        forall|i: int| 0 <= i < s ==> a1[i] == a2[i] && b1[i] == b2[i],
    ensures
        mac_fold_ok::<S>(a1, b1, s) == mac_fold_ok::<S>(a2, b2, s),
        mac_fold_s::<S>(a1, b1, s) == mac_fold_s::<S>(a2, b2, s),
    decreases s,
{
    if s > 0 {
        lemma_mac_fold_agree(a1, b1, a2, b2, s - 1);
    }
}


/// Re-establishes the block invariant after a cell is finished and
/// emitted: the counters have advanced (with their wraps), the new cell's
/// value is the `K`-step fold of its operand slices, and every older cell
/// is untouched.
#[verifier::rlimit(100)]
proof fn lemma_emit_rebuild<S: Scalar>(
    s0: Matmul<S>,
    b: Matmul<S>,
    pre: Seq<Channel<S>>,
    post: Seq<Channel<S>>,
    lv: S,
    rb: S,
    na: S,
    stamp: u64,
    need_left: bool,
)
    requires
        s0.wf(pre),
        chans_wf(pre),
        chans_wf(post),
        post.len() == pre.len(),
        b.id == s0.id && b.timing == s0.timing && b.behavior == s0.behavior && b.shape == s0.shape
            && b.left == s0.left && b.right == s0.right && b.output == s0.output,
        !s0.done && !b.done,
        b.kk == 0,
        s0.kk + 1 == s0.shape.k,
        b.accum == S::zero_s(),
        need_left == (match s0.behavior {
            MatmulBehavior::Buffered => s0.ni == 0,
            MatmulBehavior::Repeated => true,
        }),
        (s0.ni + 1 < s0.shape.n) ==> (b.ni == s0.ni + 1 && b.mi == s0.mi && b.batches
            == s0.batches),
        (s0.ni + 1 == s0.shape.n && s0.mi + 1 < s0.shape.m) ==> (b.ni == 0 && b.mi == s0.mi + 1
            && b.batches == s0.batches),
        (s0.ni + 1 == s0.shape.n && s0.mi + 1 == s0.shape.m) ==> (b.ni == 0 && b.mi == 0
            && b.batches == s0.batches + 1),
        b.ni < b.shape.n && b.mi < b.shape.m,
        (match s0.behavior {
            MatmulBehavior::Buffered => {
                &&& ((s0.ni + 1 == s0.shape.n) ==> b.buffer@.len() == 0)
                &&& ((s0.ni + 1 < s0.shape.n && s0.ni == 0) ==> b.buffer@ == s0.buffer@.push(lv))
                &&& ((s0.ni + 1 < s0.shape.n && s0.ni != 0) ==> b.buffer@ == s0.buffer@)
            },
            MatmulBehavior::Repeated => b.buffer@.len() == 0,
        }),
        post[s0.left as int].hist@ == pre[s0.left as int].hist@,
        post[s0.right as int].hist@ == pre[s0.right as int].hist@,
        post[s0.output as int].hist@ == pre[s0.output as int].hist@.push(
            (stamp, Val::Num(na)),
        ),
        post[s0.left as int].taken() == pre[s0.left as int].taken() + (if need_left {
            1int
        } else {
            0int
        }),
        post[s0.right as int].taken() == pre[s0.right as int].taken() + 1,
        post[s0.left as int].sender_tag == pre[s0.left as int].sender_tag,
        post[s0.right as int].sender_tag == pre[s0.right as int].sender_tag,
        post[s0.output as int].receiver_tag == pre[s0.output as int].receiver_tag,
        recvs_ok(post[s0.left as int], s0.id, b.clock),
        recvs_ok(post[s0.right as int], s0.id, b.clock),
        sends_ok(post[s0.output as int], s0.id, b.clock, s0.timing.dot_latency),
        post[s0.output as int].closed == false,
        Val::Num(lv) == pre[s0.left as int].sent()[(match s0.behavior {
            MatmulBehavior::Buffered => s0.row() * (s0.shape.k as int),
            MatmulBehavior::Repeated => s0.cells(pre) * (s0.shape.k as int),
        }) + s0.kk],
        Val::Num(rb) == pre[s0.right as int].sent()[pre[s0.right as int].taken()],
        S::mul_ok(lv, rb),
        S::add_ok(S::mul_s(lv, rb), s0.accum),
        na == S::add_s(S::mul_s(lv, rb), s0.accum),
    ensures
        b.wf(post),
{
    let kd_i = s0.shape.k as int;
    let nd_i = s0.shape.n as int;
    let md_i = s0.shape.m as int;
    let cl = s0.left;
    let cr = s0.right;
    let co = s0.output;
    let cells0 = s0.cells(pre);
    let lt0 = pre[cl as int].taken();
    let rt0 = pre[cr as int].taken();
                let lbase: int = match s0.behavior {
                    MatmulBehavior::Buffered => s0.row() * kd_i,
                    MatmulBehavior::Repeated => cells0 * kd_i,
                };
                assert(post[co as int].hist@ == pre[co as int].hist@.push(
                    (stamp, Val::Num(na)),
                ));
                assert(post[co as int].sent() =~= pre[co as int].sent().push(Val::Num(na)));
                assert(b.cells(post) == cells0 + 1);
                assert(post[cl as int].hist@ == pre[cl as int].hist@);
                assert(post[cr as int].hist@ == pre[cr as int].hist@);
                assert(post[cr as int].taken() == rt0 + 1);
                assert(post[cl as int].taken() == lt0 + (if need_left {
                    1int
                } else {
                    0int
                }));
                assert(rt0 + 1 == (cells0 + 1) * kd_i) by (nonlinear_arith)
                    requires
                        rt0 == cells0 * kd_i + s0.kk,
                        s0.kk + 1 == kd_i,
                ;
                // The finished cell's operands and fold.
                let la = pre[cl as int].sent().subrange(lbase, lbase + kd_i);
                let ra = pre[cr as int].sent().subrange(cells0 * kd_i, cells0 * kd_i + kd_i);
                assert(la[s0.kk as int] == Val::Num(lv));
                assert(ra[s0.kk as int] == Val::Num(rb));
                lemma_mac_fold_agree(la, ra, s0.lpart(pre), s0.rpart(pre), s0.kk as int);
                assert(mac_fold_ok(la, ra, kd_i));
                assert(na == mac_fold_s(la, ra, kd_i));
                // The new cell's slices are exactly those operands.
                vstd::arithmetic::div_mod::lemma_fundamental_div_mod_converse_div(
                    cells0,
                    nd_i,
                    s0.batches * md_i + s0.mi,
                    s0.ni as int,
                );
                assert(cells0 / nd_i == s0.batches * md_i + s0.mi);
                assert(b.lslice(post, cells0) =~= la) by {
                    match s0.behavior {
                        MatmulBehavior::Buffered => {
                            assert(cells0 / nd_i == s0.row());
                        },
                        MatmulBehavior::Repeated => {},
                    }
                }
                assert(b.rslice(post, cells0) =~= ra);
                lemma_mac_fold_agree(b.lslice(post, cells0), b.rslice(post, cells0), la, ra, kd_i);
                // The counter identities after the wraps.
                assert(b.cells(post) == (b.batches * md_i + b.mi) * nd_i + b.ni) by (
                nonlinear_arith)
                    requires
                        b.cells(post) == cells0 + 1,
                        cells0 == (s0.batches * md_i + s0.mi) * nd_i + s0.ni,
                        md_i >= 1,
                        nd_i >= 1,
                        s0.ni < nd_i,
                        s0.mi < md_i,
                        (s0.ni + 1 < nd_i) ==> (b.ni == s0.ni + 1 && b.mi == s0.mi && b.batches
                            == s0.batches),
                        (s0.ni + 1 == nd_i && s0.mi + 1 < md_i) ==> (b.ni == 0 && b.mi == s0.mi + 1
                            && b.batches == s0.batches),
                        (s0.ni + 1 == nd_i && s0.mi + 1 == md_i) ==> (b.ni == 0 && b.mi == 0
                            && b.batches == s0.batches + 1),
                ;
                assert(post[cr as int].taken() == b.cells(post) * kd_i + b.kk) by (nonlinear_arith)
                    requires
                        post[cr as int].taken() == (cells0 + 1) * kd_i,
                        b.cells(post) == cells0 + 1,
                        b.kk == 0,
                ;
                assert(match b.behavior {
                    MatmulBehavior::Buffered => post[cl as int].taken() == b.row() * kd_i + (
                    if b.ni == 0 {
                        b.kk as int
                    } else {
                        kd_i
                    }),
                    MatmulBehavior::Repeated => post[cl as int].taken() == post[cr as int].taken(),
                }) by (nonlinear_arith)
                    requires
                        b.behavior == s0.behavior,
                        b.kk == 0,
                        s0.kk + 1 == kd_i,
                        md_i >= 1,
                        nd_i >= 1,
                        kd_i >= 1,
                        s0.ni < nd_i,
                        s0.mi < md_i,
                        (s0.behavior is Buffered) ==> post[cl as int].taken() == s0.row() * kd_i + (
                        if s0.ni == 0 {
                            s0.kk + 1
                        } else {
                            kd_i
                        }),
                        (s0.behavior is Repeated) ==> post[cl as int].taken() == post[cr as int].taken(),
                        b.row() == b.batches * md_i + b.mi,
                        s0.row() == s0.batches * md_i + s0.mi,
                        (s0.ni + 1 < nd_i) ==> (b.ni == s0.ni + 1 && b.mi == s0.mi && b.batches
                            == s0.batches),
                        (s0.ni + 1 == nd_i && s0.mi + 1 < md_i) ==> (b.ni == 0 && b.mi == s0.mi + 1
                            && b.batches == s0.batches),
                        (s0.ni + 1 == nd_i && s0.mi + 1 == md_i) ==> (b.ni == 0 && b.mi == 0
                            && b.batches == s0.batches + 1),
                ;
                // The empty new prefixes.
                assert(b.lpart(post) =~= Seq::<Val<S>>::empty());
                assert(b.rpart(post) =~= Seq::<Val<S>>::empty());
                assert(b.accum == mac_fold_s(b.lpart(post), b.rpart(post), 0));
                // The buffer after the wraps.
                assert forall|x: int|
                    0 <= x < b.buffer@.len() implies Val::Num(#[trigger] b.buffer@[x])
                    == post[cl as int].sent()[b.row() * kd_i + x] by {
                    if x < s0.buffer@.len() {
                        assert(Val::Num(s0.buffer@[x]) == pre[cl as int].sent()[s0.row() * kd_i
                            + x]);
                    }
                }
                // Old cells and the new one.
                assert forall|j: int| 0 <= j < b.cells(post) implies #[trigger] b.cell_ok(
                    post,
                    j,
                ) by {
                    if j < cells0 {
                        assert(s0.cell_ok(pre, j));
                        assert(b.lslice(post, j) =~= s0.lslice(pre, j));
                        assert(b.rslice(post, j) =~= s0.rslice(pre, j));
                        assert(post[co as int].sent()[j] == pre[co as int].sent()[j]);
                    } else {
                        assert(j == cells0);
                        assert(post[co as int].sent()[j] == Val::Num(na));
                        assert((cells0 + 1) * kd_i <= post[cr as int].taken());
                        assert(0 <= cells0 * kd_i) by (nonlinear_arith)
                            requires
                                cells0 >= 0,
                                kd_i >= 1,
                        ;
                    }
                }
}

/// Extracts a scalar payload, or reports that the payload has another
/// shape.
fn as_num<S: Scalar>(v: Value<S>) -> (r: Option<S>)
    ensures
        match r {
            Some(a) => v@ == Val::Num(a),
            None => !(v@ is Num),
        },
{
    match v {
        Value::Num(a) => Some(a),
        Value::Run(_) => None,
        Value::Vect(_) => None,
        Value::Pair(_, _) => None,
    }
}

/// A matmul block.
pub struct Matmul<S> {
    /// Index of this block in the simulation; set when it is added.
    pub id: usize,
    /// Timing configuration.
    pub timing: MatmulTiming,
    /// The left stream's delivery pattern.
    pub behavior: MatmulBehavior,
    /// The dimensions.
    pub shape: ShapeInfo,
    /// Left input channel index (operands of `A`).
    pub left: usize,
    /// Right input channel index (operands of `B`, transposed and
    /// repeated).
    pub right: usize,
    /// Output channel index.
    pub output: usize,
    /// The block's local clock.
    pub clock: u64,
    /// Row within the current batch.
    pub mi: usize,
    /// Column within the current row.
    pub ni: usize,
    /// Multiply-accumulate step within the current cell.
    pub kk: usize,
    /// Batches completed.
    pub batches: usize,
    /// The buffered row of `A` under the buffered behavior.
    pub buffer: Vec<S>,
    /// The accumulator of the current cell.
    pub accum: S,
    /// Whether the block has shut down cleanly.
    pub done: bool,
}

impl<S: Scalar> Matmul<S> {
    /// Creates a matmul block over the given endpoints.
    pub fn new(
        timing: MatmulTiming,
        behavior: MatmulBehavior,
        shape: ShapeInfo,
        left: Receiver,
        right: Receiver,
        output: Sender,
    ) -> (r: Self)
        ensures
            r.id == 0,
            r.timing == timing,
            r.behavior == behavior,
            r.shape == shape,
            r.left == left.id,
            r.right == right.id,
            r.output == output.id,
            r.clock == 0,
            r.mi == 0 && r.ni == 0 && r.kk == 0 && r.batches == 0,
            r.buffer@.len() == 0,
            r.accum == S::zero_s(),
            !r.done,
    {
        Matmul {
            id: 0,
            timing,
            behavior,
            shape,
            left: left.id,
            right: right.id,
            output: output.id,
            clock: 0,
            mi: 0,
            ni: 0,
            kk: 0,
            batches: 0,
            buffer: Vec::new(),
            accum: S::zero(),
            done: false,
        }
    }

    /// The number of cells emitted so far.
    pub open spec fn cells(self, chans: Seq<Channel<S>>) -> int {
        chans[self.output as int].sent().len() as int
    }

    /// The global index of the current row of `A`.
    pub open spec fn row(self) -> int {
        self.batches * self.shape.m + self.mi
    }

    /// The left-stream slice carrying the operands of cell `j`.
    pub open spec fn lslice(self, chans: Seq<Channel<S>>, j: int) -> Seq<Val<S>> {
        let kd = self.shape.k as int;
        let nd = self.shape.n as int;
        match self.behavior {
            MatmulBehavior::Buffered => chans[self.left as int].sent().subrange(
                (j / nd) * kd,
                (j / nd) * kd + kd,
            ),
            MatmulBehavior::Repeated => chans[self.left as int].sent().subrange(j * kd, j * kd + kd),
        }
    }

    /// The right-stream slice carrying the operands of cell `j`.
    pub open spec fn rslice(self, chans: Seq<Channel<S>>, j: int) -> Seq<Val<S>> {
        let kd = self.shape.k as int;
        chans[self.right as int].sent().subrange(j * kd, j * kd + kd)
    }

    /// Cell `j` of the output is the `K`-step multiply-accumulate of its
    /// operand slices, and those slices lie within the consumed prefixes.
    pub open spec fn cell_ok(self, chans: Seq<Channel<S>>, j: int) -> bool {
        let kd = self.shape.k as int;
        let nd = self.shape.n as int;
        &&& (j + 1) * kd <= chans[self.right as int].taken()
        &&& (match self.behavior {
            MatmulBehavior::Buffered => (j / nd) * kd + kd <= chans[self.left as int].taken(),
            MatmulBehavior::Repeated => (j + 1) * kd <= chans[self.left as int].taken(),
        })
        &&& 0 <= j * kd
        &&& (match self.behavior {
            MatmulBehavior::Buffered => 0 <= (j / nd) * kd,
            MatmulBehavior::Repeated => true,
        })
        &&& mac_fold_ok(self.lslice(chans, j), self.rslice(chans, j), kd)
        &&& chans[self.output as int].sent()[j] == Val::Num(
            mac_fold_s(self.lslice(chans, j), self.rslice(chans, j), kd),
        )
    }

    /// The left-stream prefix of the current, unfinished cell.
    pub open spec fn lpart(self, chans: Seq<Channel<S>>) -> Seq<Val<S>> {
        let kd = self.shape.k as int;
        match self.behavior {
            MatmulBehavior::Buffered => chans[self.left as int].sent().subrange(
                self.row() * kd,
                self.row() * kd + self.kk,
            ),
            MatmulBehavior::Repeated => chans[self.left as int].sent().subrange(
                self.cells(chans) * kd,
                self.cells(chans) * kd + self.kk,
            ),
        }
    }

    /// The right-stream prefix of the current, unfinished cell.
    pub open spec fn rpart(self, chans: Seq<Channel<S>>) -> Seq<Val<S>> {
        let kd = self.shape.k as int;
        chans[self.right as int].sent().subrange(
            self.cells(chans) * kd,
            self.cells(chans) * kd + self.kk,
        )
    }

    /// The left-stream index of the current cell's first operand.
    pub open spec fn lbase(self, chans: Seq<Channel<S>>) -> int {
        let kd = self.shape.k as int;
        match self.behavior {
            MatmulBehavior::Buffered => self.row() * kd,
            MatmulBehavior::Repeated => self.cells(chans) * kd,
        }
    }

    /// The current cell's multiply-accumulate, extended by its next pair of
    /// operands, faults: the shapes do not match or the arithmetic
    /// overflows.  This is exactly the condition under which a step raises
    /// a payload fault.
    pub open spec fn mac_step_fails(self, chans: Seq<Channel<S>>) -> bool {
        let kd = self.shape.k as int;
        let lb = self.lbase(chans);
        let rb = self.cells(chans) * kd;
        !mac_fold_ok(
            chans[self.left as int].sent().subrange(lb, lb + self.kk + 1),
            chans[self.right as int].sent().subrange(rb, rb + self.kk + 1),
            self.kk + 1,
        )
    }

    /// The block's invariant against the channel table.
    pub open spec fn wf(self, chans: Seq<Channel<S>>) -> bool {
        let kd = self.shape.k as int;
        let nd = self.shape.n as int;
        let md = self.shape.m as int;
        let cl = self.left as int;
        let cr = self.right as int;
        let co = self.output as int;
        &&& self.shape.m >= 1 && self.shape.n >= 1 && self.shape.k >= 1
        &&& self.left != self.right
        &&& cl < chans.len() && cr < chans.len() && co < chans.len()
        &&& recvs_ok(chans[cl], self.id, self.clock)
        &&& recvs_ok(chans[cr], self.id, self.clock)
        &&& chans[cl].sender_tag != self.id
        &&& chans[cr].sender_tag != self.id
        &&& sends_ok(chans[co], self.id, self.clock, self.timing.dot_latency)
        &&& chans[co].receiver_tag != self.id
        &&& chans[co].closed == self.done
        &&& self.kk < self.shape.k
        &&& self.ni < self.shape.n
        &&& self.mi < self.shape.m
        &&& self.cells(chans) == (self.batches * md + self.mi) * nd + self.ni
        &&& chans[cr].taken() == self.cells(chans) * kd + self.kk
        &&& (match self.behavior {
            MatmulBehavior::Buffered => chans[cl].taken() == self.row() * kd + (if self.ni == 0 {
                self.kk as int
            } else {
                kd
            }),
            MatmulBehavior::Repeated => chans[cl].taken() == chans[cr].taken(),
        })
        &&& (match self.behavior {
            MatmulBehavior::Buffered => {
                &&& self.buffer@.len() == (if self.ni == 0 {
                    self.kk as int
                } else {
                    kd
                })
                &&& (forall|x: int|
                    0 <= x < self.buffer@.len() ==> Val::Num(#[trigger] self.buffer@[x])
                        == chans[cl].sent()[self.row() * kd + x])
            },
            MatmulBehavior::Repeated => self.buffer@.len() == 0,
        })
        &&& mac_fold_ok(self.lpart(chans), self.rpart(chans), self.kk as int)
        &&& self.accum == mac_fold_s(self.lpart(chans), self.rpart(chans), self.kk as int)
        &&& (forall|j: int| 0 <= j < self.cells(chans) ==> #[trigger] self.cell_ok(chans, j))
        &&& (self.done ==> self.kk == 0 && self.ni == 0 && self.mi == 0 && (chans[cl].spec_exhausted()
            || chans[cr].spec_exhausted()))
    }

    /// A step by another block leaves this block's invariant intact.
    pub proof fn lemma_wf_frame(self, pre: Seq<Channel<S>>, post: Seq<Channel<S>>, who: usize)
        requires
            self.wf(pre),
            chans_wf(pre),
            chans_wf(post),
            chans_frame(pre, post, who),
            who != self.id,
        ensures
            self.wf(post),
    {
        let kd = self.shape.k as int;
        let cl = self.left as int;
        let cr = self.right as int;
        let co = self.output as int;
        assert(chan_frame(pre[cl], post[cl], who));
        assert(chan_frame(pre[cr], post[cr], who));
        assert(chan_frame(pre[co], post[co], who));
        assert(post[cl].deq_times == pre[cl].deq_times);
        assert(post[cr].deq_times == pre[cr].deq_times);
        assert(post[co].hist == pre[co].hist);
        assert(pre[cl].wf());
        assert(pre[cr].wf());
        assert(pre[cl].taken() <= pre[cl].hist@.len());
        assert(pre[cr].taken() <= pre[cr].hist@.len());
        assert(pre[cl].hist@.is_prefix_of(post[cl].hist@));
        assert(pre[cr].hist@.is_prefix_of(post[cr].hist@));
        assert forall|x: int| 0 <= x < pre[cl].taken() implies post[cl].sent()[x]
            == pre[cl].sent()[x] by {
            assert(post[cl].hist@[x] == pre[cl].hist@[x]);
        }
        assert forall|x: int| 0 <= x < pre[cr].taken() implies post[cr].sent()[x]
            == pre[cr].sent()[x] by {
            assert(post[cr].hist@[x] == pre[cr].hist@[x]);
        }
        assert(self.cells(post) == self.cells(pre));
        assert forall|x: int|
            0 <= x < self.buffer@.len() implies Val::Num(#[trigger] self.buffer@[x])
            == post[cl].sent()[self.row() * kd + x] by {
            assert(Val::Num(self.buffer@[x]) == pre[cl].sent()[self.row() * kd + x]);
        }
        assert(self.lpart(post) =~= self.lpart(pre));
        assert(self.rpart(post) =~= self.rpart(pre));
        assert forall|j: int| 0 <= j < self.cells(post) implies #[trigger] self.cell_ok(
            post,
            j,
        ) by {
            assert(self.cell_ok(pre, j));
            assert((j + 1) * kd == j * kd + kd) by (nonlinear_arith);
            let nd = self.shape.n as int;
            let lbase: int = match self.behavior {
                MatmulBehavior::Buffered => (j / nd) * kd,
                MatmulBehavior::Repeated => j * kd,
            };
            assert forall|x: int| lbase <= x < lbase + kd implies post[cl].sent()[x]
                == pre[cl].sent()[x] by {
                assert(post[cl].hist@[x] == pre[cl].hist@[x]);
            }
            assert forall|x: int| j * kd <= x < j * kd + kd implies post[cr].sent()[x]
                == pre[cr].sent()[x] by {
                assert(post[cr].hist@[x] == pre[cr].hist@[x]);
            }
            assert(self.lslice(post, j) =~= self.lslice(pre, j));
            assert(self.rslice(post, j) =~= self.rslice(pre, j));
            assert(post[co].sent()[j] == pre[co].sent()[j]);
        }
        if self.done {
            if pre[cl].spec_exhausted() {
                assert(post[cl].hist@ == pre[cl].hist@);
                assert(post[cl].wf());
                assert(post[cl].queue@.len() == 0);
            } else {
                assert(pre[cr].spec_exhausted());
                assert(post[cr].hist@ == pre[cr].hist@);
                assert(post[cr].wf());
                assert(post[cr].queue@.len() == 0);
            }
        }
    }

    /// One scheduling step.
    ///
    /// Consumes the operands of one multiply-accumulate (the left one from
    /// the stream or the row buffer, as the behavior dictates), folds them
    /// into the accumulator, and emits the finished cell stamped
    /// `tick() + dot_latency`.  Exhaustion at a batch boundary closes the
    /// output and finishes; anywhere else it is a protocol violation.
    #[verifier::rlimit(100)]
    pub fn step(self, table: Vec<Channel<S>>) -> (r: (Self, Vec<Channel<S>>, StepOutcome))
        requires
            chans_wf(table@),
            self.wf(table@),
        ensures
            chans_wf(r.1@),
            chans_frame(table@, r.1@, self.id),
            r.0.id == self.id,
            r.0.timing == self.timing,
            r.0.behavior == self.behavior,
            r.0.shape == self.shape,
            r.0.left == self.left,
            r.0.right == self.right,
            r.0.output == self.output,
            r.0.clock >= self.clock,
            !(r.2 is Fault) ==> r.0.wf(r.1@),
            r.2 is Blocked ==> r.0 == self && r.1@ == table@,
            r.2 is Blocked ==> self.done || (table@[self.right as int].queue@.len() == 0
                && !table@[self.right as int].closed) || (table@[self.left as int].queue@.len() == 0
                && !table@[self.left as int].closed) || (self.kk + 1 == self.shape.k
                && table@[self.output as int].queue@.len() >= table@[self.output as int].cap),
            r.2 is Finished ==> r.0.done && !self.done,
            r.2 is Progress ==> !r.0.done,
            r.2 matches StepOutcome::Fault(e) ==> (e == SimError::ProtocolViolation || e
                == SimError::BadPayload),
            r.2 == StepOutcome::Fault(SimError::ProtocolViolation) ==> (
            table@[self.right as int].spec_exhausted() || ((match self.behavior {
                MatmulBehavior::Buffered => self.ni == 0,
                MatmulBehavior::Repeated => true,
            }) && table@[self.left as int].spec_exhausted())) && !(self.mi == 0 && self.ni == 0
                && self.kk == 0),
            r.2 is Progress ==> r.1@[self.right as int].taken() == table@[self.right as int].taken()
                + 1,
            r.2 is Finished ==> r.1@[self.right as int].taken()
                == table@[self.right as int].taken() && r.1@[self.left as int].taken()
                == table@[self.left as int].taken(),
            r.2 == StepOutcome::Fault(SimError::BadPayload) ==> table@[self.right as int].sent().len()
                > table@[self.right as int].taken() && table@[self.left as int].sent().len()
                > self.lbase(table@) + self.kk && self.mac_step_fails(table@),
            r.2 is Progress ==> r.0.clock >= sat_add_s(
                max_s(
                    if self.behavior is Repeated && self.ni == 0 && self.kk == 0 {
                        sat_add_s(self.clock, self.timing.reset_time)
                    } else {
                        self.clock
                    },
                    table@[self.right as int].hist@[table@[self.right as int].taken()].0,
                ),
                self.timing.dot_ii,
            ),
            r.2 is Progress && self.kk + 1 == self.shape.k ==> r.1@[self.output as int].hist@.len()
                == table@[self.output as int].hist@.len() + 1
                && r.1@[self.output as int].hist@.last().0 == sat_add_s(
                r.0.clock,
                self.timing.dot_latency,
            ),
            r.2 is Progress && self.kk + 1 < self.shape.k ==> r.1@[self.output as int].hist@
                == table@[self.output as int].hist@,
            self.done ==> r.2 is Blocked,
    {
        let ghost pre = table@;
        let ghost s0 = self;
        let mut b = self;
        let mut chans = table;
        proof {
            crate::channel::lemma_chans_frame_refl(pre, s0.id);
        }
        if b.done {
            return (b, chans, StepOutcome::Blocked);
        }
        let cl = b.left;
        let cr = b.right;
        let co = b.output;
        let kd = b.shape.k;
        let nd = b.shape.n;
        let md = b.shape.m;
        let need_left = match b.behavior {
            MatmulBehavior::Buffered => b.ni == 0,
            MatmulBehavior::Repeated => true,
        };
        let boundary = b.mi == 0 && b.ni == 0 && b.kk == 0;

        if chans[cr].queued() == 0 || (need_left && chans[cl].queued() == 0) {
            let r_exh = chans[cr].is_exhausted();
            let l_exh = chans[cl].is_exhausted();
            let blocked_side = (chans[cr].queued() == 0 && !r_exh) || (need_left && chans[cl].queued()
                == 0 && !l_exh);
            if blocked_side {
                return (b, chans, StepOutcome::Blocked);
            }
            if !boundary {
                return (b, chans, StepOutcome::Fault(SimError::ProtocolViolation));
            }
            // Clean shutdown at a batch boundary.
            let ghost snap = chans@;
            crate::channel::vec_close(&mut chans, co);
            b.done = true;
            proof {
                assert(chans@ == snap.update(
                    co as int,
                    (Channel { closed: true, ..snap[co as int] }),
                ));
                crate::channel::lemma_update_untouched(snap, chans@, co as int, cl as int);
                crate::channel::lemma_update_untouched(snap, chans@, co as int, cr as int);
                assert forall|c2: int| 0 <= c2 < chans@.len() implies (
                #[trigger] chans@[c2]).wf() by {
                    if c2 != co as int {
                        crate::channel::lemma_update_untouched(snap, chans@, co as int, c2);
                    } else {
                        assert(chans@[c2].hist == snap[c2].hist && chans@[c2].queue == snap[c2].queue
                            && chans@[c2].deq_times == snap[c2].deq_times && chans@[c2].cap
                            == snap[c2].cap);
                    }
                    assert(snap[c2].wf());
                }
                assert forall|c2: int| 0 <= c2 < pre.len() implies chan_frame(
                    #[trigger] pre[c2],
                    #[trigger] chans@[c2],
                    b.id,
                ) by {
                    assert(pre[c2].hist@.is_prefix_of(pre[c2].hist@));
                    assert(pre[c2].deq_times@.is_prefix_of(pre[c2].deq_times@));
                    if c2 != co as int {
                        crate::channel::lemma_update_untouched(snap, chans@, co as int, c2);
                    }
                }
                let post = chans@;
                assert(b.cells(post) == s0.cells(pre));
                assert(b.lpart(post) =~= s0.lpart(pre));
                assert(b.rpart(post) =~= s0.rpart(pre));
                assert forall|j: int| 0 <= j < b.cells(post) implies #[trigger] b.cell_ok(
                    post,
                    j,
                ) by {
                    assert(s0.cell_ok(pre, j));
                    assert(b.lslice(post, j) =~= s0.lslice(pre, j));
                    assert(b.rslice(post, j) =~= s0.rslice(pre, j));
                }
            }
            return (b, chans, StepOutcome::Finished);
        }

        // The cell's last operand also needs room for the emission.
        if b.kk + 1 == kd {
            if !chans[co].has_space() {
                return (b, chans, StepOutcome::Blocked);
            }
        }

        let repeated_row_start = match b.behavior {
            MatmulBehavior::Repeated => b.ni == 0 && b.kk == 0,
            MatmulBehavior::Buffered => false,
        };
        if repeated_row_start {
            b.clock = sat_add(b.clock, b.timing.reset_time);
        }

        let ghost lt0 = pre[cl as int].taken();
        let ghost rt0 = pre[cr as int].taken();
        let ghost cells0 = s0.cells(pre);
        let ghost kd_i = kd as int;
        let ghost nd_i = nd as int;
        let ghost md_i = md as int;
        let ghost base0: u64 = if repeated_row_start {
            sat_add_s(s0.clock, s0.timing.reset_time)
        } else {
            s0.clock
        };
        let ghost rtime = pre[cr as int].hist@[rt0].0;
        let ghost lb = s0.lbase(pre);
        let ghost la_ext = pre[cl as int].sent().subrange(lb, lb + s0.kk + 1);
        let ghost ra_ext = pre[cr as int].sent().subrange(
            cells0 * kd_i,
            cells0 * kd_i + s0.kk + 1,
        );
        proof {
            assert(b.clock == base0);
            assert(pre[cr as int].sent().len() > rt0);
            assert(rt0 == cells0 * kd_i + s0.kk);
            assert(pre[cl as int].sent().len() > lb + s0.kk) by {
                match s0.behavior {
                    MatmulBehavior::Buffered => {
                        if s0.ni == 0 {
                            assert(lt0 == lb + s0.kk);
                            assert(pre[cl as int].queue@.len() > 0);
                        } else {
                            assert(lt0 == lb + kd_i);
                        }
                    },
                    MatmulBehavior::Repeated => {
                        assert(lt0 == lb + s0.kk);
                        assert(pre[cl as int].queue@.len() > 0);
                    },
                }
            }
            assert(ra_ext[s0.kk as int] == pre[cr as int].sent()[rt0]);
        }

        // The left operand: from the stream, or from the row buffer.
        let ghost snapl = chans@;
        let lv: S;
        if need_left {
            let (v, t2) = crate::channel::vec_dequeue(&mut chans, cl, b.clock);
            b.clock = t2;
            let ghost vv = v@;
            proof {
                assert forall|c2: int| 0 <= c2 < chans@.len() implies (
                #[trigger] chans@[c2]).wf() by {
                    if c2 != cl as int {
                        crate::channel::lemma_update_untouched(snapl, chans@, cl as int, c2);
                    }
                    assert(snapl[c2].wf());
                }
                assert forall|c2: int| 0 <= c2 < pre.len() implies chan_frame(
                    #[trigger] pre[c2],
                    #[trigger] chans@[c2],
                    b.id,
                ) by {
                    assert(pre[c2].hist@.is_prefix_of(pre[c2].hist@));
                    assert(pre[c2].deq_times@.is_prefix_of(pre[c2].deq_times@));
                    if c2 != cl as int {
                        crate::channel::lemma_update_untouched(snapl, chans@, cl as int, c2);
                    }
                }
                assert(vv == pre[cl as int].sent()[lt0]);
                assert(lt0 == lb + s0.kk) by {
                    match s0.behavior {
                        MatmulBehavior::Buffered => {
                            assert(s0.ni == 0);
                        },
                        MatmulBehavior::Repeated => {},
                    }
                }
                assert(la_ext[s0.kk as int] == vv);
            }
            match as_num(v) {
                Some(a) => {
                    lv = a;
                    match b.behavior {
                        MatmulBehavior::Buffered => {
                            b.buffer.push(a);
                        },
                        MatmulBehavior::Repeated => {},
                    }
                },
                None => {
                    proof {
                        assert(s0.mac_step_fails(pre)) by {
                            if mac_fold_ok(la_ext, ra_ext, s0.kk + 1) {
                                assert(la_ext[s0.kk as int] is Num);
                            }
                        }
                    }
                    return (b, chans, StepOutcome::Fault(SimError::BadPayload));
                },
            }
        } else {
            proof {
                assert(b.buffer@.len() == kd_i);
                assert(Val::Num(b.buffer@[b.kk as int]) == pre[cl as int].sent()[s0.row() * kd_i
                    + b.kk]);
            }
            lv = b.buffer[b.kk];
        }

        proof {
            assert(la_ext[s0.kk as int] == Val::Num(lv));
        }
        // The right operand.
        let ghost snapr = chans@;
        let (rv, t3) = crate::channel::vec_dequeue(&mut chans, cr, b.clock);
        b.clock = t3;
        let ghost rvv = rv@;
        proof {
            assert forall|c2: int| 0 <= c2 < chans@.len() implies (#[trigger] chans@[c2]).wf() by {
                if c2 != cr as int {
                    crate::channel::lemma_update_untouched(snapr, chans@, cr as int, c2);
                }
                assert(snapr[c2].wf());
            }
            assert forall|c2: int| 0 <= c2 < pre.len() implies chan_frame(
                #[trigger] pre[c2],
                #[trigger] chans@[c2],
                b.id,
            ) by {
                assert(chan_frame(pre[c2], snapr[c2], b.id));
                if c2 != cr as int {
                    crate::channel::lemma_update_untouched(snapr, chans@, cr as int, c2);
                } else {
                    assert(pre[c2].hist@.is_prefix_of(chans@[c2].hist@));
                    assert(pre[c2].deq_times@.is_prefix_of(chans@[c2].deq_times@));
                }
            }
            assert(rv@ == pre[cr as int].sent()[rt0]);
        }
        let rb = match as_num(rv) {
            Some(bq) => bq,
            None => {
                proof {
                    assert(rvv == ra_ext[s0.kk as int]);
                    assert(s0.mac_step_fails(pre)) by {
                        if mac_fold_ok(la_ext, ra_ext, s0.kk + 1) {
                            assert(ra_ext[s0.kk as int] is Num);
                        }
                    }
                }
                return (b, chans, StepOutcome::Fault(SimError::BadPayload));
            },
        };
        proof {
            assert(ra_ext[s0.kk as int] == Val::Num(rb));
            lemma_mac_fold_agree(la_ext, ra_ext, s0.lpart(pre), s0.rpart(pre), s0.kk as int);
            assert(mac_fold_s(la_ext, ra_ext, s0.kk as int) == s0.accum);
        }

        // The multiply-accumulate.
        let prod = match S::mul(lv, rb) {
            Some(p) => p,
            None => {
                proof {
                    assert(s0.mac_step_fails(pre)) by {
                        if mac_fold_ok(la_ext, ra_ext, s0.kk + 1) {
                            assert(S::mul_ok(lv, rb));
                        }
                    }
                }
                return (b, chans, StepOutcome::Fault(SimError::BadPayload));
            },
        };
        let na = match S::add(prod, b.accum) {
            Some(a) => a,
            None => {
                proof {
                    assert(b.accum == s0.accum);
                    assert(s0.mac_step_fails(pre)) by {
                        if mac_fold_ok(la_ext, ra_ext, s0.kk + 1) {
                            assert(S::add_ok(
                                S::mul_s(lv, rb),
                                mac_fold_s(la_ext, ra_ext, s0.kk as int),
                            ));
                        }
                    }
                }
                return (b, chans, StepOutcome::Fault(SimError::BadPayload));
            },
        };
        let ghost accum0 = b.accum;
        b.accum = na;
        b.clock = sat_add(b.clock, b.timing.dot_ii);
        b.kk = b.kk + 1;
        proof {
            assert(b.clock >= sat_add_s(max_s(base0, rtime), s0.timing.dot_ii));
        }
        proof {
            // The fold of the extended prefixes is the new accumulator.
            let post = chans@;
            assert(post[cl as int].hist@ == pre[cl as int].hist@ || (need_left && post[cl as int].hist@
                == pre[cl as int].hist@));
            assert(Val::Num(lv) == pre[cl as int].sent()[(match s0.behavior {
                MatmulBehavior::Buffered => s0.row() * kd_i,
                MatmulBehavior::Repeated => cells0 * kd_i,
            }) + s0.kk]);
            assert(Val::Num(rb) == pre[cr as int].sent()[cells0 * kd_i + s0.kk]);
        }
        if b.kk == kd {
            // Emit the finished cell.
            let sft = chans[co].slot_free_time();
            b.clock = max64(b.clock, sft);
            let stamp = sat_add(b.clock, b.timing.dot_latency);
            proof {
                assert(chans@[co as int] == pre[co as int]);
                assert(pre[co as int].horizon() <= sat_add_s(s0.clock, b.timing.dot_latency));
            }
            let ghost snapo = chans@;
            let out_v = Value::Num(b.accum);
            crate::channel::vec_enqueue(&mut chans, co, stamp, out_v);
            b.accum = S::zero();
            b.kk = 0;
            b.ni = b.ni + 1;
            if b.ni == nd {
                b.ni = 0;
                b.buffer = Vec::new();
                b.mi = b.mi + 1;
                if b.mi == md {
                    b.mi = 0;
                    proof {
                        broadcast use vstd::std_specs::vec::axiom_spec_len;

                        let ghost dv = chans@[cr as int].deq_times;
                        assert(vstd::std_specs::vec::spec_vec_len(&dv) == dv@.len());
                        assert(dv@.len() == cells0 * kd_i + kd_i);
                        assert(s0.batches + 1 <= cells0 * kd_i + kd_i) by (nonlinear_arith)
                            requires
                                cells0 == (s0.batches * md_i + s0.mi) * nd_i + s0.ni,
                                s0.batches >= 0,
                                s0.mi >= 0,
                                s0.ni >= 0,
                                md_i >= 1,
                                nd_i >= 1,
                                kd_i >= 1,
                        ;
                    }
                    b.batches = b.batches + 1;
                }
            }
            proof {
                let post = chans@;
                assert(post[co as int].hist@.len() == pre[co as int].hist@.len() + 1);
                assert(post[co as int].hist@.last().0 == sat_add_s(
                    b.clock,
                    s0.timing.dot_latency,
                ));
                crate::channel::lemma_update_untouched(snapo, post, co as int, cl as int);
                crate::channel::lemma_update_untouched(snapo, post, co as int, cr as int);
                assert forall|c2: int| 0 <= c2 < chans@.len() implies (
                #[trigger] chans@[c2]).wf() by {
                    if c2 != co as int {
                        crate::channel::lemma_update_untouched(snapo, chans@, co as int, c2);
                    }
                    assert(snapo[c2].wf());
                }
                assert(chans_frame(pre, post, b.id)) by {
                    assert forall|c2: int| 0 <= c2 < pre.len() implies chan_frame(
                        #[trigger] pre[c2],
                        #[trigger] chans@[c2],
                        b.id,
                    ) by {
                        assert(chan_frame(pre[c2], snapo[c2], b.id));
                        if c2 != co as int {
                            crate::channel::lemma_update_untouched(snapo, chans@, co as int, c2);
                        } else {
                            assert(snapo[c2].hist@.is_prefix_of(chans@[c2].hist@));
                            assert(pre[c2].hist@.is_prefix_of(chans@[c2].hist@));
                            assert(pre[c2].deq_times@.is_prefix_of(chans@[c2].deq_times@));
                        }
                    }
                }
                lemma_emit_rebuild(s0, b, pre, post, lv, rb, na, stamp, need_left);
            }
            return (b, chans, StepOutcome::Progress);
        }
        proof {
            let post = chans@;
            let lbase: int = match s0.behavior {
                MatmulBehavior::Buffered => s0.row() * kd_i,
                MatmulBehavior::Repeated => cells0 * kd_i,
            };
            assert(post[co as int].hist@ == pre[co as int].hist@);
            assert(b.cells(post) == cells0);
            assert(b.row() == s0.row());
            assert(post[cl as int].hist@ == pre[cl as int].hist@);
            assert(post[cr as int].hist@ == pre[cr as int].hist@);
            assert(post[cr as int].taken() == rt0 + 1);
            assert(post[cl as int].taken() == lt0 + (if need_left {
                1int
            } else {
                0int
            }));
            assert(b.lpart(post) =~= pre[cl as int].sent().subrange(lbase, lbase + s0.kk + 1));
            assert(b.rpart(post) =~= pre[cr as int].sent().subrange(
                cells0 * kd_i,
                cells0 * kd_i + s0.kk + 1,
            ));
            lemma_mac_fold_agree(
                b.lpart(post),
                b.rpart(post),
                s0.lpart(pre),
                s0.rpart(pre),
                s0.kk as int,
            );
            assert(b.lpart(post)[s0.kk as int] == Val::Num(lv));
            assert(b.rpart(post)[s0.kk as int] == Val::Num(rb));
            assert(mac_fold_ok(b.lpart(post), b.rpart(post), s0.kk + 1));
            assert(b.accum == mac_fold_s(b.lpart(post), b.rpart(post), s0.kk + 1));
            assert forall|x: int|
                0 <= x < b.buffer@.len() implies Val::Num(#[trigger] b.buffer@[x])
                == post[cl as int].sent()[b.row() * kd_i + x] by {
                if x < s0.buffer@.len() {
                    assert(Val::Num(s0.buffer@[x]) == pre[cl as int].sent()[s0.row() * kd_i + x]);
                }
            }
            assert forall|j: int| 0 <= j < b.cells(post) implies #[trigger] b.cell_ok(post, j) by {
                assert(s0.cell_ok(pre, j));
                assert(b.lslice(post, j) =~= s0.lslice(pre, j));
                assert(b.rslice(post, j) =~= s0.rslice(pre, j));
            }
        }
        (b, chans, StepOutcome::Progress)
    }
}

} // verus!

verus! {

/// The integer dot product of the first `s` positions of two scalar
/// streams.
pub open spec fn int_dot(a: Seq<Val<i64>>, b: Seq<Val<i64>>, s: int) -> int
    decreases s,
{
    if s <= 0 {
        0
    } else {
        int_dot(a, b, s - 1) + (match a[s - 1] {
            Val::Num(x) => x as int,
            _ => 0,
        }) * (match b[s - 1] {
            Val::Num(y) => y as int,
            _ => 0,
        })
    }
}

/// The first `s` positions are scalars and every product and partial dot
/// product stays within the `i64` range.
pub open spec fn dot_in_range(a: Seq<Val<i64>>, b: Seq<Val<i64>>, s: int) -> bool
    decreases s,
{
    s <= 0 || (dot_in_range(a, b, s - 1) && a[s - 1] is Num && b[s - 1] is Num && i64::MIN <= (
    a[s - 1]->Num_0 as int) * (b[s - 1]->Num_0 as int) <= i64::MAX && i64::MIN <= int_dot(a, b, s)
        <= i64::MAX)
}

/// The matrix-multiply law, in its exact integer form: the `K`-step
/// multiply-accumulate over two operand slices succeeds and is exactly
/// their dot product, whenever every product and partial sum is
/// representable.  Together with the drivers' cell contracts this says
/// both behaviors emit exactly the cells of `A · B`.
pub proof fn lemma_mac_fold_dot(a: Seq<Val<i64>>, b: Seq<Val<i64>>, s: int)
    requires
        dot_in_range(a, b, s),
        s >= 0,
    ensures
        mac_fold_ok::<i64>(a, b, s),
        mac_fold_s::<i64>(a, b, s) == int_dot(a, b, s) as i64,
    decreases s,
{
    if s > 0 {
        lemma_mac_fold_dot(a, b, s - 1);
        let x = a[s - 1]->Num_0;
        let y = b[s - 1]->Num_0;
        assert(i64::MIN <= (x as int) * (y as int) <= i64::MAX);
        assert(<i64 as Scalar>::mul_ok(x, y));
        assert(<i64 as Scalar>::mul_s(x, y) == ((x as int) * (y as int)) as i64);
        assert(i64::MIN <= int_dot(a, b, s - 1) <= i64::MAX) by {
            if s - 1 <= 0 {
                assert(int_dot(a, b, s - 1) == 0);
            } else {
                assert(dot_in_range(a, b, s - 1));
            }
        }
        assert(int_dot(a, b, s) == int_dot(a, b, s - 1) + (x as int) * (y as int));
        assert(<i64 as Scalar>::add_ok(<i64 as Scalar>::mul_s(x, y), mac_fold_s(a, b, s - 1)));
    }
}

} // verus!
