//! The windowed reduce primitive.
//!
//! A reduce block consumes its input in windows of `reset_freq` elements.
//! At the start of each window it spends `reset_time` cycles, then folds the
//! window into an accumulator one element per initiation interval, and emits
//! the accumulator stamped `tick() + latency`.  Upstream closure is a clean
//! shutdown only on a window boundary; closure in the middle of a window is
//! a protocol violation.

use vstd::prelude::*;

use crate::channel::{
    chan_frame, chans_frame, chans_wf, max64, max_s, recvs_ok, sat_add, sat_add_s, sends_ok,
    Channel,
};
use crate::scalar::Scalar;
use crate::simulation::{SimError, StepOutcome};
use crate::templates::types::{Receiver, Sender};
use crate::value::{RunningResult, Val, Value};

verus! {

/// Timing of a reduce block.
#[derive(Clone, Copy, Debug)]
pub struct ReduceTimings {
    /// Minimum cycle gap between consecutive acceptances of input.
    pub initiation_interval: u64,
    /// Cycles from the last input of a window to the output becoming
    /// visible.
    pub latency: u64,
    /// Dead cycles at the start of each window.
    pub reset_time: u64,
}

/// The update function a reduce block folds its window with.
#[derive(Clone, Copy, Debug)]
pub enum ReduceOp {
    /// Scalar sum: the accumulator starts at the first element.
    Sum,
    /// The online-softmax row denominator: `r <- r * delta_elem + exp`,
    /// seeded with `exp`.
    Residual,
    /// Collects scalars into a vector, one push per element.
    BuildVec,
    /// The streaming output row: seeded with `v * exp` element-wise, then
    /// `out[i] <- out[i] * delta_elem + exp * v[i]`.
    WeightedVec,
}

/// Every product of the seeding step `v[i] * exp` is representable.
pub open spec fn wv_seed_ok<S: Scalar>(rr: RunningResult<S>, v: Seq<S>) -> bool {
    forall|i: int| 0 <= i < v.len() ==> S::mul_ok(#[trigger] v[i], rr.exp)
}

/// The seeded output row: `v * exp` element-wise.
pub open spec fn wv_seed_val<S: Scalar>(rr: RunningResult<S>, v: Seq<S>) -> Seq<S> {
    Seq::new(v.len(), |i: int| S::mul_s(v[i], rr.exp))
}

/// Step `i` of `out[i] * delta_elem + exp * v[i]` is representable.
pub open spec fn wv_elem_ok<S: Scalar>(rr: RunningResult<S>, o: Seq<S>, v: Seq<S>, i: int) -> bool {
    &&& S::mul_ok(o[i], rr.delta_elem)
    &&& S::mul_ok(rr.exp, v[i])
    &&& S::add_ok(S::mul_s(o[i], rr.delta_elem), S::mul_s(rr.exp, v[i]))
}

/// The shapes agree and every step of `out[i] * delta_elem + exp * v[i]`
/// is representable.
pub open spec fn wv_upd_ok<S: Scalar>(rr: RunningResult<S>, o: Seq<S>, v: Seq<S>) -> bool {
    &&& v.len() == o.len()
    &&& forall|i: int| 0 <= i < v.len() ==> #[trigger] wv_elem_ok(rr, o, v, i)
}

/// The updated output row: `o * delta_elem + exp * v` element-wise.
pub open spec fn wv_upd_val<S: Scalar>(rr: RunningResult<S>, o: Seq<S>, v: Seq<S>) -> Seq<S> {
    Seq::new(v.len(), |i: int| S::add_s(S::mul_s(o[i], rr.delta_elem), S::mul_s(rr.exp, v[i])))
}

/// One fold step, or `None` when the payload shapes do not match the
/// operation or its arithmetic faults.
pub open spec fn reduce_apply_s<S: Scalar>(op: ReduceOp, x: Val<S>, acc: Option<Val<S>>) -> Option<
    Val<S>,
> {
    match op {
        ReduceOp::Sum => match (x, acc) {
            (Val::Num(a), None) => Some(Val::Num(a)),
            (Val::Num(a), Some(Val::Num(o))) => if S::add_ok(o, a) {
                Some(Val::Num(S::add_s(o, a)))
            } else {
                None
            },
            _ => None,
        },
        ReduceOp::Residual => match (x, acc) {
            (Val::Run(rr), None) => Some(Val::Num(rr.exp)),
            (Val::Run(rr), Some(Val::Num(o))) => if S::mul_ok(o, rr.delta_elem) && S::add_ok(
                S::mul_s(o, rr.delta_elem),
                rr.exp,
            ) {
                Some(Val::Num(S::add_s(S::mul_s(o, rr.delta_elem), rr.exp)))
            } else {
                None
            },
            _ => None,
        },
        ReduceOp::BuildVec => match (x, acc) {
            (Val::Num(a), None) => Some(Val::Vect(seq![a])),
            (Val::Num(a), Some(Val::Vect(v))) => Some(Val::Vect(v.push(a))),
            _ => None,
        },
        ReduceOp::WeightedVec => match (x, acc) {
            (Val::Pair(p, q), None) => match (*p, *q) {
                (Val::Run(rr), Val::Vect(v)) => if wv_seed_ok::<S>(rr, v) {
                    Some(Val::Vect(wv_seed_val::<S>(rr, v)))
                } else {
                    None
                },
                _ => None,
            },
            (Val::Pair(p, q), Some(Val::Vect(o))) => match (*p, *q) {
                (Val::Run(rr), Val::Vect(v)) => if wv_upd_ok::<S>(rr, o, v) {
                    Some(Val::Vect(wv_upd_val::<S>(rr, o, v)))
                } else {
                    None
                },
                _ => None,
            },
            _ => None,
        },
    }
}

/// Whether folding `xs` with `op` succeeds at every step.
pub open spec fn reduce_acc_ok<S: Scalar>(op: ReduceOp, xs: Seq<Val<S>>) -> bool
    decreases xs.len(),
{
    xs.len() == 0 || (reduce_acc_ok(op, xs.drop_last()) && reduce_apply_s(
        op,
        xs.last(),
        reduce_acc_s(op, xs.drop_last()),
    ) is Some)
}

/// The accumulator after folding `xs` with `op`: `None` for an empty fold.
/// Meaningful where [`reduce_acc_ok`] holds.
pub open spec fn reduce_acc_s<S: Scalar>(op: ReduceOp, xs: Seq<Val<S>>) -> Option<Val<S>>
    decreases xs.len(),
{
    if xs.len() == 0 {
        None
    } else {
        Some(reduce_apply_s(op, xs.last(), reduce_acc_s(op, xs.drop_last()))->Some_0)
    }
}

/// Window `j` of `xs` under window length `w`.
pub open spec fn win<S>(xs: Seq<Val<S>>, w: int, j: int) -> Seq<Val<S>> {
    xs.subrange(j * w, j * w + w)
}

/// Element `k` of a weighted-vector update succeeded and stands in `out`.
pub open spec fn wv_ok<S: Scalar>(
    rr: RunningResult<S>,
    o: Seq<S>,
    v: Seq<S>,
    out: Seq<S>,
    k: int,
) -> bool {
    &&& S::mul_ok(o[k], rr.delta_elem)
    &&& S::mul_ok(rr.exp, v[k])
    &&& S::add_ok(S::mul_s(o[k], rr.delta_elem), S::mul_s(rr.exp, v[k]))
    &&& out[k] == S::add_s(S::mul_s(o[k], rr.delta_elem), S::mul_s(rr.exp, v[k]))
}

/// One fold step of the sum update.
fn apply_sum<S: Scalar>(x: Value<S>, acc: Option<Value<S>>) -> (r: Option<Value<S>>)
    ensures
        match r {
            Some(v) => reduce_apply_s::<S>(ReduceOp::Sum, x@, acc_view(acc)) == Some(v@),
            None => reduce_apply_s::<S>(ReduceOp::Sum, x@, acc_view(acc)) is None,
        },
{
    let ghost xv = x@;
    let ghost accv = acc_view(acc);
    let op = ReduceOp::Sum;
    let op = &op;
    match (x, acc) {
            (Value::Num(a), None) => Some(Value::Num(a)),
            (Value::Num(a), Some(Value::Num(o))) => match S::add(o, a) {
                Some(v) => Some(Value::Num(v)),
                None => None,
            },
            _ => None,
        }
}

/// One fold step of the residual update.
fn apply_residual<S: Scalar>(x: Value<S>, acc: Option<Value<S>>) -> (r: Option<Value<S>>)
    ensures
        match r {
            Some(v) => reduce_apply_s::<S>(ReduceOp::Residual, x@, acc_view(acc)) == Some(v@),
            None => reduce_apply_s::<S>(ReduceOp::Residual, x@, acc_view(acc)) is None,
        },
{
    let ghost xv = x@;
    let ghost accv = acc_view(acc);
    let op = ReduceOp::Residual;
    let op = &op;
    match (x, acc) {
            (Value::Run(rr), None) => Some(Value::Num(rr.exp)),
            (Value::Run(rr), Some(Value::Num(o))) => match S::mul(o, rr.delta_elem) {
                Some(m) => match S::add(m, rr.exp) {
                    Some(v) => Some(Value::Num(v)),
                    None => None,
                },
                None => None,
            },
            _ => None,
        }
}

/// One fold step of the buildvec update.
fn apply_build_vec<S: Scalar>(x: Value<S>, acc: Option<Value<S>>) -> (r: Option<Value<S>>)
    ensures
        match r {
            Some(v) => reduce_apply_s::<S>(ReduceOp::BuildVec, x@, acc_view(acc)) == Some(v@),
            None => reduce_apply_s::<S>(ReduceOp::BuildVec, x@, acc_view(acc)) is None,
        },
{
    let ghost xv = x@;
    let ghost accv = acc_view(acc);
    let op = ReduceOp::BuildVec;
    let op = &op;
    match (x, acc) {
            (Value::Num(a), None) => {
                let mut v: Vec<S> = Vec::new();
                v.push(a);
                proof {
                    assert(v@ =~= seq![a]);
                }
                Some(Value::Vect(v))
            },
            (Value::Num(a), Some(Value::Vect(mut v))) => {
                let ghost v0 = v@;
                proof {
                    assert(accv == Some(Val::Vect(v0)));
                }
                v.push(a);
                proof {
                    assert(v@ == v0.push(a));
                    assert(reduce_apply_s(*op, xv, accv) == Some(Val::Vect(v0.push(a))));
                }
                Some(Value::Vect(v))
            },
            _ => None,
        }
}

/// One fold step of the weightedvec update.
#[verifier::rlimit(100)]
fn apply_weighted_vec<S: Scalar>(x: Value<S>, acc: Option<Value<S>>) -> (r: Option<Value<S>>)
    ensures
        match r {
            Some(v) => reduce_apply_s::<S>(ReduceOp::WeightedVec, x@, acc_view(acc)) == Some(v@),
            None => reduce_apply_s::<S>(ReduceOp::WeightedVec, x@, acc_view(acc)) is None,
        },
{
    let ghost xv = x@;
    let ghost accv = acc_view(acc);
    let op = ReduceOp::WeightedVec;
    let op = &op;
    {
            match (&x, &acc) {
                (Value::Pair(p, q), None) => match (&**p, &**q) {
                    (Value::Run(rr), Value::Vect(v)) => {
                        let mut out: Vec<S> = Vec::new();
                        let mut i: usize = 0;
                        while i < v.len()
                            invariant
                                i <= v.len(),
                                out@.len() == i,
                                forall|k: int|
                                    0 <= k < i ==> S::mul_ok(#[trigger] v@[k], rr.exp) && out@[k]
                                        == S::mul_s(v@[k], rr.exp),
                            decreases v.len() - i,
                        {
                            let ghost out0 = out@;
                            let vi = v[i];
                            let ex = rr.exp;
                            match S::mul(vi, ex) {
                                Some(m) => out.push(m),
                                None => {
                                    proof {
                                        assert((**p)@ == Val::Run(*rr));
                                        assert((**q)@ == Val::Vect(v@));
                                        assert(vi == v@[i as int] && ex == rr.exp);
                                        assert(!S::mul_ok(v@[i as int], rr.exp));
                                        assert(!wv_seed_ok::<S>(*rr, v@));
                                        assert(reduce_apply_s::<S>(ReduceOp::WeightedVec, x@, acc_view(acc)) is None);
                                    }
                                    return None;
                                },
                            }
                            proof {
                                assert(vi == v@[i as int] && ex == rr.exp);
                                assert(out@ == out0.push(S::mul_s(v@[i as int], rr.exp)));
                                assert forall|k: int|
                                    0 <= k < i + 1 implies S::mul_ok(#[trigger] v@[k], rr.exp)
                                    && out@[k] == S::mul_s(v@[k], rr.exp) by {
                                    if k < i {
                                        assert(out0.push(S::mul_s(v@[i as int], rr.exp))[k]
                                            == out0[k]);
                                    }
                                }
                            }
                            i = i + 1;
                        }
                        proof {
                            assert((**p)@ == Val::Run(*rr));
                            assert((**q)@ == Val::Vect(v@));
                            assert(wv_seed_ok::<S>(*rr, v@)) by {
                                assert forall|k: int|
                                    0 <= k < v@.len() implies S::mul_ok(
                                    #[trigger] v@[k],
                                    (*rr).exp,
                                ) by {}
                            }
                            assert(out@ =~= wv_seed_val::<S>(*rr, v@));
                            assert(out@ == wv_seed_val::<S>(*rr, v@));
                            assert(reduce_apply_s::<S>(ReduceOp::WeightedVec, x@, acc_view(acc)) == Some(
                                Val::Vect(out@),
                            ));
                        }
                        let ghost outv = out@;
                        let ret = Value::Vect(out);
                        proof {
                            assert(ret@ == Val::Vect(outv));
                            assert(reduce_apply_s::<S>(ReduceOp::WeightedVec, x@, acc_view(acc))
                                == Some(ret@));
                        }
                        return Some(ret);
                    },
                    _ => {
                        proof {
                            let pv = (**p)@;
                            let qv = (**q)@;
                            assert(reduce_apply_s::<S>(ReduceOp::WeightedVec, x@, acc_view(acc)) is None);
                        }
                        None
                    },
                },
                (Value::Pair(p, q), Some(Value::Vect(o))) => match (&**p, &**q) {
                    (Value::Run(rr), Value::Vect(v)) => {
                        if v.len() != o.len() {
                            proof {
                                assert((**p)@ == Val::Run(*rr));
                                assert((**q)@ == Val::Vect(v@));
                                assert(x@ == Val::Pair(
                                    Box::new(Val::Run(*rr)),
                                    Box::new(Val::Vect(v@)),
                                ));
                                assert(acc_view(acc) == Some(Val::Vect(o@)));
                                assert(!wv_upd_ok::<S>(*rr, o@, v@));
                                assert(reduce_apply_s::<S>(ReduceOp::WeightedVec, x@, acc_view(acc)) is None);
                            }
                            return None;
                        }
                        let mut out: Vec<S> = Vec::new();
                        let mut i: usize = 0;
                        while i < v.len()
                            invariant
                                i <= v.len(),
                                v@.len() == o@.len(),
                                out@.len() == i,
                                forall|k: int| 0 <= k < i ==> #[trigger] wv_ok(*rr, o@, v@, out@, k),
                            decreases v.len() - i,
                        {
                            let oi = o[i];
                            let vi = v[i];
                            let de = rr.delta_elem;
                            let ex = rr.exp;
                            let m1 = match S::mul(oi, de) {
                                Some(m) => m,
                                None => {
                                    proof {
                                        assert((**p)@ == Val::Run(*rr));
                                        assert((**q)@ == Val::Vect(v@));
                                        assert(acc_view(acc) == Some(Val::Vect(o@)));
                                        assert(oi == o@[i as int]);
                                        assert(de == rr.delta_elem);
                                        assert(!S::mul_ok(oi, de));
                                        assert(!S::mul_ok(o@[i as int], rr.delta_elem));
                                        assert(!wv_elem_ok(*rr, o@, v@, i as int));
                                        assert(!wv_upd_ok::<S>(*rr, o@, v@));
                                        assert(reduce_apply_s::<S>(ReduceOp::WeightedVec, x@, acc_view(acc)) is None);
                                    }
                                    return None;
                                },
                            };
                            let m2 = match S::mul(ex, vi) {
                                Some(m) => m,
                                None => {
                                    proof {
                                        assert((**p)@ == Val::Run(*rr));
                                        assert((**q)@ == Val::Vect(v@));
                                        assert(acc_view(acc) == Some(Val::Vect(o@)));
                                        assert(ex == rr.exp && vi == v@[i as int]);
                                        assert(!S::mul_ok(rr.exp, v@[i as int]));
                                        assert(!wv_elem_ok(*rr, o@, v@, i as int));
                                        assert(!wv_upd_ok::<S>(*rr, o@, v@));
                                        assert(reduce_apply_s::<S>(ReduceOp::WeightedVec, x@, acc_view(acc)) is None);
                                    }
                                    return None;
                                },
                            };
                            let m3 = match S::add(m1, m2) {
                                Some(s2) => s2,
                                None => {
                                    proof {
                                        assert((**p)@ == Val::Run(*rr));
                                        assert((**q)@ == Val::Vect(v@));
                                        assert(acc_view(acc) == Some(Val::Vect(o@)));
                                        assert(oi == o@[i as int] && de == rr.delta_elem && ex
                                            == rr.exp && vi == v@[i as int]);
                                        assert(!S::add_ok(
                                            S::mul_s(o@[i as int], rr.delta_elem),
                                            S::mul_s(rr.exp, v@[i as int]),
                                        ));
                                        assert(!wv_elem_ok(*rr, o@, v@, i as int));
                                        assert(!wv_upd_ok::<S>(*rr, o@, v@));
                                        assert(reduce_apply_s::<S>(ReduceOp::WeightedVec, x@, acc_view(acc)) is None);
                                    }
                                    return None;
                                },
                            };
                            let ghost out0 = out@;
                            out.push(m3);
                            proof {
                                assert(oi == o@[i as int] && de == rr.delta_elem && ex == rr.exp
                                    && vi == v@[i as int]);
                                let nv = S::add_s(
                                    S::mul_s(o@[i as int], rr.delta_elem),
                                    S::mul_s(rr.exp, v@[i as int]),
                                );
                                assert(m1 == S::mul_s(o@[i as int], rr.delta_elem));
                                assert(m2 == S::mul_s(rr.exp, v@[i as int]));
                                assert(m3 == nv);
                                assert(out@ == out0.push(nv));
                                assert forall|k: int|
                                    0 <= k < i + 1 implies #[trigger] wv_ok(*rr, o@, v@, out@, k)
                                    by {
                                    if k < i {
                                        assert(wv_ok(*rr, o@, v@, out0, k));
                                        assert(out0.push(nv)[k] == out0[k]);
                                        assert(out@[k] == out0[k]);
                                    } else {
                                        assert(k == i as int);
                                        assert(out0.push(nv)[k] == nv);
                                        assert(out@[k] == nv);
                                        assert(wv_ok(*rr, o@, v@, out@, i as int));
                                    }
                                }
                            }
                            i = i + 1;
                        }
                        proof {
                            assert forall|k: int|
                                0 <= k < v@.len() implies S::mul_ok(#[trigger] o@[k], rr.delta_elem)
                                && S::mul_ok(rr.exp, #[trigger] v@[k]) && S::add_ok(
                                S::mul_s(o@[k], rr.delta_elem),
                                S::mul_s(rr.exp, v@[k]),
                            ) && out@[k] == S::add_s(
                                S::mul_s(o@[k], rr.delta_elem),
                                S::mul_s(rr.exp, v@[k]),
                            ) by {
                                assert(wv_ok(*rr, o@, v@, out@, k));
                            }
                            assert((**p)@ == Val::Run(*rr));
                            assert((**q)@ == Val::Vect(v@));
                            assert(acc_view(acc) == Some(Val::Vect(o@)));
                            assert(wv_upd_ok::<S>(*rr, o@, v@)) by {
                                assert forall|k: int|
                                    0 <= k < v@.len() implies #[trigger] wv_elem_ok(*rr, o@, v@, k)
                                    by {
                                    assert(wv_ok(*rr, o@, v@, out@, k));
                                }
                            }
                            assert(out@ =~= wv_upd_val::<S>(*rr, o@, v@));
                            assert(out@ == wv_upd_val::<S>(*rr, o@, v@));
                            assert(reduce_apply_s::<S>(ReduceOp::WeightedVec, x@, acc_view(acc))
                                == Some(Val::Vect(out@)));
                        }
                        let ghost outv = out@;
                        let ret = Value::Vect(out);
                        proof {
                            assert(ret@ == Val::Vect(outv));
                            assert(reduce_apply_s::<S>(ReduceOp::WeightedVec, x@, acc_view(acc))
                                == Some(ret@));
                        }
                        return Some(ret);
                    },
                    _ => {
                        proof {
                            let pv = (**p)@;
                            let qv = (**q)@;
                            assert(reduce_apply_s::<S>(ReduceOp::WeightedVec, x@, acc_view(acc)) is None);
                        }
                        None
                    },
                },
                _ => {
                    proof {
                        assert(reduce_apply_s::<S>(ReduceOp::WeightedVec, x@, acc_view(acc)) is None);
                    }
                    None
                },
            }
    }
}

/// Applies one fold step to concrete payloads.
pub fn reduce_apply<S: Scalar>(op: &ReduceOp, x: Value<S>, acc: Option<Value<S>>) -> (r: Option<
    Value<S>,
>)
    ensures
        match r {
            Some(v) => reduce_apply_s(*op, x@, acc_view(acc)) == Some(v@),
            None => reduce_apply_s(*op, x@, acc_view(acc)) is None,
        },
{
    match op {
        ReduceOp::Sum => apply_sum(x, acc),
        ReduceOp::Residual => apply_residual(x, acc),
        ReduceOp::BuildVec => apply_build_vec(x, acc),
        ReduceOp::WeightedVec => apply_weighted_vec(x, acc),
    }
}

/// The view of an optional payload.
pub open spec fn acc_view<S>(acc: Option<Value<S>>) -> Option<Val<S>> {
    match acc {
        Some(v) => Some(v@),
        None => None,
    }
}

/// A windowed reduce block.
pub struct Reduce<S> {
    /// Index of this block in the simulation; set when it is added.
    pub id: usize,
    /// The window length.
    pub reset_freq: usize,
    /// Input channel index.
    pub input: usize,
    /// Output channel index.
    pub output: usize,
    /// The fold function.
    pub op: ReduceOp,
    /// Timing configuration.
    pub timings: ReduceTimings,
    /// The block's local clock.
    pub clock: u64,
    /// Position within the current window.
    pub iter: usize,
    /// The accumulator of the current window; `None` between windows.
    pub accum: Option<Value<S>>,
    /// Whether the block has shut down cleanly.
    pub done: bool,
}

impl<S: Scalar> Reduce<S> {
    /// Creates a reduce block over the given endpoints.
    pub fn new(
        reset_freq: usize,
        input: Receiver,
        output: Sender,
        update_fn: ReduceOp,
        timings: ReduceTimings,
    ) -> (r: Self)
        ensures
            r == (Reduce {
                id: 0usize,
                reset_freq,
                input: input.id,
                output: output.id,
                op: update_fn,
                timings,
                clock: 0u64,
                iter: 0usize,
                accum: None::<Value<S>>,
                done: false,
            }),
    {
        Reduce {
            id: 0,
            reset_freq,
            input: input.id,
            output: output.id,
            op: update_fn,
            timings,
            clock: 0,
            iter: 0,
            accum: None,
            done: false,
        }
    }

    /// The number of windows already emitted.
    pub open spec fn emitted(self, chans: Seq<Channel<S>>) -> int {
        chans[self.output as int].sent().len() as int
    }

    /// The input prefix belonging to the current, unfinished window.
    pub open spec fn partial(self, chans: Seq<Channel<S>>) -> Seq<Val<S>> {
        chans[self.input as int].sent().subrange(
            self.emitted(chans) * self.reset_freq,
            self.emitted(chans) * self.reset_freq + self.iter,
        )
    }

    /// Window `j` was folded successfully and its result stands at
    /// position `j` of the output history.
    pub open spec fn window_ok(self, chans: Seq<Channel<S>>, j: int) -> bool {
        let w = self.reset_freq as int;
        let cin = self.input as int;
        let cout = self.output as int;
        &&& reduce_acc_ok(self.op, win(chans[cin].sent(), w, j))
        &&& Some(chans[cout].sent()[j]) == reduce_acc_s(self.op, win(chans[cin].sent(), w, j))
    }

    /// The block's invariant against the channel table.
    pub open spec fn wf(self, chans: Seq<Channel<S>>) -> bool {
        let w = self.reset_freq as int;
        let cin = self.input as int;
        let cout = self.output as int;
        let q = self.emitted(chans);
        &&& self.reset_freq >= 1
        &&& self.iter < self.reset_freq
        &&& self.input != self.output
        &&& cin < chans.len()
        &&& cout < chans.len()
        &&& recvs_ok(chans[cin], self.id, self.clock)
        &&& chans[cin].sender_tag != self.id
        &&& sends_ok(chans[cout], self.id, self.clock, self.timings.latency)
        &&& chans[cout].receiver_tag != self.id
        &&& chans[cin].taken() == q * w + self.iter
        &&& (forall|j: int| 0 <= j < q ==> #[trigger] self.window_ok(chans, j))
        &&& reduce_acc_ok(self.op, self.partial(chans))
        &&& acc_view(self.accum) == reduce_acc_s(self.op, self.partial(chans))
        &&& (self.iter == 0 <==> self.accum is None)
        &&& chans[cout].closed == self.done
        &&& (self.done ==> chans[cin].spec_exhausted() && self.iter == 0)
    }

    /// A step by another block leaves this block's invariant intact.
    pub proof fn lemma_wf_frame(self, pre: Seq<Channel<S>>, post: Seq<Channel<S>>, who: usize)
        requires
            self.wf(pre),
            chans_wf(pre),
            chans_wf(post),
            chans_frame(pre, post, who),
            who != self.id,
        ensures
            self.wf(post),
    {
        let w = self.reset_freq as int;
        let cin = self.input as int;
        let cout = self.output as int;
        assert(chan_frame(pre[cin], post[cin], who));
        assert(chan_frame(pre[cout], post[cout], who));
        assert(post[cout].hist == pre[cout].hist);
        assert(post[cin].deq_times == pre[cin].deq_times);
        let q = self.emitted(pre);
        assert(self.emitted(post) == q);
        assert(pre[cin].wf());
        assert(pre[cin].taken() <= pre[cin].hist@.len());
        assert(pre[cin].hist@.is_prefix_of(post[cin].hist@));
        assert forall|x: int| 0 <= x < pre[cin].taken() implies post[cin].sent()[x]
            == pre[cin].sent()[x] by {
            assert(post[cin].hist@[x] == pre[cin].hist@[x]);
        }
        assert(self.partial(post) =~= self.partial(pre));
        assert forall|j: int| 0 <= j < q implies #[trigger] self.window_ok(post, j) by {
            assert(self.window_ok(pre, j));
            assert(win(post[cin].sent(), w, j) =~= win(pre[cin].sent(), w, j)) by {
                assert(j * w + w <= q * w) by (nonlinear_arith)
                    requires
                        j + 1 <= q,
                        w >= 1,
                ;
                assert(q * w <= pre[cin].taken());
            }
            assert(post[cout].sent()[j] == pre[cout].sent()[j]);
        }
        if self.done {
            assert(post[cin].hist@ == pre[cin].hist@);
            assert(post[cin].wf());
            assert(post[cin].queue@.len() == 0);
        }
    }

    /// One scheduling step.
    ///
    /// Consumes one input element into the window accumulator, spending
    /// `reset_time` extra cycles at a window start, and emits the
    /// accumulator when the window completes.  Upstream exhaustion on a
    /// window boundary closes the output and finishes; mid-window it is a
    /// protocol violation.
    #[verifier::rlimit(100)]
    pub fn step(self, table: Vec<Channel<S>>) -> (r: (Self, Vec<Channel<S>>, StepOutcome))
        requires
            chans_wf(table@),
            self.wf(table@),
        ensures
            chans_wf(r.1@),
            chans_frame(table@, r.1@, self.id),
            r.0.id == self.id,
            r.0.input == self.input,
            r.0.output == self.output,
            r.0.op == self.op,
            r.0.timings == self.timings,
            r.0.reset_freq == self.reset_freq,
            r.0.clock >= self.clock,
            !(r.2 is Fault) ==> r.0.wf(r.1@),
            r.2 is Blocked ==> r.0 == self && r.1@ == table@,
            r.2 is Blocked ==> self.done || (table@[self.input as int].queue@.len() == 0
                && !table@[self.input as int].closed) || (self.iter + 1 == self.reset_freq
                && table@[self.output as int].queue@.len() >= table@[self.output as int].cap),
            r.2 is Finished ==> r.0.done && !self.done && r.1@[self.input as int].taken()
                == table@[self.input as int].taken(),
            r.2 is Progress ==> !r.0.done && r.1@[self.input as int].taken()
                == table@[self.input as int].taken() + 1,
            r.2 is Progress ==> r.0.clock >= sat_add_s(
                max_s(
                    if self.iter == 0 {
                        sat_add_s(self.clock, self.timings.reset_time)
                    } else {
                        self.clock
                    },
                    table@[self.input as int].hist@[table@[self.input as int].taken()].0,
                ),
                self.timings.initiation_interval,
            ),
            r.2 is Progress && self.iter + 1 == self.reset_freq ==> r.1@[self.output as int].hist@.len()
                == table@[self.output as int].hist@.len() + 1
                && r.1@[self.output as int].hist@.last().0 == sat_add_s(
                r.0.clock,
                self.timings.latency,
            ),
            r.2 is Progress && self.iter + 1 < self.reset_freq ==> r.1@[self.output as int].hist@
                == table@[self.output as int].hist@,
            r.2 matches StepOutcome::Fault(e) ==> (e == SimError::ProtocolViolation || e
                == SimError::BadPayload),
            r.2 == StepOutcome::Fault(SimError::ProtocolViolation) ==> table@[self.input as int].spec_exhausted()
                && self.iter != 0,
            r.2 == StepOutcome::Fault(SimError::BadPayload) ==> reduce_apply_s(
                self.op,
                table@[self.input as int].sent()[table@[self.input as int].taken()],
                acc_view(self.accum),
            ) is None && table@[self.input as int].sent().len() > table@[self.input as int].taken(),
            self.done ==> r.2 is Blocked,
    {
        let ghost pre = table@;
        let ghost s0 = self;
        let mut b = self;
        let mut chans = table;
        proof {
            crate::channel::lemma_chans_frame_refl(pre, s0.id);
        }
        if b.done {
            return (b, chans, StepOutcome::Blocked);
        }
        let cin = b.input;
        let cout = b.output;
        let w = b.reset_freq;
        let ghost q = s0.emitted(pre);

        if chans[cin].queued() == 0 {
            if chans[cin].is_exhausted() {
                if b.iter == 0 {
                    let ghost snap = chans@;
                    crate::channel::vec_close(&mut chans, cout);
                    b.done = true;
                    proof {
                        assert(chans@ == snap.update(
                            cout as int,
                            (Channel { closed: true, ..snap[cout as int] }),
                        ));
                        crate::channel::lemma_update_untouched(snap, chans@, cout as int, cin as int);
                        assert forall|c2: int| 0 <= c2 < chans@.len() implies (
                        #[trigger] chans@[c2]).wf() by {
                            if c2 != cout as int {
                                crate::channel::lemma_update_untouched(snap, chans@, cout as int, c2);
                            } else {
                                assert(chans@[c2].hist == snap[c2].hist && chans@[c2].queue
                                    == snap[c2].queue && chans@[c2].deq_times == snap[c2].deq_times
                                    && chans@[c2].cap == snap[c2].cap);
                            }
                            assert(snap[c2].wf());
                        }
                        assert forall|c2: int| 0 <= c2 < pre.len() implies chan_frame(
                            #[trigger] pre[c2],
                            #[trigger] chans@[c2],
                            b.id,
                        ) by {
                            assert(pre[c2].hist@.is_prefix_of(pre[c2].hist@));
                            assert(pre[c2].deq_times@.is_prefix_of(pre[c2].deq_times@));
                            if c2 != cout as int {
                                crate::channel::lemma_update_untouched(snap, chans@, cout as int, c2);
                            }
                        }
                        assert(b.partial(chans@) =~= s0.partial(pre));
                        assert forall|j: int| 0 <= j < q implies #[trigger] b.window_ok(chans@, j)
                            by {
                            assert(s0.window_ok(pre, j));
                            assert(win(chans@[cin as int].sent(), w as int, j) =~= win(
                                pre[cin as int].sent(),
                                w as int,
                                j,
                            ));
                            assert(chans@[cout as int].sent()[j] == pre[cout as int].sent()[j]);
                        }
                    }
                    return (b, chans, StepOutcome::Finished);
                } else {
                    return (b, chans, StepOutcome::Fault(SimError::ProtocolViolation));
                }
            } else {
                return (b, chans, StepOutcome::Blocked);
            }
        }

        // The window's last element also needs room for the emission.
        if b.iter + 1 == w {
            if !chans[cout].has_space() {
                return (b, chans, StepOutcome::Blocked);
            }
        }

        let ghost base0: u64 = if s0.iter == 0 {
            sat_add_s(s0.clock, s0.timings.reset_time)
        } else {
            s0.clock
        };
        let ghost etime = pre[cin as int].hist@[pre[cin as int].taken()].0;
        if b.iter == 0 {
            b.clock = sat_add(b.clock, b.timings.reset_time);
        }
        let ghost snap = chans@;
        let (v, t2) = crate::channel::vec_dequeue(&mut chans, cin, b.clock);
        b.clock = t2;
        let mut acc: Option<Value<S>> = None;
        core::mem::swap(&mut acc, &mut b.accum);
        let y = match reduce_apply(&b.op, v, acc) {
            Some(y) => y,
            None => {
                proof {
                    assert forall|c2: int| 0 <= c2 < chans@.len() implies (
                    #[trigger] chans@[c2]).wf() by {
                        if c2 != cin as int {
                            crate::channel::lemma_update_untouched(snap, chans@, cin as int, c2);
                        }
                        assert(snap[c2].wf());
                    }
                    assert forall|c2: int| 0 <= c2 < pre.len() implies chan_frame(
                        #[trigger] pre[c2],
                        #[trigger] chans@[c2],
                        b.id,
                    ) by {
                        assert(pre[c2].hist@.is_prefix_of(pre[c2].hist@));
                        assert(pre[c2].deq_times@.is_prefix_of(pre[c2].deq_times@));
                        if c2 != cin as int {
                            crate::channel::lemma_update_untouched(snap, chans@, cin as int, c2);
                        }
                    }
                }
                return (b, chans, StepOutcome::Fault(SimError::BadPayload));
            },
        };
        proof {
            assert(v@ == pre[cin as int].sent()[q * (w as int) + s0.iter]);
            assert(s0.partial(pre).push(v@) =~= pre[cin as int].sent().subrange(
                q * (w as int),
                q * (w as int) + s0.iter + 1,
            ));
            assert(s0.partial(pre).push(v@).drop_last() =~= s0.partial(pre));
            assert(reduce_acc_ok(b.op, s0.partial(pre).push(v@)));
            assert(reduce_acc_s(b.op, s0.partial(pre).push(v@)) == Some(y@));
        }
        b.accum = Some(y);
        b.clock = sat_add(b.clock, b.timings.initiation_interval);
        b.iter = b.iter + 1;
        proof {
            assert(b.clock >= sat_add_s(max_s(base0, etime), s0.timings.initiation_interval));
        }
        let ghost mid = chans@;
        let ghost bmid = b;
        proof {
            crate::channel::lemma_update_untouched(snap, chans@, cin as int, cout as int);
            assert forall|c2: int| 0 <= c2 < chans@.len() implies (#[trigger] chans@[c2]).wf() by {
                if c2 != cin as int {
                    crate::channel::lemma_update_untouched(snap, chans@, cin as int, c2);
                }
                assert(snap[c2].wf());
            }
            assert forall|c2: int| 0 <= c2 < pre.len() implies chan_frame(
                #[trigger] pre[c2],
                #[trigger] chans@[c2],
                b.id,
            ) by {
                assert(pre[c2].hist@.is_prefix_of(pre[c2].hist@));
                assert(pre[c2].deq_times@.is_prefix_of(pre[c2].deq_times@));
                if c2 != cin as int {
                    crate::channel::lemma_update_untouched(snap, chans@, cin as int, c2);
                }
            }
        }

        if b.iter == w {
            // Emit the completed window.
            let sft = chans[cout].slot_free_time();
            b.clock = max64(b.clock, sft);
            let stamp = sat_add(b.clock, b.timings.latency);
            let mut out: Option<Value<S>> = None;
            core::mem::swap(&mut out, &mut b.accum);
            let y2 = match out {
                Some(y2) => y2,
                None => {
                    proof {
                        assert(false);
                    }
                    return (b, chans, StepOutcome::Fault(SimError::BadPayload));
                },
            };
            proof {
                assert(mid[cout as int] == pre[cout as int]);
                assert(pre[cout as int].horizon() <= sat_add_s(s0.clock, b.timings.latency));
            }
            let ghost snap2 = chans@;
            crate::channel::vec_enqueue(&mut chans, cout, stamp, y2);
            b.iter = 0;
            proof {
                assert(chans@[cout as int].hist@.len() == pre[cout as int].hist@.len() + 1);
                assert(chans@[cout as int].hist@.last().0 == sat_add_s(
                    b.clock,
                    s0.timings.latency,
                ));
                crate::channel::lemma_update_untouched(snap2, chans@, cout as int, cin as int);
                assert forall|c2: int| 0 <= c2 < chans@.len() implies (
                #[trigger] chans@[c2]).wf() by {
                    if c2 != cout as int {
                        crate::channel::lemma_update_untouched(snap2, chans@, cout as int, c2);
                    }
                    assert(snap2[c2].wf());
                }
                assert forall|c2: int| 0 <= c2 < pre.len() implies chan_frame(
                    #[trigger] pre[c2],
                    #[trigger] chans@[c2],
                    b.id,
                ) by {
                    assert(chan_frame(pre[c2], snap2[c2], b.id));
                    if c2 != cout as int {
                        crate::channel::lemma_update_untouched(snap2, chans@, cout as int, c2);
                    } else {
                        assert(pre[c2].hist@.is_prefix_of(snap2[c2].hist@));
                        assert(snap2[c2].hist@.is_prefix_of(chans@[c2].hist@));
                        assert(pre[c2].hist@.is_prefix_of(chans@[c2].hist@));
                        assert(pre[c2].deq_times@.is_prefix_of(chans@[c2].deq_times@));
                    }
                }
                let post = chans@;
                assert(post[cout as int].sent() =~= pre[cout as int].sent().push(y2@));
                assert(b.emitted(post) == q + 1);
                assert(post[cin as int].taken() == (q + 1) * (w as int)) by (nonlinear_arith)
                    requires
                        post[cin as int].taken() == q * (w as int) + s0.iter + 1,
                        s0.iter + 1 == w as int,
                ;
                assert(b.partial(post) =~= Seq::<Val<S>>::empty()) by {
                    assert((q + 1) * (w as int) + 0 == (q + 1) * (w as int));
                }
                assert(win(post[cin as int].sent(), w as int, q) =~= s0.partial(pre).push(v@)) by {
                    assert(q * (w as int) + (w as int) == q * (w as int) + s0.iter + 1);
                    assert forall|x: int|
                        q * (w as int) <= x < q * (w as int) + (w as int) implies post[cin as int].sent()[x]
                        == pre[cin as int].sent()[x] by {
                        assert(post[cin as int].hist@ == pre[cin as int].hist@);
                    }
                }
                assert forall|j: int| 0 <= j < q + 1 implies #[trigger] b.window_ok(post, j) by {
                    if j < q {
                        assert(s0.window_ok(pre, j));
                        assert(win(post[cin as int].sent(), w as int, j) =~= win(
                            pre[cin as int].sent(),
                            w as int,
                            j,
                        )) by {
                            assert(j * (w as int) + (w as int) <= q * (w as int)) by (nonlinear_arith)
                                requires
                                    j + 1 <= q,
                                    w as int >= 1,
                            ;
                            assert(post[cin as int].hist@ == pre[cin as int].hist@);
                        }
                        assert(post[cout as int].sent()[j] == pre[cout as int].sent()[j]);
                    } else {
                        assert(post[cout as int].sent()[j] == y2@);
                    }
                }
            }
            return (b, chans, StepOutcome::Progress);
        }
        proof {
            let post = chans@;
            assert(b.emitted(post) == q);
            assert(b.partial(post) =~= s0.partial(pre).push(v@)) by {
                assert forall|x: int|
                    q * (w as int) <= x < q * (w as int) + s0.iter + 1 implies post[cin as int].sent()[x]
                    == pre[cin as int].sent()[x] by {
                    assert(post[cin as int].hist@ == pre[cin as int].hist@);
                }
            }
            assert forall|j: int| 0 <= j < q implies #[trigger] b.window_ok(post, j) by {
                assert(s0.window_ok(pre, j));
                assert(win(post[cin as int].sent(), w as int, j) =~= win(
                    pre[cin as int].sent(),
                    w as int,
                    j,
                )) by {
                    assert(j * (w as int) + (w as int) <= q * (w as int)) by (nonlinear_arith)
                        requires
                            j + 1 <= q,
                            w as int >= 1,
                    ;
                    assert(post[cin as int].hist@ == pre[cin as int].hist@);
                }
                assert(post[cout as int].sent()[j] == pre[cout as int].sent()[j]);
            }
        }
        (b, chans, StepOutcome::Progress)
    }
}

} // verus!

verus! {

/// A fold that succeeds on a whole sequence succeeds on every prefix.
pub proof fn lemma_acc_ok_prefix<S: Scalar>(op: ReduceOp, xs: Seq<Val<S>>, k: int)
    requires
        reduce_acc_ok(op, xs),
        0 <= k <= xs.len(),
    ensures
        reduce_acc_ok(op, xs.subrange(0, k)),
    decreases xs.len(),
{
    if k == xs.len() {
        assert(xs.subrange(0, k) =~= xs);
    } else {
        assert(reduce_acc_ok(op, xs.drop_last()));
        lemma_acc_ok_prefix(op, xs.drop_last(), k);
        assert(xs.drop_last().subrange(0, k) =~= xs.subrange(0, k));
    }
}

/// The integer sum of a sequence of scalar payloads, where every payload
/// is a number.
pub open spec fn int_sum(xs: Seq<Val<i64>>) -> int
    decreases xs.len(),
{
    if xs.len() == 0 {
        0
    } else {
        int_sum(xs.drop_last()) + (match xs.last() {
            Val::Num(a) => a as int,
            _ => 0,
        })
    }
}

/// Every element of `xs` is a scalar payload.
pub open spec fn all_nums(xs: Seq<Val<i64>>) -> bool {
    forall|i: int| 0 <= i < xs.len() ==> (#[trigger] xs[i]) is Num
}

/// Every prefix sum of `xs` stays within the `i64` range.
pub open spec fn sums_in_range(xs: Seq<Val<i64>>) -> bool {
    forall|i: int|
        0 <= i <= xs.len() ==> i64::MIN <= #[trigger] int_sum(xs.subrange(0, i)) <= i64::MAX
}

/// The windowed-reduction law, in its additive form: folding a window of
/// integers with the sum update succeeds and yields exactly the sum of the
/// window, whenever every prefix sum is representable.
pub proof fn lemma_sum_fold(xs: Seq<Val<i64>>)
    requires
        all_nums(xs),
        sums_in_range(xs),
        xs.len() > 0,
    ensures
        reduce_acc_ok(ReduceOp::Sum, xs),
        reduce_acc_s(ReduceOp::Sum, xs) == Some(Val::Num(int_sum(xs) as i64)),
    decreases xs.len(),
{
    assert(xs.subrange(0, xs.len() as int) =~= xs);
    assert(int_sum(xs) == int_sum(xs.subrange(0, xs.len() as int)));
    if xs.len() == 1 {
        assert(xs.drop_last() =~= Seq::<Val<i64>>::empty());
        assert(int_sum(xs.drop_last()) == 0);
        assert(xs.subrange(0, 1) =~= xs);
        assert(xs[xs.len() - 1] is Num);
        assert(reduce_acc_s(ReduceOp::Sum, xs.drop_last()) is None);
        assert(reduce_acc_ok(ReduceOp::Sum, xs.drop_last()));
        let a = match xs.last() {
            Val::Num(a) => a,
            _ => 0,
        };
        assert(reduce_apply_s(ReduceOp::Sum, xs.last(), None::<Val<i64>>) == Some(Val::Num(a)));
        assert(int_sum(xs) == a as int);
    } else {
        let pre = xs.drop_last();
        assert(all_nums(pre)) by {
            assert forall|i: int| 0 <= i < pre.len() implies (#[trigger] pre[i]) is Num by {
                assert(pre[i] == xs[i]);
            }
        }
        assert(sums_in_range(pre)) by {
            assert forall|i: int|
                0 <= i <= pre.len() implies i64::MIN <= #[trigger] int_sum(pre.subrange(0, i))
                <= i64::MAX by {
                assert(pre.subrange(0, i) =~= xs.subrange(0, i));
            }
        }
        lemma_sum_fold(pre);
        assert(pre =~= xs.subrange(0, pre.len() as int));
        assert(xs.last() is Num);
        let o = int_sum(pre) as i64;
        let a = match xs.last() {
            Val::Num(a) => a,
            _ => 0,
        };
        assert(int_sum(xs) == int_sum(pre) + a);
        assert(i64::MIN <= int_sum(pre) <= i64::MAX) by {
            assert(int_sum(xs.subrange(0, pre.len() as int)) == int_sum(pre));
        }
        assert(i64::MIN <= int_sum(xs) <= i64::MAX);
        assert(xs[xs.len() - 1] is Num);
        assert(xs.last() == Val::Num(a));
        assert(o == int_sum(pre));
        assert(<i64 as Scalar>::add_ok(o, a));
        assert(reduce_acc_s(ReduceOp::Sum, pre) == Some(Val::Num(o)));
        assert(reduce_apply_s(ReduceOp::Sum, xs.last(), Some(Val::Num(o))) == Some(
            Val::Num(<i64 as Scalar>::add_s(o, a)),
        ));
        assert(reduce_acc_ok(ReduceOp::Sum, xs));
        assert(<i64 as Scalar>::add_s(o, a) == int_sum(xs) as i64);
    }
}

} // verus!
