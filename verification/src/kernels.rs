//! The attention pipelines, composed from the verified drivers.
//!
//! The naive pipeline exponentiates every score, reduces each row to its
//! sum, divides each exponentiated score by its row's sum, and multiplies
//! the resulting probability matrix with `V`.  The streaming pipeline runs
//! the online-softmax recurrence over the scores, folds each row into a
//! residual denominator and into a weighted output vector, and emits each
//! output vector divided by its denominator.  Each stage is one verified
//! primitive driver; the stages run to completion in dataflow order, and
//! the reported cycle count is the largest any stage's graph reached.  The
//! contracts pin every output payload exactly, as the composition of the
//! stage folds over the input streams, and promise success on workloads
//! whose arithmetic goes through.

use vstd::prelude::*;

use crate::apps::{long_depth_deadlocks, AttentionConfig};
use crate::channel::{datas_of, max64, ChannelElement};
use crate::pipelines::{
    flat_ready, flatmap_pipeline, map_pipeline, map_ready, matmul_pipeline, matmul_ready,
    reduce_pipeline, reduce_ready, scan_pipeline, scan_ready,
};
use crate::scalar::Scalar;
use crate::simulation::SimError;
use crate::templates::flatmap::{flat_out, FlatmapOp, FlatmapTimings};
use crate::templates::map::{map_apply_s, MapOp, MapTimings};
use crate::templates::matmul::{mac_fold_s, MatmulBehavior, MatmulTiming, ShapeInfo};
use crate::templates::reduce::{reduce_acc_s, win, ReduceOp, ReduceTimings};
use crate::templates::scan::{scan_acc_s, ScanOp, ScanTimings};
use crate::value::{vals_of, Val, Value};

verus! {

/// The per-position outputs of a windowed scan over `q`.
pub open spec fn scan_stream<S: Scalar>(op: ScanOp, q: Seq<Val<S>>, w: int) -> Seq<Val<S>> {
    Seq::new(q.len(), |p: int| scan_acc_s(op, q.subrange((p / w) * w, p + 1))->Some_0)
}

/// The per-window outputs of a windowed reduce over `xs`.
pub open spec fn reduce_stream<S: Scalar>(op: ReduceOp, xs: Seq<Val<S>>, w: int) -> Seq<Val<S>> {
    Seq::new((xs.len() as int / w) as nat, |j: int| reduce_acc_s(op, win(xs, w, j))->Some_0)
}

/// The per-element outputs of a map over `xs`.
pub open spec fn map_stream<S: Scalar>(op: MapOp<S>, xs: Seq<Val<S>>) -> Seq<Val<S>> {
    Seq::new(xs.len(), |j: int| map_apply_s(op, seq![xs[j]])->Some_0)
}

/// Pairs element `p` of `a` with element `p % b.len()` of `b`: the stream
/// a zip block sees when `b`'s sender replays its rows once per window of
/// `a`.
pub open spec fn cycle_pairs<S: Scalar>(a: Seq<Val<S>>, b: Seq<Val<S>>) -> Seq<Val<S>> {
    Seq::new(a.len(), |p: int| Val::Pair(Box::new(a[p]), Box::new(b[p % (b.len() as int)])))
}

/// Pairs element `p` of `a` with element `p / w` of `b`: the stream a zip
/// block sees when each element of `b` is repeated for a whole window of
/// `a`.
pub open spec fn window_pairs<S: Scalar>(a: Seq<Val<S>>, b: Seq<Val<S>>, w: int) -> Seq<Val<S>> {
    Seq::new(a.len(), |p: int| Val::Pair(Box::new(a[p]), Box::new(b[p / w])))
}

/// The right stream of the naive pipeline's matmul: `V` transposed
/// row-major, replayed once per row of the probability matrix.
pub open spec fn vt_stream<S: Scalar>(v: Seq<Val<S>>, w: int, d: int, rows: int) -> Seq<Val<S>> {
    Seq::new((rows * (d * w)) as nat, |x: int| v[(x % w) * d + (x / w) % d])
}

/// The probability stream of the naive pipeline: each exponentiated score
/// divided by its row's sum of exponentiated scores.
pub open spec fn naive_probs<S: Scalar>(q: Seq<Val<S>>, w: int) -> Seq<Val<S>> {
    map_stream(
        MapOp::<S>::DivPair,
        window_pairs(
            map_stream(MapOp::<S>::Exp, q),
            reduce_stream(ReduceOp::Sum, map_stream(MapOp::<S>::Exp, q), w),
            w,
        ),
    )
}

/// The zipped stream of the streaming pipeline: each online-softmax state
/// paired with its key's row of `V`.
pub open spec fn agn_pairs<S: Scalar>(q: Seq<Val<S>>, v: Seq<Val<S>>, w: int, d: int) -> Seq<
    Val<S>,
> {
    cycle_pairs(
        scan_stream(ScanOp::OnlineSoftmax, q, w),
        reduce_stream(ReduceOp::BuildVec, v, d),
    )
}

/// Per query row, the weighted output vector of the streaming pipeline.
pub open spec fn agn_weighted<S: Scalar>(q: Seq<Val<S>>, v: Seq<Val<S>>, w: int, d: int) -> Seq<
    Val<S>,
> {
    reduce_stream(ReduceOp::WeightedVec, agn_pairs(q, v, w, d), w)
}

/// Per query row, the residual denominator of the streaming pipeline.
pub open spec fn agn_residuals<S: Scalar>(q: Seq<Val<S>>, w: int) -> Seq<Val<S>> {
    reduce_stream(ReduceOp::Residual, scan_stream(ScanOp::OnlineSoftmax, q, w), w)
}

/// Per query row, the weighted vector paired with its denominator.
pub open spec fn agn_final_pairs<S: Scalar>(
    q: Seq<Val<S>>,
    v: Seq<Val<S>>,
    w: int,
    d: int,
) -> Seq<Val<S>> {
    cycle_pairs(agn_weighted(q, v, w, d), agn_residuals(q, w))
}

/// The output stream of the streaming pipeline: every weighted vector
/// divided element-wise by its row's denominator, concatenated.
pub open spec fn agn_out<S: Scalar>(q: Seq<Val<S>>, v: Seq<Val<S>>, w: int, d: int) -> Seq<
    Val<S>,
> {
    flat_out(FlatmapOp::Scale, agn_final_pairs(q, v, w, d))
}

/// The condition under which the streaming pipeline is owed success: the
/// shapes divide into whole rows, there is at least one row of `V`, every
/// stage's fold goes through, and the step budget covers every stage.
pub open spec fn agnostic_ready<S: Scalar>(
    q: Seq<Val<S>>,
    v: Seq<Val<S>>,
    w: int,
    d: int,
    fuel: int,
) -> bool {
    &&& v.len() as int / d >= 1
    &&& scan_ready(ScanOp::OnlineSoftmax, q, w)
    &&& reduce_ready(ReduceOp::BuildVec, v, d)
    &&& reduce_ready(ReduceOp::Residual, scan_stream(ScanOp::OnlineSoftmax, q, w), w)
    &&& reduce_ready(ReduceOp::WeightedVec, agn_pairs(q, v, w, d), w)
    &&& flat_ready(FlatmapOp::Scale, agn_final_pairs(q, v, w, d))
    &&& fuel >= 3 * (q.len() + v.len() + agn_out(q, v, w, d).len()) + 6
}

/// The condition under which the naive pipeline is owed success: the long
/// buffer holds a whole row, the shapes are whole batches, every stage's
/// arithmetic goes through, and the step budget covers every stage.
pub open spec fn naive_ready<S: Scalar>(
    q: Seq<Val<S>>,
    v: Seq<Val<S>>,
    w: int,
    d: int,
    long_depth: int,
    fuel: int,
) -> bool {
    &&& long_depth >= w
    &&& v.len() == w * d
    &&& q.len() as int % (w * w) == 0
    &&& map_ready(MapOp::<S>::Exp, q)
    &&& reduce_ready(ReduceOp::Sum, map_stream(MapOp::<S>::Exp, q), w)
    &&& map_ready(
        MapOp::<S>::DivPair,
        window_pairs(
            map_stream(MapOp::<S>::Exp, q),
            reduce_stream(ReduceOp::Sum, map_stream(MapOp::<S>::Exp, q), w),
            w,
        ),
    )
    &&& matmul_ready(
        MatmulBehavior::Buffered,
        naive_probs(q, w),
        vt_stream(v, w, d, q.len() as int / w),
        (ShapeInfo { m: w as usize, n: d as usize, k: w as usize }),
    )
    &&& fuel >= 3 * (q.len() + q.len() * d) + 8
}

/// The payloads of a drained stream, stripped of their timestamps.
fn payloads<S: Scalar>(outs: &Vec<ChannelElement<S>>) -> (r: Vec<Value<S>>)
    ensures
        vals_of(r@) == datas_of(outs@),
{
    let mut r: Vec<Value<S>> = Vec::new();
    let mut i: usize = 0;
    while i < outs.len()
        invariant
            i <= outs@.len(),
            r@.len() == i,
            forall|j: int| 0 <= j < i ==> (#[trigger] r@[j])@ == outs@[j].data@,
        decreases outs@.len() - i,
    {
        r.push(outs[i].data.dup());
        i = i + 1;
    }
    proof {
        assert(vals_of(r@) =~= datas_of(outs@)) by {
            assert forall|j: int| 0 <= j < r@.len() implies vals_of(r@)[j] == datas_of(outs@)[j] by {
                assert(vals_of(r@)[j] == r@[j]@);
                assert(datas_of(outs@)[j] == outs@[j].data@);
            }
        }
    }
    r
}

/// Builds the replayed zip stream: element `p` of `a` paired with element
/// `p % b.len()` of `b`.
fn cycle_pairs_exec<S: Scalar>(a: &Vec<Value<S>>, b: &Vec<Value<S>>) -> (r: Vec<Value<S>>)
    requires
        a@.len() == 0 || b@.len() >= 1,
    ensures
        vals_of(r@) == cycle_pairs(vals_of(a@), vals_of(b@)),
{
    let mut r: Vec<Value<S>> = Vec::new();
    let mut p: usize = 0;
    while p < a.len()
        invariant
            p <= a@.len(),
            p < a@.len() ==> b@.len() >= 1,
            a@.len() > 0 ==> b@.len() >= 1,
            r@.len() == p,
            forall|x: int|
                0 <= x < p ==> (#[trigger] r@[x])@ == Val::Pair(
                    Box::new(a@[x]@),
                    Box::new(b@[x % (b@.len() as int)]@),
                ),
        decreases a@.len() - p,
    {
        let q = p % b.len();
        r.push(Value::Pair(Box::new(a[p].dup()), Box::new(b[q].dup())));
        p = p + 1;
    }
    proof {
        assert(vals_of(r@) =~= cycle_pairs(vals_of(a@), vals_of(b@))) by {
            assert forall|x: int| 0 <= x < r@.len() implies vals_of(r@)[x] == cycle_pairs(
                vals_of(a@),
                vals_of(b@),
            )[x] by {
                assert(vals_of(r@)[x] == r@[x]@);
                assert(vals_of(a@)[x] == a@[x]@);
                assert(vals_of(b@)[x % (b@.len() as int)] == b@[x % (b@.len() as int)]@);
            }
        }
    }
    r
}

/// Builds the repeated zip stream: element `p` of `a` paired with element
/// `p / w` of `b`.
fn window_pairs_exec<S: Scalar>(a: &Vec<Value<S>>, b: &Vec<Value<S>>, w: usize) -> (r: Vec<
    Value<S>,
>)
    requires
        w >= 1,
        a@.len() <= b@.len() * w,
    ensures
        vals_of(r@) == window_pairs(vals_of(a@), vals_of(b@), w as int),
{
    let mut r: Vec<Value<S>> = Vec::new();
    let mut p: usize = 0;
    while p < a.len()
        invariant
            w >= 1,
            a@.len() <= b@.len() * w,
            p <= a@.len(),
            r@.len() == p,
            forall|x: int|
                0 <= x < p ==> (#[trigger] r@[x])@ == Val::Pair(
                    Box::new(a@[x]@),
                    Box::new(b@[x / (w as int)]@),
                ),
        decreases a@.len() - p,
    {
        let q = p / w;
        proof {
            assert(p < b@.len() * (w as int));
            assert(p as int / (w as int) < b@.len()) by (nonlinear_arith)
                requires
                    (p as int) < b@.len() * (w as int),
                    w as int >= 1,
                    p as int >= 0,
            ;
        }
        r.push(Value::Pair(Box::new(a[p].dup()), Box::new(b[q].dup())));
        p = p + 1;
    }
    proof {
        assert(vals_of(r@) =~= window_pairs(vals_of(a@), vals_of(b@), w as int)) by {
            assert forall|x: int| 0 <= x < r@.len() implies vals_of(r@)[x] == window_pairs(
                vals_of(a@),
                vals_of(b@),
                w as int,
            )[x] by {
                assert(vals_of(r@)[x] == r@[x]@);
                assert(vals_of(a@)[x] == a@[x]@);
                assert(0 <= x / (w as int) < b@.len()) by (nonlinear_arith)
                    requires
                        0 <= x,
                        x < b@.len() * (w as int),
                        w as int >= 1,
                ;
                assert(vals_of(b@)[x / (w as int)] == b@[x / (w as int)]@);
            }
        }
    }
    r
}

/// Builds the naive matmul's right stream: `V` transposed row-major,
/// replayed once per probability row.
fn vt_repeat<S: Scalar>(v: &Vec<Value<S>>, w: usize, d: usize, rows: usize) -> (r: Vec<Value<S>>)
    requires
        w >= 1,
        d >= 1,
        v@.len() == w * d,
        d * w <= usize::MAX,
        rows * (d * w) <= usize::MAX,
    ensures
        vals_of(r@) == vt_stream(vals_of(v@), w as int, d as int, rows as int),
{
    let total = rows * (d * w);
    let mut r: Vec<Value<S>> = Vec::new();
    let mut x: usize = 0;
    while x < total
        invariant
            w >= 1,
            d >= 1,
            v@.len() == w * d,
            total == rows * (d * w),
            x <= total,
            r@.len() == x,
            forall|j: int|
                0 <= j < x ==> (#[trigger] r@[j])@ == v@[(j % (w as int)) * (d as int) + (j / (
                w as int)) % (d as int)]@,
        decreases total - x,
    {
        let k = x % w;
        let n = (x / w) % d;
        proof {
            assert(k < w && n < d);
            assert(k * d + n < w * d) by (nonlinear_arith)
                requires
                    (k as int) < w as int,
                    (n as int) < d as int,
                    k as int >= 0,
                    d as int >= 1,
            ;
        }
        r.push(v[k * d + n].dup());
        x = x + 1;
    }
    proof {
        assert(vals_of(r@) =~= vt_stream(vals_of(v@), w as int, d as int, rows as int)) by {
            assert(r@.len() == (rows as int) * ((d as int) * (w as int)));
            assert forall|j: int| 0 <= j < r@.len() implies vals_of(r@)[j] == vt_stream(
                vals_of(v@),
                w as int,
                d as int,
                rows as int,
            )[j] by {
                assert(vals_of(r@)[j] == r@[j]@);
                let idx = (j % (w as int)) * (d as int) + (j / (w as int)) % (d as int);
                assert(0 <= idx < v@.len()) by (nonlinear_arith)
                    requires
                        0 <= j % (w as int) < w as int,
                        0 <= (j / (w as int)) % (d as int) < d as int,
                        v@.len() == (w as int) * (d as int),
                        idx == (j % (w as int)) * (d as int) + (j / (w as int)) % (d as int),
                ;
                assert(vals_of(v@)[idx] == v@[idx]@);
            }
        }
    }
    r
}

/// Runs the streaming (memory-agnostic) attention pipeline: an
/// online-softmax scan over the score stream fans out to a residual
/// reducer and, zipped with the rows of `V`, to a weighted-vector reducer,
/// and a final flatmap emits every weighted vector divided by its row's
/// denominator.
///
/// On success the payload stream is exactly [`agn_out`] of the inputs —
/// the composition of the stage folds — the score and `V` streams divided
/// into whole rows, the returned cycle count bounds every output
/// timestamp, and output timestamps never decrease.  Success is owed
/// whenever [`agnostic_ready`] holds of the inputs and the budget.
pub fn agnostic_pipeline<S: Scalar>(
    qkt: Vec<Value<S>>,
    v: Vec<Value<S>>,
    seq_len: usize,
    vocab_dim: usize,
    depth: usize,
    max_t: ScanTimings,
    residual_t: ReduceTimings,
    build_t: ReduceTimings,
    prod_t: ReduceTimings,
    scale_t: FlatmapTimings,
    fuel: u64,
) -> (r: Result<(u64, Vec<ChannelElement<S>>), SimError>)
    requires
        seq_len >= 1,
        vocab_dim >= 1,
    ensures
        (match r {
            Ok(out) => {
                let q = vals_of(qkt@);
                let vv = vals_of(v@);
                let w = seq_len as int;
                let d = vocab_dim as int;
                &&& q.len() as int % w == 0
                &&& vv.len() as int % d == 0
                &&& vv.len() as int / d >= 1
                &&& datas_of(out.1@) == agn_out(q, vv, w, d)
                &&& (forall|p: int| 0 <= p < out.1@.len() ==> (#[trigger] out.1@[p]).time <= out.0)
                &&& (forall|i: int, j: int|
                    0 <= i <= j < out.1@.len() ==> (#[trigger] out.1@[i]).time
                        <= (#[trigger] out.1@[j]).time)
            },
            Err(_) => true,
        }),
        agnostic_ready(
            vals_of(qkt@),
            vals_of(v@),
            seq_len as int,
            vocab_dim as int,
            fuel as int,
        ) ==> r is Ok,
{
    let ghost q0 = vals_of(qkt@);
    let ghost vv0 = vals_of(v@);
    let ghost w_i = seq_len as int;
    let ghost d_i = vocab_dim as int;
    let ghost ready = agnostic_ready(q0, vv0, w_i, d_i, fuel as int);
    let ghost n_q = q0.len() as int;

    // Stage: the online-softmax scan over the score stream.
    let (c1, souts) = match scan_pipeline(qkt, seq_len, depth, ScanOp::OnlineSoftmax, max_t, fuel) {
        Ok(x) => x,
        Err(e) => {
            proof {
                if ready {
                    assert(false);
                }
            }
            return Err(e);
        },
    };
    proof {
        assert(datas_of(souts@) =~= scan_stream(ScanOp::OnlineSoftmax, q0, w_i)) by {
            assert forall|p: int| 0 <= p < souts@.len() implies datas_of(souts@)[p] == scan_stream(
                ScanOp::OnlineSoftmax,
                q0,
                w_i,
            )[p] by {
                assert(datas_of(souts@)[p] == souts@[p].data@);
            }
        }
    }
    let svals = payloads(&souts);
    let svals2 = payloads(&souts);

    // Stage: the residual denominator of every row.
    let (c2, routs) = match reduce_pipeline(
        svals,
        seq_len,
        depth,
        ReduceOp::Residual,
        residual_t,
        fuel,
    ) {
        Ok(x) => x,
        Err(e) => {
            proof {
                if ready {
                    assert(false);
                }
            }
            return Err(e);
        },
    };
    proof {
        vstd::arithmetic::div_mod::lemma_fundamental_div_mod_converse_div(
            n_q,
            w_i,
            routs@.len() as int,
            0,
        );
        assert(datas_of(routs@) =~= agn_residuals(q0, w_i)) by {
            assert forall|j: int| 0 <= j < routs@.len() implies datas_of(routs@)[j]
                == agn_residuals(q0, w_i)[j] by {
                assert(datas_of(routs@)[j] == routs@[j].data@);
            }
        }
    }
    let res_vals = payloads(&routs);

    // Stage: the rows of `V`, collected as vectors.
    let (c3, bouts) = match reduce_pipeline(v, vocab_dim, depth, ReduceOp::BuildVec, build_t, fuel)
        {
        Ok(x) => x,
        Err(e) => {
            proof {
                if ready {
                    assert(false);
                }
            }
            return Err(e);
        },
    };
    proof {
        vstd::arithmetic::div_mod::lemma_fundamental_div_mod_converse_div(
            vv0.len() as int,
            d_i,
            bouts@.len() as int,
            0,
        );
        assert(datas_of(bouts@) =~= reduce_stream(ReduceOp::BuildVec, vv0, d_i)) by {
            assert forall|j: int| 0 <= j < bouts@.len() implies datas_of(bouts@)[j]
                == reduce_stream(ReduceOp::BuildVec, vv0, d_i)[j] by {
                assert(datas_of(bouts@)[j] == bouts@[j].data@);
            }
        }
    }
    let vrow_vals = payloads(&bouts);
    if vrow_vals.len() == 0 {
        proof {
            if ready {
                assert(vv0.len() as int / d_i >= 1);
                assert(false);
            }
        }
        return Err(SimError::Deadlock);
    }

    // Stage: each scan state zipped with its key's row of `V`, folded into
    // the weighted output vector of its query row.
    let pair_vals = cycle_pairs_exec(&svals2, &vrow_vals);
    let (c4, wouts) = match reduce_pipeline(
        pair_vals,
        seq_len,
        depth,
        ReduceOp::WeightedVec,
        prod_t,
        fuel,
    ) {
        Ok(x) => x,
        Err(e) => {
            proof {
                if ready {
                    assert(vals_of(pair_vals@) == agn_pairs(q0, vv0, w_i, d_i));
                    assert(false);
                }
            }
            return Err(e);
        },
    };
    proof {
        assert(vals_of(pair_vals@) == agn_pairs(q0, vv0, w_i, d_i));
        vstd::arithmetic::div_mod::lemma_fundamental_div_mod_converse_div(
            n_q,
            w_i,
            wouts@.len() as int,
            0,
        );
        assert(datas_of(wouts@) =~= agn_weighted(q0, vv0, w_i, d_i)) by {
            assert forall|j: int| 0 <= j < wouts@.len() implies datas_of(wouts@)[j] == agn_weighted(
                q0,
                vv0,
                w_i,
                d_i,
            )[j] by {
                assert(datas_of(wouts@)[j] == wouts@[j].data@);
            }
        }
    }
    let wv_vals = payloads(&wouts);

    // Stage: each weighted vector zipped with its denominator and divided.
    let fin_pairs = cycle_pairs_exec(&wv_vals, &res_vals);
    proof {
        assert(vals_of(fin_pairs@) == agn_final_pairs(q0, vv0, w_i, d_i));
    }
    let (c6, fouts) = match flatmap_pipeline(fin_pairs, depth, FlatmapOp::Scale, scale_t, fuel) {
        Ok(x) => x,
        Err(e) => {
            proof {
                if ready {
                    broadcast use vstd::arithmetic::div_mod::lemma_div_nonincreasing;
                    broadcast use vstd::arithmetic::div_mod::lemma_div_pos_is_pos;

                    assert(agn_final_pairs(q0, vv0, w_i, d_i).len() == n_q / w_i);
                    assert(n_q / w_i <= n_q);
                    assert(false);
                }
            }
            return Err(e);
        },
    };
    let elapsed = max64(max64(c1, c2), max64(max64(c3, c4), c6));
    proof {
        assert(datas_of(fouts@) == agn_out(q0, vv0, w_i, d_i));
        assert forall|p: int| 0 <= p < fouts@.len() implies (#[trigger] fouts@[p]).time
            <= elapsed by {
            assert(fouts@[p].time <= c6);
        }
    }
    Ok((elapsed, fouts))
}

/// Runs the textbook (naive) attention pipeline: a map exponentiates the
/// scores, a windowed reduce sums each row, each exponentiated score is
/// divided by its row's replicated sum, and a buffered matmul multiplies
/// the probability matrix with `V`.  A long buffer shallower than one row
/// would deadlock the graph; that condition is detected up front and
/// reported instead of run.
///
/// On success every output cell is exactly the `N`-step
/// multiply-accumulate of its probability-row slice against its column of
/// `V`, the cell count is tied to the streams, the cycle count bounds
/// every output timestamp, and output timestamps never decrease.  Success
/// is owed whenever [`naive_ready`] holds of the inputs and the budget.
pub fn naive_pipeline<S: Scalar>(
    qkt: Vec<Value<S>>,
    v: Vec<Value<S>>,
    seq_len: usize,
    vocab_dim: usize,
    short_depth: usize,
    long_depth: usize,
    exp_t: MapTimings,
    sum_t: ReduceTimings,
    div_t: MapTimings,
    mm_t: MatmulTiming,
    fuel: u64,
) -> (r: Result<(u64, Vec<ChannelElement<S>>), SimError>)
    requires
        seq_len >= 1,
        vocab_dim >= 1,
        seq_len * vocab_dim <= usize::MAX,
        qkt@.len() * vocab_dim <= usize::MAX,
    ensures
        long_depth < seq_len ==> r == Err::<(u64, Vec<ChannelElement<S>>), SimError>(
            SimError::Deadlock,
        ),
        long_depth >= seq_len && v@.len() != seq_len * vocab_dim ==> r == Err::<(
            u64,
            Vec<ChannelElement<S>>,
        ), SimError>(SimError::BadWiring),
        (match r {
            Ok(out) => {
                let q = vals_of(qkt@);
                let vv = vals_of(v@);
                let w = seq_len as int;
                let d = vocab_dim as int;
                let probs = naive_probs(q, w);
                let vt = vt_stream(vv, w, d, q.len() as int / w);
                &&& long_depth >= seq_len
                &&& q.len() as int % w == 0
                &&& vv.len() == w * d
                &&& (out.1@.len() * w == q.len() * d || (out.1@.len() as int / d) * w == q.len())
                &&& (forall|j: int|
                    0 <= j < out.1@.len() ==> crate::templates::matmul::mac_fold_ok(
                        #[trigger] probs.subrange((j / d) * w, (j / d) * w + w),
                        vt.subrange(j * w, j * w + w),
                        w,
                    ) && (#[trigger] out.1@[j]).data@ == Val::Num(
                        mac_fold_s(
                            probs.subrange((j / d) * w, (j / d) * w + w),
                            vt.subrange(j * w, j * w + w),
                            w,
                        ),
                    ))
                &&& (forall|p: int| 0 <= p < out.1@.len() ==> (#[trigger] out.1@[p]).time <= out.0)
                &&& (forall|i: int, j: int|
                    0 <= i <= j < out.1@.len() ==> (#[trigger] out.1@[i]).time
                        <= (#[trigger] out.1@[j]).time)
            },
            Err(_) => true,
        }),
        naive_ready(
            vals_of(qkt@),
            vals_of(v@),
            seq_len as int,
            vocab_dim as int,
            long_depth as int,
            fuel as int,
        ) ==> r is Ok,
{
    let ghost q0 = vals_of(qkt@);
    let ghost vv0 = vals_of(v@);
    let ghost w_i = seq_len as int;
    let ghost d_i = vocab_dim as int;
    let ghost ready = naive_ready(q0, vv0, w_i, d_i, long_depth as int, fuel as int);
    let ghost n_q = q0.len() as int;

    // The exponentiated scores of one row must all fit in the long buffer
    // while the row sum is still being reduced: a shallower buffer
    // deadlocks the graph.
    let config = AttentionConfig { vocab_dim, seq_len };
    if long_depth_deadlocks(&config, long_depth) {
        proof {
            if ready {
                assert(false);
            }
        }
        return Err(SimError::Deadlock);
    }
    if v.len() != seq_len * vocab_dim {
        proof {
            if ready {
                assert(false);
            }
        }
        return Err(SimError::BadWiring);
    }
    proof {
        if ready {
            assert(n_q * d_i >= 0 && n_q >= 0) by (nonlinear_arith)
                requires
                    n_q >= 0,
                    d_i >= 1,
            ;
        }
    }

    // Stage: exponentiate every score.
    let (c1, eouts) = match map_pipeline(qkt, short_depth, MapOp::Exp, exp_t, fuel) {
        Ok(x) => x,
        Err(e) => {
            proof {
                if ready {
                    assert(false);
                }
            }
            return Err(e);
        },
    };
    proof {
        assert(datas_of(eouts@) =~= map_stream(MapOp::<S>::Exp, q0)) by {
            assert forall|j: int| 0 <= j < eouts@.len() implies datas_of(eouts@)[j] == map_stream(
                MapOp::<S>::Exp,
                q0,
            )[j] by {
                assert(datas_of(eouts@)[j] == eouts@[j].data@);
            }
        }
    }
    let evals = payloads(&eouts);
    let evals2 = payloads(&eouts);

    // Stage: sum each row of exponentiated scores.
    let (c2, souts) = match reduce_pipeline(evals, seq_len, short_depth, ReduceOp::Sum, sum_t, fuel)
        {
        Ok(x) => x,
        Err(e) => {
            proof {
                if ready {
                    assert(false);
                }
            }
            return Err(e);
        },
    };
    proof {
        vstd::arithmetic::div_mod::lemma_fundamental_div_mod_converse_div(
            n_q,
            w_i,
            souts@.len() as int,
            0,
        );
        assert(datas_of(souts@) =~= reduce_stream(
            ReduceOp::Sum,
            map_stream(MapOp::<S>::Exp, q0),
            w_i,
        )) by {
            assert forall|j: int| 0 <= j < souts@.len() implies datas_of(souts@)[j]
                == reduce_stream(ReduceOp::Sum, map_stream(MapOp::<S>::Exp, q0), w_i)[j] by {
                assert(datas_of(souts@)[j] == souts@[j].data@);
            }
        }
    }
    let sum_vals = payloads(&souts);

    // Stage: divide each exponentiated score by its row's replicated sum.
    proof {
        assert(evals2@.len() == n_q);
        assert(sum_vals@.len() * w_i == n_q);
    }
    let pair_vals = window_pairs_exec(&evals2, &sum_vals, seq_len);
    let ghost wp = window_pairs(
        map_stream(MapOp::<S>::Exp, q0),
        reduce_stream(ReduceOp::Sum, map_stream(MapOp::<S>::Exp, q0), w_i),
        w_i,
    );
    proof {
        assert(vals_of(pair_vals@) == wp);
    }
    let (c3, pouts) = match map_pipeline(pair_vals, short_depth, MapOp::DivPair, div_t, fuel) {
        Ok(x) => x,
        Err(e) => {
            proof {
                if ready {
                    assert(false);
                }
            }
            return Err(e);
        },
    };
    proof {
        assert(datas_of(pouts@) =~= naive_probs(q0, w_i)) by {
            assert forall|j: int| 0 <= j < pouts@.len() implies datas_of(pouts@)[j] == naive_probs(
                q0,
                w_i,
            )[j] by {
                assert(datas_of(pouts@)[j] == pouts@[j].data@);
            }
        }
    }
    let prob_vals = payloads(&pouts);

    // Stage: multiply the probability matrix with `V`, buffered row by
    // row.
    let rows = prob_vals.len() / seq_len;
    proof {
        assert(prob_vals@.len() == n_q);
        assert(rows as int == n_q / w_i);
        assert((n_q / w_i) * w_i <= n_q && n_q / w_i >= 0) by {
            broadcast use vstd::arithmetic::div_mod::lemma_fundamental_div_mod;
            broadcast use vstd::arithmetic::div_mod::lemma_mod_bound;
            broadcast use vstd::arithmetic::div_mod::lemma_div_pos_is_pos;

            assert(n_q == w_i * (n_q / w_i) + n_q % w_i);
        }
        assert((rows as int) * ((d_i) * (w_i)) <= n_q * d_i) by (nonlinear_arith)
            requires
                (rows as int) * w_i <= n_q,
                rows as int >= 0,
                d_i >= 1,
                w_i >= 1,
        ;
        assert(d_i * w_i == (seq_len * vocab_dim) as int) by (nonlinear_arith)
            requires
                d_i == vocab_dim as int,
                w_i == seq_len as int,
        ;
    }
    let right_vals = vt_repeat(&v, seq_len, vocab_dim, rows);
    let ghost vt = vt_stream(vv0, w_i, d_i, n_q / w_i);
    proof {
        assert(vals_of(right_vals@) == vt);
    }
    let shape = ShapeInfo { m: seq_len, n: vocab_dim, k: seq_len };
    let (c4, mouts) = match matmul_pipeline(
        prob_vals,
        right_vals,
        MatmulBehavior::Buffered,
        shape,
        mm_t,
        short_depth,
        fuel,
    ) {
        Ok(x) => x,
        Err(e) => {
            proof {
                if ready {
                    assert(matmul_ready(MatmulBehavior::Buffered, naive_probs(q0, w_i), vt, shape));
                    assert(fuel as int >= 3 * (n_q + vt.len()) + 8) by (nonlinear_arith)
                        requires
                            fuel as int >= 3 * (n_q + n_q * d_i) + 8,
                            vt.len() as int <= n_q * d_i,
                    ;
                    assert(false);
                }
            }
            return Err(e);
        },
    };
    let elapsed = max64(max64(c1, c2), max64(c3, c4));
    proof {
        assert(mouts@.len() * w_i == vt.len() || (mouts@.len() as int / d_i) * w_i == n_q);
        if mouts@.len() * w_i == vt.len() {
            assert(vt.len() as int == (n_q / w_i) * (d_i * w_i));
            assert((n_q / w_i) * w_i == n_q) by {
                vstd::arithmetic::div_mod::lemma_fundamental_div_mod_converse_div(
                    n_q,
                    w_i,
                    souts@.len() as int,
                    0,
                );
                assert(n_q / w_i == souts@.len());
            }
            assert(vt.len() as int == n_q * d_i) by (nonlinear_arith)
                requires
                    vt.len() as int == (n_q / w_i) * (d_i * w_i),
                    (n_q / w_i) * w_i == n_q,
        ;
        }
        assert forall|p: int| 0 <= p < mouts@.len() implies (#[trigger] mouts@[p]).time
            <= elapsed by {
            assert(mouts@[p].time <= c4);
        }
    }
    Ok((elapsed, mouts))
}

} // verus!
