//! Verified end-to-end pipeline drivers.
//!
//! Each driver wires a small dataflow graph out of the primitive blocks,
//! runs it with a cooperative round-robin scheduler until every block has
//! shut down cleanly, and returns the elapsed cycle count together with the
//! timestamped output stream.  The contracts pin the output stream exactly
//! — a windowed reduce emits, per window, the fold of that window, and a
//! map emits the image of every input — and they promise success: on a
//! workload whose folds all go through, with a step budget of at least
//! three steps per element plus a constant, the driver must return `Ok`.
//! The returned cycle count bounds every output timestamp, and output
//! timestamps never decrease.

use vstd::prelude::*;

use crate::channel::{chans_wf, datas_of, max64, Channel, ChannelElement};
use crate::scalar::Scalar;
use crate::simulation::{SimError, StepOutcome};
use crate::templates::endpoints::{ConsumerContext, GeneratorContext};
use crate::templates::map::{map_apply_s, MapBlock, MapOp, MapTimings};
use crate::templates::matmul::{
    mac_fold_ok, mac_fold_s, Matmul, MatmulBehavior, MatmulTiming, ShapeInfo,
};
use crate::templates::reduce::{
    acc_view, reduce_acc_ok, reduce_acc_s, reduce_apply_s, win, Reduce, ReduceOp, ReduceTimings,
};
use crate::templates::flatmap::{flat_apply_s, flat_out, Flatmap, FlatmapOp, FlatmapTimings};
use crate::templates::scan::{
    scan_acc_ok, scan_acc_s, scan_apply_s, Scan, ScanOp, ScanTimings,
};
use crate::templates::types::{BroadcastSender, Receiver, Sender};
use crate::value::{vals_of, Val, Value};

verus! {

/// One unit of shutdown work left for a block that has not finished.
pub open spec fn live(done: bool) -> int {
    if done {
        0
    } else {
        1
    }
}

/// How much scheduling work a feed → transform → drain chain still has:
/// elements the generator must emit, elements the middle block must
/// consume, outputs the consumer must drain, and one shutdown step per
/// unfinished block.  Every productive step lowers it by one; it is zero
/// exactly when every block has finished.
pub open spec fn chain_measure(
    n: int,
    mid_total: int,
    gen_idx: int,
    gen_done: bool,
    taken_mid: int,
    mid_done: bool,
    taken_out: int,
    out_done: bool,
) -> int {
    (n - gen_idx) + live(gen_done) + (n - taken_mid) + live(mid_done) + (mid_total - taken_out)
        + live(out_done)
}

/// Window `j` of the workload folds without fault.
pub open spec fn window_ready<S: Scalar>(op: ReduceOp, vals: Seq<Val<S>>, w: int, j: int) -> bool {
    reduce_acc_ok(op, win(vals, w, j))
}

/// The workload divides into whole windows and every window folds without
/// fault: the condition under which a reduce run is owed success.
pub open spec fn reduce_ready<S: Scalar>(op: ReduceOp, vals: Seq<Val<S>>, w: int) -> bool {
    &&& vals.len() as int % w == 0
    &&& forall|j: int| 0 <= j < vals.len() as int / w ==> #[trigger] window_ready(op, vals, w, j)
}

/// Input `j` maps without fault.
pub open spec fn map_elem_ready<S: Scalar>(op: MapOp<S>, vals: Seq<Val<S>>, j: int) -> bool {
    map_apply_s(op, seq![vals[j]]) is Some
}

/// Every input maps without fault: the condition under which a map run is
/// owed success.
pub open spec fn map_ready<S: Scalar>(op: MapOp<S>, vals: Seq<Val<S>>) -> bool {
    forall|j: int| 0 <= j < vals.len() ==> #[trigger] map_elem_ready(op, vals, j)
}

/// Input `j` expands without fault.
pub open spec fn flat_elem_ready<S: Scalar>(op: FlatmapOp, vals: Seq<Val<S>>, j: int) -> bool {
    flat_apply_s(op, vals[j]) is Some
}

/// Every input expands without fault: the condition under which a flatmap
/// run is owed success.
pub open spec fn flat_ready<S: Scalar>(op: FlatmapOp, vals: Seq<Val<S>>) -> bool {
    forall|j: int| 0 <= j < vals.len() ==> #[trigger] flat_elem_ready(op, vals, j)
}

/// Window `j` of the workload scans without fault.
pub open spec fn scan_window_ready<S: Scalar>(
    op: ScanOp,
    vals: Seq<Val<S>>,
    w: int,
    j: int,
) -> bool {
    scan_acc_ok(op, win(vals, w, j))
}

/// The workload divides into whole windows and every window scans without
/// fault: the condition under which a scan run is owed success.
pub open spec fn scan_ready<S: Scalar>(op: ScanOp, vals: Seq<Val<S>>, w: int) -> bool {
    &&& vals.len() as int % w == 0
    &&& forall|j: int|
        0 <= j < vals.len() as int / w ==> #[trigger] scan_window_ready(op, vals, w, j)
}

/// Cell `j`'s multiply-accumulate over the operand streams stays
/// representable at every step.
pub open spec fn matmul_cell_ready<S: Scalar>(
    behavior: MatmulBehavior,
    la: Seq<Val<S>>,
    ra: Seq<Val<S>>,
    nd: int,
    kd: int,
    j: int,
) -> bool {
    match behavior {
        MatmulBehavior::Buffered => mac_fold_ok(
            la.subrange((j / nd) * kd, (j / nd) * kd + kd),
            ra.subrange(j * kd, j * kd + kd),
            kd,
        ),
        MatmulBehavior::Repeated => mac_fold_ok(
            la.subrange(j * kd, j * kd + kd),
            ra.subrange(j * kd, j * kd + kd),
            kd,
        ),
    }
}

/// The streams carry whole batches in the behavior's layout and every
/// cell's multiply-accumulate goes through: the condition under which a
/// matmul run is owed success.
pub open spec fn matmul_ready<S: Scalar>(
    behavior: MatmulBehavior,
    la: Seq<Val<S>>,
    ra: Seq<Val<S>>,
    shape: ShapeInfo,
) -> bool {
    let md = shape.m as int;
    let nd = shape.n as int;
    let kd = shape.k as int;
    &&& ra.len() as int % (md * nd * kd) == 0
    &&& (match behavior {
        MatmulBehavior::Buffered => la.len() * nd == ra.len(),
        MatmulBehavior::Repeated => la.len() == ra.len(),
    })
    &&& (forall|j: int|
        0 <= j < ra.len() as int / kd ==> #[trigger] matmul_cell_ready(behavior, la, ra, nd, kd, j))
}

/// A matmul block whose right stream is fully consumed after a whole
/// number of batches stands at a batch boundary.
proof fn lemma_boundary_from_right<S: Scalar>(mm: Matmul<S>, chans: Seq<Channel<S>>, nr: int)
    requires
        mm.wf(chans),
        chans[mm.right as int].taken() == nr,
        nr % ((mm.shape.m as int) * (mm.shape.n as int) * (mm.shape.k as int)) == 0,
        nr >= 0,
    ensures
        mm.kk == 0 && mm.ni == 0 && mm.mi == 0,
        mm.cells(chans) * (mm.shape.k as int) == nr,
        mm.cells(chans) == mm.batches * ((mm.shape.m as int) * (mm.shape.n as int)),
{
    let md = mm.shape.m as int;
    let nd = mm.shape.n as int;
    let kd = mm.shape.k as int;
    let q = mm.cells(chans);
    let g = md * nd * kd;
    assert(md * nd * kd >= 1) by (nonlinear_arith)
        requires
            md >= 1,
            nd >= 1,
            kd >= 1,
    ;
    assert(g >= 1);
    let bb = nr / g;
    assert(nr == bb * g) by {
        broadcast use vstd::arithmetic::div_mod::lemma_fundamental_div_mod;

        assert(nr == g * (nr / g) + nr % g);
    }
    assert(bb >= 0) by (nonlinear_arith)
        requires
            nr >= 0,
            g >= 1,
            nr == bb * g,
    ;
    assert(nr == (bb * md * nd) * kd) by (nonlinear_arith)
        requires
            nr == bb * g,
            g == md * nd * kd,
    ;
    assert(q * kd + mm.kk == nr);
    vstd::arithmetic::div_mod::lemma_fundamental_div_mod_converse_mod(nr, kd, q, mm.kk as int);
    vstd::arithmetic::div_mod::lemma_fundamental_div_mod_converse_mod(nr, kd, bb * md * nd, 0);
    assert(mm.kk == 0);
    vstd::arithmetic::div_mod::lemma_fundamental_div_mod_converse_div(nr, kd, q, 0);
    vstd::arithmetic::div_mod::lemma_fundamental_div_mod_converse_div(nr, kd, bb * md * nd, 0);
    assert(q == bb * md * nd);
    assert(q == (mm.batches * md + mm.mi) * nd + mm.ni);
    assert(q == (bb * md) * nd + 0) by (nonlinear_arith)
        requires
            q == bb * md * nd,
    ;
    vstd::arithmetic::div_mod::lemma_fundamental_div_mod_converse_mod(
        q,
        nd,
        mm.batches * md + mm.mi,
        mm.ni as int,
    );
    vstd::arithmetic::div_mod::lemma_fundamental_div_mod_converse_mod(q, nd, bb * md, 0);
    assert(mm.ni == 0);
    vstd::arithmetic::div_mod::lemma_fundamental_div_mod_converse_div(
        q,
        nd,
        mm.batches * md + mm.mi,
        0,
    );
    vstd::arithmetic::div_mod::lemma_fundamental_div_mod_converse_div(q, nd, bb * md, 0);
    assert(mm.batches * md + mm.mi == bb * md);
    vstd::arithmetic::div_mod::lemma_fundamental_div_mod_converse_mod(
        bb * md,
        md,
        mm.batches as int,
        mm.mi as int,
    );
    vstd::arithmetic::div_mod::lemma_fundamental_div_mod_converse_mod(bb * md, md, bb, 0);
    assert(mm.mi == 0);
    assert(q == mm.batches * (md * nd)) by (nonlinear_arith)
        requires
            q == (mm.batches * md + 0) * nd + 0,
    ;
}

/// A buffered matmul block whose left stream is fully consumed at a column
/// boundary, after whole batches, stands at a batch boundary.
proof fn lemma_boundary_from_left<S: Scalar>(
    mm: Matmul<S>,
    chans: Seq<Channel<S>>,
    nl: int,
    nr: int,
)
    requires
        mm.wf(chans),
        mm.behavior is Buffered,
        mm.ni == 0,
        chans[mm.left as int].taken() == nl,
        nl * (mm.shape.n as int) == nr,
        nr % ((mm.shape.m as int) * (mm.shape.n as int) * (mm.shape.k as int)) == 0,
        nr >= 0,
    ensures
        mm.kk == 0 && mm.mi == 0,
        mm.cells(chans) * (mm.shape.k as int) == nr,
{
    let md = mm.shape.m as int;
    let nd = mm.shape.n as int;
    let kd = mm.shape.k as int;
    let q = mm.cells(chans);
    let g = md * nd * kd;
    assert(md * nd * kd >= 1) by (nonlinear_arith)
        requires
            md >= 1,
            nd >= 1,
            kd >= 1,
    ;
    assert(g >= 1);
    let bb = nr / g;
    assert(nr == bb * g) by {
        broadcast use vstd::arithmetic::div_mod::lemma_fundamental_div_mod;

        assert(nr == g * (nr / g) + nr % g);
    }
    assert(bb >= 0) by (nonlinear_arith)
        requires
            nr >= 0,
            g >= 1,
            nr == bb * g,
    ;
    assert(nl == (bb * md) * kd) by (nonlinear_arith)
        requires
            nl * nd == nr,
            nr == bb * g,
            g == md * nd * kd,
            nd >= 1,
    ;
    assert(chans[mm.left as int].taken() == mm.row() * kd + mm.kk);
    vstd::arithmetic::div_mod::lemma_fundamental_div_mod_converse_mod(
        nl,
        kd,
        mm.row(),
        mm.kk as int,
    );
    vstd::arithmetic::div_mod::lemma_fundamental_div_mod_converse_mod(nl, kd, bb * md, 0);
    assert(mm.kk == 0);
    vstd::arithmetic::div_mod::lemma_fundamental_div_mod_converse_div(nl, kd, mm.row(), 0);
    vstd::arithmetic::div_mod::lemma_fundamental_div_mod_converse_div(nl, kd, bb * md, 0);
    assert(mm.row() == bb * md);
    vstd::arithmetic::div_mod::lemma_fundamental_div_mod_converse_mod(
        bb * md,
        md,
        mm.batches as int,
        mm.mi as int,
    );
    vstd::arithmetic::div_mod::lemma_fundamental_div_mod_converse_mod(bb * md, md, bb, 0);
    assert(mm.mi == 0);
    assert(q == (bb * md) * nd) by (nonlinear_arith)
        requires
            q == (mm.batches * md + mm.mi) * nd + mm.ni,
            mm.batches * md + mm.mi == bb * md,
            mm.ni == 0,
    ;
    assert(q * kd == nr) by (nonlinear_arith)
        requires
            q == (bb * md) * nd,
            nr == bb * (md * nd * kd),
    ;
}

/// On whole-batch streams, a matmul block that has shut down cleanly has
/// consumed both streams in full.
proof fn lemma_matmul_done_drains<S: Scalar>(
    mm: Matmul<S>,
    g1: GeneratorContext<S>,
    g2: GeneratorContext<S>,
    chans: Seq<Channel<S>>,
    la: Seq<Val<S>>,
    ra: Seq<Val<S>>,
    shape: ShapeInfo,
)
    requires
        chans_wf(chans),
        chans.len() == 3,
        mm.wf(chans),
        g1.wf(chans),
        g2.wf(chans),
        g1.id == 0 && g2.id == 1 && mm.id == 2,
        g1.output == 0 && g2.output == 1,
        mm.left == 0 && mm.right == 1,
        mm.shape == shape,
        g1.values@.len() == la.len(),
        g2.values@.len() == ra.len(),
        matmul_ready(mm.behavior, la, ra, shape),
        mm.done,
    ensures
        chans[0].taken() == la.len(),
        chans[1].taken() == ra.len(),
{
    let md = shape.m as int;
    let nd = shape.n as int;
    let kd = shape.k as int;
    let nl = la.len() as int;
    let nr = ra.len() as int;
    let g = md * nd * kd;
    assert(md * nd * kd >= 1) by (nonlinear_arith)
        requires
            md >= 1,
            nd >= 1,
            kd >= 1,
    ;
    assert(g >= 1);
    let bb = nr / g;
    assert(nr == bb * g) by {
        broadcast use vstd::arithmetic::div_mod::lemma_fundamental_div_mod;

        assert(nr == g * (nr / g) + nr % g);
    }
    assert(mm.kk == 0 && mm.ni == 0 && mm.mi == 0);
    let cells = mm.cells(chans);
    assert(chans[1].taken() == cells * kd + 0);
    if chans[1].spec_exhausted() {
        assert(chans[1].taken() == chans[1].hist@.len());
        assert(chans[1].closed);
        assert(g2.done);
        assert(chans[1].hist@.len() == g2.idx);
        assert(chans[1].taken() == nr);
        match mm.behavior {
            MatmulBehavior::Buffered => {
                assert(chans[0].taken() == mm.row() * kd + 0);
                assert(mm.row() == mm.batches * md);
                assert(nr == (bb * md * nd) * kd) by (nonlinear_arith)
                    requires
                        nr == bb * g,
                        g == md * nd * kd,
                ;
                vstd::arithmetic::div_mod::lemma_fundamental_div_mod_converse_div(
                    nr,
                    kd,
                    cells,
                    0,
                );
                vstd::arithmetic::div_mod::lemma_fundamental_div_mod_converse_div(
                    nr,
                    kd,
                    bb * md * nd,
                    0,
                );
                assert(cells == bb * md * nd);
                assert(cells == mm.batches * (md * nd)) by (nonlinear_arith)
                    requires
                        cells == (mm.batches * md + 0) * nd + 0,
                ;
                assert(cells == bb * (md * nd)) by (nonlinear_arith)
                    requires
                        cells == bb * md * nd,
                ;
                assert(md * nd >= 1) by (nonlinear_arith)
                    requires
                        md >= 1,
                        nd >= 1,
                ;
                vstd::arithmetic::div_mod::lemma_fundamental_div_mod_converse_div(
                    cells,
                    md * nd,
                    mm.batches as int,
                    0,
                );
                vstd::arithmetic::div_mod::lemma_fundamental_div_mod_converse_div(
                    cells,
                    md * nd,
                    bb,
                    0,
                );
                assert(mm.batches == bb);
                assert(chans[0].taken() == nl) by (nonlinear_arith)
                    requires
                        chans[0].taken() == mm.batches * md * kd,
                        mm.batches == bb,
                        nl * nd == nr,
                        nr == bb * (md * nd * kd),
                        nd >= 1,
                ;
            },
            MatmulBehavior::Repeated => {
                assert(chans[0].taken() == chans[1].taken());
                assert(nl == nr);
            },
        }
    } else {
        assert(chans[0].spec_exhausted());
        assert(chans[0].taken() == chans[0].hist@.len());
        assert(chans[0].closed);
        assert(g1.done);
        assert(chans[0].hist@.len() == g1.idx);
        assert(chans[0].taken() == nl);
        match mm.behavior {
            MatmulBehavior::Buffered => {
                lemma_boundary_from_left(mm, chans, nl, nr);
                assert(chans[1].taken() == nr);
            },
            MatmulBehavior::Repeated => {
                assert(chans[0].taken() == chans[1].taken());
                assert(nl == nr);
            },
        }
    }
}

/// On whole-batch streams whose multiply-accumulates all stay
/// representable, a matmul step cannot raise either fault.
proof fn lemma_matmul_fault_impossible<S: Scalar>(
    mm: Matmul<S>,
    g1: GeneratorContext<S>,
    g2: GeneratorContext<S>,
    chans: Seq<Channel<S>>,
    e: SimError,
    behavior: MatmulBehavior,
    la: Seq<Val<S>>,
    ra: Seq<Val<S>>,
    shape: ShapeInfo,
)
    requires
        chans_wf(chans),
        chans.len() == 3,
        mm.wf(chans),
        g1.wf(chans),
        g2.wf(chans),
        g1.id == 0 && g2.id == 1 && mm.id == 2,
        g1.output == 0 && g2.output == 1,
        mm.left == 0 && mm.right == 1,
        mm.behavior == behavior,
        mm.shape == shape,
        vals_of(g1.values@) == la,
        vals_of(g2.values@) == ra,
        g1.values@.len() == la.len(),
        g2.values@.len() == ra.len(),
        matmul_ready(behavior, la, ra, shape),
        e == SimError::ProtocolViolation ==> (chans[1].spec_exhausted() || ((match behavior {
            MatmulBehavior::Buffered => mm.ni == 0,
            MatmulBehavior::Repeated => true,
        }) && chans[0].spec_exhausted())) && !(mm.mi == 0 && mm.ni == 0 && mm.kk == 0),
        e == SimError::BadPayload ==> chans[1].sent().len() > chans[1].taken()
            && chans[0].sent().len() > mm.lbase(chans) + mm.kk && mm.mac_step_fails(chans),
    ensures
        e != SimError::ProtocolViolation && e != SimError::BadPayload,
{
    let md = shape.m as int;
    let nd = shape.n as int;
    let kd = shape.k as int;
    let nl = la.len() as int;
    let nr = ra.len() as int;
    let g = md * nd * kd;
    assert(md * nd * kd >= 1) by (nonlinear_arith)
        requires
            md >= 1,
            nd >= 1,
            kd >= 1,
    ;
    assert(g >= 1);
    let bb = nr / g;
    assert(nr == bb * g) by {
        broadcast use vstd::arithmetic::div_mod::lemma_fundamental_div_mod;

        assert(nr == g * (nr / g) + nr % g);
    }
    assert(nr == (bb * md * nd) * kd) by (nonlinear_arith)
        requires
            nr == bb * g,
            g == md * nd * kd,
    ;
    if e == SimError::ProtocolViolation {
        if chans[1].spec_exhausted() {
            assert(chans[1].taken() == chans[1].hist@.len());
            assert(chans[1].closed);
            assert(g2.done);
            assert(chans[1].hist@.len() == g2.idx);
            lemma_boundary_from_right(mm, chans, nr);
            assert(false);
        } else {
            assert(chans[0].spec_exhausted());
            assert(chans[0].closed);
            assert(g1.done);
            assert(chans[0].taken() == chans[0].hist@.len());
            assert(chans[0].hist@.len() == g1.idx);
            assert(chans[0].taken() == nl);
            match behavior {
                MatmulBehavior::Buffered => {
                    assert(mm.ni == 0);
                    lemma_boundary_from_left(mm, chans, nl, nr);
                    assert(false);
                },
                MatmulBehavior::Repeated => {
                    assert(chans[0].taken() == chans[1].taken());
                    assert(nl == nr);
                    lemma_boundary_from_right(mm, chans, nr);
                    assert(false);
                },
            }
        }
    } else if e == SimError::BadPayload {
        let q = mm.cells(chans);
        let lb = mm.lbase(chans);
        let kk = mm.kk as int;
        assert(chans[1].taken() == q * kd + kk);
        assert(chans[1].sent().len() == g2.idx);
        assert(q * kd + kk < nr);
        assert(q >= 0);
        assert(q < bb * md * nd) by (nonlinear_arith)
            requires
                q * kd + kk < nr,
                kk >= 0,
                nr == (bb * md * nd) * kd,
                kd >= 1,
        ;
        vstd::arithmetic::div_mod::lemma_fundamental_div_mod_converse_div(nr, kd, bb * md * nd, 0);
        assert(nr / kd == bb * md * nd);
        assert(matmul_cell_ready(behavior, la, ra, nd, kd, q));
        assert(lb == (match behavior {
            MatmulBehavior::Buffered => (q / nd) * kd,
            MatmulBehavior::Repeated => q * kd,
        })) by {
            match behavior {
                MatmulBehavior::Buffered => {
                    vstd::arithmetic::div_mod::lemma_fundamental_div_mod_converse_div(
                        q,
                        nd,
                        mm.batches * md + mm.mi,
                        mm.ni as int,
                    );
                    assert(q / nd == mm.row());
                },
                MatmulBehavior::Repeated => {},
            }
        }
        let laj = (match behavior {
            MatmulBehavior::Buffered => la.subrange((q / nd) * kd, (q / nd) * kd + kd),
            MatmulBehavior::Repeated => la.subrange(q * kd, q * kd + kd),
        });
        let raj = ra.subrange(q * kd, q * kd + kd);
        assert(0 <= q * kd && q * kd + kd <= nr) by (nonlinear_arith)
            requires
                q >= 0,
                q < bb * md * nd,
                nr == (bb * md * nd) * kd,
                kd >= 1,
        ;
        assert(0 <= lb && lb + kd <= nl || behavior is Repeated) by {
            match behavior {
                MatmulBehavior::Buffered => {
                    assert(mm.row() * nd + mm.ni == q);
                    assert(mm.row() < bb * md) by (nonlinear_arith)
                        requires
                            mm.row() * nd + mm.ni == q,
                            q < bb * md * nd,
                            mm.ni >= 0,
                            nd >= 1,
                    ;
                    assert(nl == (bb * md) * kd) by (nonlinear_arith)
                        requires
                            nl * nd == nr,
                            nr == (bb * md * nd) * kd,
                            nd >= 1,
                    ;
                    assert(0 <= mm.row() * kd && mm.row() * kd + kd <= (bb * md) * kd) by (
                    nonlinear_arith)
                        requires
                            0 <= mm.row(),
                            mm.row() < bb * md,
                            kd >= 1,
                    ;
                },
                MatmulBehavior::Repeated => {},
            }
        }
        assert(behavior is Repeated ==> nl == nr);
        assert(mac_fold_ok(laj, raj, kd));
        crate::templates::matmul::lemma_mac_fold_ok_prefix(laj, raj, kd, kk + 1);
        let lch = chans[0].sent().subrange(lb, lb + kk + 1);
        let rch = chans[1].sent().subrange(q * kd, q * kd + kk + 1);
        assert(lb >= 0) by {
            match behavior {
                MatmulBehavior::Buffered => {
                    assert((q / nd) * kd >= 0) by (nonlinear_arith)
                        requires
                            q >= 0,
                            nd >= 1,
                            kd >= 1,
                            q / nd >= 0,
                    ;
                    assert(q / nd >= 0) by {
                        broadcast use vstd::arithmetic::div_mod::lemma_div_pos_is_pos;

                    }
                },
                MatmulBehavior::Repeated => {
                    assert(q * kd >= 0) by (nonlinear_arith)
                        requires
                            q >= 0,
                            kd >= 1,
                    ;
                },
            }
        }
        assert(chans[0].sent().len() == g1.idx);
        assert(chans[1].sent().len() == g2.idx);
        assert forall|x: int| 0 <= x < kk + 1 implies lch[x] == laj[x] && rch[x] == raj[x] by {
            assert(g1.emitted_ok(chans, lb + x));
            assert(chans[0].sent()[lb + x] == g1.values@[lb + x]@);
            assert(vals_of(g1.values@)[lb + x] == g1.values@[lb + x]@);
            assert(lch[x] == chans[0].sent()[lb + x]);
            assert(laj[x] == la[lb + x]);
            assert(g2.emitted_ok(chans, q * kd + x));
            assert(chans[1].sent()[q * kd + x] == g2.values@[q * kd + x]@);
            assert(vals_of(g2.values@)[q * kd + x] == g2.values@[q * kd + x]@);
            assert(rch[x] == chans[1].sent()[q * kd + x]);
            assert(raj[x] == ra[q * kd + x]);
        }
        crate::templates::matmul::lemma_mac_fold_agree(lch, rch, laj, raj, kk + 1);
        assert(mac_fold_ok(lch, rch, kk + 1));
        assert(!mm.mac_step_fails(chans));
        assert(false);
    }
}

/// Runs `values` through a windowed reduce of period `reset_freq` and
/// returns the elapsed cycles and the output stream.
///
/// On success the input length was a whole number of windows, output `j`
/// is exactly the fold of window `j` with `op`, the cycle count bounds
/// every output timestamp, and output timestamps never decrease.
/// Conversely, success is owed: when every window folds without fault and
/// the step budget admits three steps per element plus six, the run cannot
/// fail.
#[verifier::rlimit(100)]
pub fn reduce_pipeline<S: Scalar>(
    values: Vec<Value<S>>,
    reset_freq: usize,
    depth: usize,
    op: ReduceOp,
    timings: ReduceTimings,
    fuel: u64,
) -> (r: Result<(u64, Vec<ChannelElement<S>>), SimError>)
    requires
        reset_freq >= 1,
    ensures
        match r {
            Ok(out) => {
                let n = vals_of(values@).len() as int;
                let w = reset_freq as int;
                &&& n % w == 0
                &&& out.1@.len() * w == n
                &&& (forall|j: int|
                    0 <= j < out.1@.len() ==> reduce_acc_ok(
                        op,
                        #[trigger] win(vals_of(values@), w, j),
                    ) && Some((#[trigger] out.1@[j]).data@) == reduce_acc_s(
                        op,
                        win(vals_of(values@), w, j),
                    ))
                &&& (forall|j: int| 0 <= j < out.1@.len() ==> (#[trigger] out.1@[j]).time <= out.0)
                &&& (forall|i: int, j: int|
                    0 <= i <= j < out.1@.len() ==> (#[trigger] out.1@[i]).time
                        <= (#[trigger] out.1@[j]).time)
            },
            Err(_) => true,
        },
        reduce_ready(op, vals_of(values@), reset_freq as int) && fuel as int >= 3 * values@.len()
            + 6 ==> r is Ok,
{
    let ghost vals0 = vals_of(values@);
    let ghost n = vals0.len() as int;
    let ghost w_i = reset_freq as int;
    let ghost fuel0 = fuel as int;
    let ghost hyp = reduce_ready(op, vals0, w_i) && fuel0 >= 3 * n + 6;
    let ghost nw = n / w_i;
    let cap = if depth == 0 {
        1
    } else {
        depth
    };
    let mut chans: Vec<Channel<S>> = Vec::new();
    chans.push(Channel::new(cap, 0, 1));
    chans.push(Channel::new(cap, 1, 2));
    let mut g = GeneratorContext::new(values, Sender { id: 0 });
    let mut rd = Reduce::new(reset_freq, Receiver { id: 0 }, Sender { id: 1 }, op, timings);
    rd.id = 1;
    let mut cs = ConsumerContext::new(Receiver { id: 1 });
    cs.id = 2;
    proof {
        assert(chans@.len() == 2);
        assert(chans@[0].wf());
        assert(chans@[1].wf());
        assert(g.wf(chans@));
        assert(rd.wf(chans@)) by {
            assert(rd.emitted(chans@) == 0);
            assert(chans@[0].taken() == 0 * (reset_freq as int) + 0);
            assert(rd.partial(chans@) =~= Seq::<Val<S>>::empty());
        }
        assert(cs.wf(chans@));
        assert(g.values@.len() == n);
        if hyp {
            broadcast use vstd::arithmetic::div_mod::lemma_div_nonincreasing;

            assert(nw <= n);
            assert(nw >= 0) by {
                broadcast use vstd::arithmetic::div_mod::lemma_div_pos_is_pos;

                assert(n >= 0);
            }
        }
    }
    let mut fuel = fuel;
    loop
        invariant
            chans@.len() == 2,
            chans_wf(chans@),
            g.wf(chans@),
            rd.wf(chans@),
            cs.wf(chans@),
            g.id == 0,
            rd.id == 1,
            cs.id == 2,
            g.output == 0,
            rd.input == 0,
            rd.output == 1,
            cs.input == 1,
            rd.op == op,
            rd.reset_freq == reset_freq,
            vals_of(g.values@) == vals0,
            g.values@.len() == n,
            n == vals0.len(),
            w_i == reset_freq as int,
            nw == n / w_i,
            hyp == (reduce_ready(op, vals0, w_i) && fuel0 >= 3 * n + 6),
            hyp ==> fuel as int >= chain_measure(
                n,
                nw,
                g.idx as int,
                g.done,
                chans@[0].taken(),
                rd.done,
                chans@[1].taken(),
                cs.done,
            ),
        decreases fuel,
    {
        if g.done && rd.done && cs.done {
            let elapsed = max64(g.clock, max64(rd.clock, cs.clock));
            proof {
                let w = reset_freq as int;
                let q = rd.emitted(chans@);
                assert(chans@[0].spec_exhausted());
                assert(chans@[0].wf());
                assert(chans@[0].taken() == chans@[0].hist@.len());
                assert(chans@[0].sent().len() == n);
                assert(chans@[0].taken() == q * w);
                assert(chans@[1].spec_exhausted());
                assert(chans@[1].wf());
                assert(cs.collected@.len() == chans@[1].taken());
                assert(chans@[1].taken() == chans@[1].hist@.len());
                assert(cs.collected@.len() == q);
                assert(n % w == 0 && q * w == n) by (nonlinear_arith)
                    requires
                        n == q * w,
                        w >= 1,
                ;
                assert forall|j: int|
                    0 <= j < cs.collected@.len() implies reduce_acc_ok(
                    op,
                    #[trigger] win(vals0, w, j),
                ) && Some((#[trigger] cs.collected@[j]).data@) == reduce_acc_s(
                    op,
                    win(vals0, w, j),
                ) by {
                    assert(rd.window_ok(chans@, j));
                    assert(cs.record_ok(chans@, j));
                    assert(cs.collected@[j].data@ == chans@[1].hist@[j].1);
                    assert(chans@[1].sent()[j] == chans@[1].hist@[j].1);
                    assert(win(chans@[0].sent(), w, j) =~= win(vals0, w, j)) by {
                        assert(j * w + w <= q * w) by (nonlinear_arith)
                            requires
                                j + 1 <= q,
                                w >= 1,
                        ;
                        assert forall|x: int| j * w <= x < j * w + w implies chans@[0].sent()[x]
                            == vals0[x] by {
                            assert(g.emitted_ok(chans@, x));
                            assert(vals_of(g.values@)[x] == g.values@[x]@);
                        }
                    }
                }
                assert forall|j: int|
                    0 <= j < cs.collected@.len() implies (#[trigger] cs.collected@[j]).time
                    <= elapsed by {
                    assert(cs.record_ok(chans@, j));
                    assert(chans@[1].deq_times@[j] >= chans@[1].hist@[j].0);
                    assert(chans@[1].deq_times@[j] <= chans@[1].deq_times@[chans@[1].taken() - 1]);
                    assert(chans@[1].deq_last() <= cs.clock);
                }
                assert forall|i: int, j: int|
                    0 <= i <= j < cs.collected@.len() implies (#[trigger] cs.collected@[i]).time
                    <= (#[trigger] cs.collected@[j]).time by {
                    assert(cs.record_ok(chans@, i));
                    assert(cs.record_ok(chans@, j));
                    assert(chans@[1].hist@[i].0 <= chans@[1].hist@[j].0);
                }
            }
            return Ok((elapsed, cs.collected));
        }
        if fuel == 0 {
            proof {
                if hyp {
                    assert(g.idx <= n);
                    assert(chans@[0].taken() <= chans@[0].hist@.len());
                    assert(chans@[0].hist@.len() == g.idx);
                    let q = rd.emitted(chans@);
                    assert(chans@[0].taken() == q * w_i + rd.iter);
                    assert(q * w_i <= n);
                    assert(n == (n / w_i) * w_i + n % w_i && n % w_i >= 0) by {
                        broadcast use vstd::arithmetic::div_mod::lemma_fundamental_div_mod;
                        broadcast use vstd::arithmetic::div_mod::lemma_mod_bound;

                        assert(n == w_i * (n / w_i) + n % w_i);
                    }
                    assert(q <= nw) by (nonlinear_arith)
                        requires
                            q * w_i <= n,
                            nw == n / w_i,
                            w_i >= 1,
                            n == (n / w_i) * w_i + n % w_i,
                            n % w_i >= 0,
                    ;
                    assert(chans@[1].taken() <= chans@[1].hist@.len());
                    assert(chans@[1].hist@.len() == q);
                    assert(chain_measure(
                        n,
                        nw,
                        g.idx as int,
                        g.done,
                        chans@[0].taken(),
                        rd.done,
                        chans@[1].taken(),
                        cs.done,
                    ) >= 1);
                    assert(false);
                }
            }
            return Err(SimError::FuelExhausted);
        }
        fuel = fuel - 1;
        let ghost gb = g;
        let ghost rdb = rd;
        let ghost csb = cs;
        let ghost ch_head = chans@;
        let ghost pre1 = chans@;
        let (g2, chans2, o1) = g.step(chans);
        g = g2;
        chans = chans2;
        proof {
            rd.lemma_wf_frame(pre1, chans@, 0);
            cs.lemma_wf_frame(pre1, chans@, 0);
            assert(crate::channel::chan_frame(pre1[0], chans@[0], 0));
            assert(chans@[0].deq_times == pre1[0].deq_times);
            assert(crate::channel::chan_frame(pre1[1], chans@[1], 0));
            assert(chans@[1].deq_times == pre1[1].deq_times);
        }
        let ghost pre2 = chans@;
        let (rd2, chans3, o2) = rd.step(chans);
        rd = rd2;
        chans = chans3;
        proof {
            g.lemma_wf_frame(pre2, chans@, 1);
            cs.lemma_wf_frame(pre2, chans@, 1);
            assert(crate::channel::chan_frame(pre2[1], chans@[1], 1));
            assert(chans@[1].deq_times == pre2[1].deq_times);
        }
        match o2 {
            StepOutcome::Fault(e) => {
                proof {
                    if hyp {
                        assert(rdb.wf(pre2));
                        assert(g.wf(pre2));
                        let t0 = pre2[0].taken();
                        let q = rdb.emitted(pre2);
                        let it = rdb.iter as int;
                        assert(t0 == q * w_i + it);
                        assert(0 <= it < w_i);
                        assert(n == (n / w_i) * w_i + n % w_i) by {
                            broadcast use vstd::arithmetic::div_mod::lemma_fundamental_div_mod;

                            assert(n == w_i * (n / w_i) + n % w_i);
                        }
                        if e == SimError::ProtocolViolation {
                            assert(pre2[0].spec_exhausted());
                            assert(pre2[0].wf());
                            assert(t0 == pre2[0].hist@.len());
                            assert(pre2[0].closed);
                            assert(g.done);
                            assert(g.idx == g.values@.len());
                            assert(pre2[0].hist@.len() == n);
                            vstd::arithmetic::div_mod::lemma_fundamental_div_mod_converse_mod(
                                n,
                                w_i,
                                q,
                                it,
                            );
                            assert(it == n % w_i);
                            assert(it == 0);
                            assert(rdb.iter != 0);
                            assert(false);
                        } else {
                            assert(e == SimError::BadPayload);
                            assert(pre2[0].sent().len() > t0);
                            assert(pre2[0].sent().len() == g.idx);
                            assert(t0 < n);
                            assert(q * w_i <= t0);
                            assert(q < nw) by (nonlinear_arith)
                                requires
                                    q * w_i < n,
                                    nw == n / w_i,
                                    n == nw * w_i + n % w_i,
                                    n % w_i == 0,
                                    w_i >= 1,
                            ;
                            assert(window_ready(op, vals0, w_i, q));
                            let wq = win(vals0, w_i, q);
                            assert(reduce_acc_ok(op, wq));
                            assert((q + 1) * w_i <= n) by (nonlinear_arith)
                                requires
                                    q < nw,
                                    n == nw * w_i + n % w_i,
                                    n % w_i == 0,
                                    w_i >= 1,
                            ;
                            assert(0 <= q * w_i) by (nonlinear_arith)
                                requires
                                    q >= 0,
                                    w_i >= 1,
                            ;
                            assert(q * w_i + w_i <= n) by (nonlinear_arith)
                                requires
                                    (q + 1) * w_i <= n,
                            ;
                            assert(wq.len() == w_i);
                            crate::templates::reduce::lemma_acc_ok_prefix(op, wq, it + 1);
                            let pfx = wq.subrange(0, it + 1);
                            assert(reduce_acc_ok(op, pfx));
                            assert(pfx.len() == it + 1);
                            assert forall|x: int|
                                0 <= x < it + 1 implies pfx[x] == pre2[0].sent()[q * w_i + x] by {
                                assert(pfx[x] == vals0[q * w_i + x]);
                                assert(g.emitted_ok(pre2, q * w_i + x));
                                assert(vals_of(g.values@)[q * w_i + x] == g.values@[q * w_i + x]@);
                            }
                            assert(pfx.drop_last() =~= rdb.partial(pre2));
                            assert(pfx.last() == pre2[0].sent()[t0]);
                            assert(reduce_apply_s(
                                op,
                                pfx.last(),
                                reduce_acc_s(op, pfx.drop_last()),
                            ) is Some);
                            assert(acc_view(rdb.accum) == reduce_acc_s(op, rdb.partial(pre2)));
                            assert(reduce_acc_s(op, pfx.drop_last()) == reduce_acc_s(
                                op,
                                rdb.partial(pre2),
                            ));
                            assert(reduce_apply_s(
                                op,
                                pre2[0].sent()[t0],
                                acc_view(rdb.accum),
                            ) is None);
                            assert(false);
                        }
                    }
                }
                return Err(e);
            },
            _ => {},
        }
        let ghost pre3 = chans@;
        let (cs2, chans4, o3) = cs.step(chans);
        cs = cs2;
        chans = chans4;
        proof {
            g.lemma_wf_frame(pre3, chans@, 2);
            rd.lemma_wf_frame(pre3, chans@, 2);
            assert(crate::channel::chan_frame(pre3[0], chans@[0], 2));
            assert(chans@[0].deq_times == pre3[0].deq_times);
        }
        match (o1, o2, o3) {
            (StepOutcome::Blocked, StepOutcome::Blocked, StepOutcome::Blocked) => {
                proof {
                    assert(pre2 == ch_head);
                    assert(pre3 == ch_head);
                    assert(g == gb && rd == rdb && cs == csb);
                    if !csb.done {
                        assert(ch_head[1].queue@.len() == 0 && !ch_head[1].closed);
                        assert(!rdb.done);
                        assert(ch_head[1].queue@.len() < ch_head[1].cap);
                        assert(ch_head[0].queue@.len() == 0 && !ch_head[0].closed);
                        assert(!gb.done);
                        assert(gb.idx < gb.values@.len() && ch_head[0].queue@.len()
                            >= ch_head[0].cap);
                        assert(ch_head[0].cap >= 1);
                        assert(false);
                    } else {
                        assert(ch_head[1].spec_exhausted());
                        assert(ch_head[1].closed);
                        assert(rdb.done);
                        assert(ch_head[0].spec_exhausted());
                        assert(ch_head[0].closed);
                        assert(gb.done);
                        assert(false);
                    }
                }
                return Err(SimError::Deadlock);
            },
            _ => {},
        }
        proof {
            if hyp {
                let d1: int = if o1 is Blocked {
                    0
                } else {
                    1
                };
                let d2: int = if o2 is Blocked {
                    0
                } else {
                    1
                };
                let d3: int = if o3 is Blocked {
                    0
                } else {
                    1
                };
                assert((n - g.idx) + live(g.done) + d1 <= (n - gb.idx) + live(gb.done)) by {
                    match o1 {
                        StepOutcome::Progress => {
                            assert(g.idx == gb.idx + 1 && !g.done && !gb.done);
                        },
                        StepOutcome::Finished => {
                            assert(g.idx == gb.idx && g.done && !gb.done);
                        },
                        StepOutcome::Blocked => {
                            assert(g == gb);
                        },
                        StepOutcome::Fault(_) => {
                            assert(false);
                        },
                    }
                }
                assert(chans@[0].taken() == pre3[0].taken());
                assert(pre2[0].taken() == ch_head[0].taken());
                assert((n - chans@[0].taken()) + live(rd.done) + d2 <= (n - ch_head[0].taken())
                    + live(rdb.done)) by {
                    match o2 {
                        StepOutcome::Progress => {
                            assert(pre3[0].taken() == pre2[0].taken() + 1 && !rd.done && !rdb.done);
                        },
                        StepOutcome::Finished => {
                            assert(pre3[0].taken() == pre2[0].taken() && rd.done && !rdb.done);
                        },
                        StepOutcome::Blocked => {
                            assert(rd == rdb && pre3 == pre2);
                        },
                        StepOutcome::Fault(_) => {
                            assert(false);
                        },
                    }
                }
                assert(pre3[1].taken() == pre2[1].taken());
                assert(pre2[1].taken() == ch_head[1].taken());
                assert((nw - chans@[1].taken()) + live(cs.done) + d3 <= (nw - ch_head[1].taken())
                    + live(csb.done)) by {
                    assert(csb.wf(pre3));
                    assert(cs.wf(chans@));
                    assert(pre3[1].taken() == csb.collected@.len());
                    assert(chans@[1].taken() == cs.collected@.len());
                    match o3 {
                        StepOutcome::Progress => {
                            assert(cs.collected@.len() == csb.collected@.len() + 1 && !cs.done
                                && !csb.done);
                        },
                        StepOutcome::Finished => {
                            assert(cs.collected@.len() == csb.collected@.len() && cs.done
                                && !csb.done);
                        },
                        StepOutcome::Blocked => {
                            assert(cs == csb && chans@ == pre3);
                        },
                        StepOutcome::Fault(_) => {
                            assert(false);
                        },
                    }
                }
                assert(d1 + d2 + d3 >= 1);
                assert(chain_measure(
                    n,
                    nw,
                    g.idx as int,
                    g.done,
                    chans@[0].taken(),
                    rd.done,
                    chans@[1].taken(),
                    cs.done,
                ) + 1 <= chain_measure(
                    n,
                    nw,
                    gb.idx as int,
                    gb.done,
                    ch_head[0].taken(),
                    rdb.done,
                    ch_head[1].taken(),
                    csb.done,
                ));
            }
        }
    }
}

/// Runs `values` through a map block and returns the elapsed cycles and
/// the output stream.
///
/// On success there is one output per input, in order, output `j` is
/// exactly the image of input `j` under `op`, the cycle count bounds every
/// output timestamp, and output timestamps never decrease.  Output `j` is
/// stamped no earlier than cycle `j + 1` (its arrival) plus the map
/// latency, saturating at the clock's ceiling.  Conversely, success is
/// owed: when every input maps without fault and the step budget admits
/// three steps per element plus six, the run cannot fail.
#[verifier::rlimit(100)]
pub fn map_pipeline<S: Scalar>(
    values: Vec<Value<S>>,
    depth: usize,
    op: MapOp<S>,
    timings: MapTimings,
    fuel: u64,
) -> (r: Result<(u64, Vec<ChannelElement<S>>), SimError>)
    ensures
        match r {
            Ok(out) => {
                &&& out.1@.len() == values@.len()
                &&& (forall|j: int|
                    0 <= j < out.1@.len() ==> map_apply_s(op, seq![vals_of(values@)[j]]) == Some(
                        (#[trigger] out.1@[j]).data@,
                    ))
                &&& (forall|j: int| 0 <= j < out.1@.len() ==> (#[trigger] out.1@[j]).time <= out.0)
                &&& (forall|j: int|
                    0 <= j < out.1@.len() ==> (#[trigger] out.1@[j]).time >= crate::channel::sat_add_s(
                        (j + 1) as u64,
                        timings.latency,
                    ))
                &&& (forall|i: int, j: int|
                    0 <= i <= j < out.1@.len() ==> (#[trigger] out.1@[i]).time
                        <= (#[trigger] out.1@[j]).time)
            },
            Err(_) => true,
        },
        map_ready(op, vals_of(values@)) && fuel as int >= 3 * values@.len() + 6 ==> r is Ok,
{
    let ghost vals0 = vals_of(values@);
    let ghost n = vals0.len() as int;
    let ghost fuel0 = fuel as int;
    let ghost hyp = map_ready(op, vals0) && fuel0 >= 3 * n + 6;
    let cap = if depth == 0 {
        1
    } else {
        depth
    };
    let mut chans: Vec<Channel<S>> = Vec::new();
    chans.push(Channel::new(cap, 0, 1));
    chans.push(Channel::new(cap, 1, 2));
    let mut g = GeneratorContext::new(values, Sender { id: 0 });
    let mut inputs: Vec<Receiver> = Vec::new();
    inputs.push(Receiver { id: 0 });
    let mut targets: Vec<Sender> = Vec::new();
    targets.push(Sender { id: 1 });
    let mut mp = MapBlock::new(inputs, BroadcastSender { targets }, op, timings);
    mp.id = 1;
    let mut cs = ConsumerContext::new(Receiver { id: 1 });
    cs.id = 2;
    proof {
        assert(chans@.len() == 2);
        assert(chans@[0].wf());
        assert(chans@[1].wf());
        assert(g.wf(chans@));
        assert(mp.inputs@ =~= seq![0usize]);
        assert(mp.targets@ =~= seq![1usize]);
        assert(mp.inputs@ == seq![0usize]);
        assert(mp.targets@ == seq![1usize]);
        assert(mp.wf(chans@)) by {
            assert forall|i: int| 0 <= i < mp.inputs@.len() implies #[trigger] mp.in_ok(
                chans@,
                i,
            ) by {
                assert(i == 0);
            }
            assert forall|t: int| 0 <= t < mp.targets@.len() implies #[trigger] mp.target_ok(
                chans@,
                t,
            ) by {
                assert(t == 0);
            }
        }
        assert(cs.wf(chans@));
        assert(g.values@.len() == n);
    }
    let mut fuel = fuel;
    loop
        invariant
            chans@.len() == 2,
            chans_wf(chans@),
            g.wf(chans@),
            mp.wf(chans@),
            cs.wf(chans@),
            g.id == 0,
            mp.id == 1,
            cs.id == 2,
            g.output == 0,
            mp.inputs@ == seq![0usize],
            mp.targets@ == seq![1usize],
            cs.input == 1,
            mp.op == op,
            mp.timings == timings,
            vals_of(g.values@) == vals0,
            g.values@.len() == n,
            n == vals0.len(),
            hyp == (map_ready(op, vals0) && fuel0 >= 3 * n + 6),
            hyp ==> fuel as int >= chain_measure(
                n,
                n,
                g.idx as int,
                g.done,
                chans@[0].taken(),
                mp.done,
                chans@[1].taken(),
                cs.done,
            ),
        decreases fuel,
    {
        if g.done && mp.done && cs.done {
            let elapsed = max64(g.clock, max64(mp.clock, cs.clock));
            proof {
                assert(chans@[0].spec_exhausted());
                assert(chans@[0].wf());
                assert(mp.in_ok(chans@, 0));
                assert(mp.target_ok(chans@, 0));
                assert(chans@[0].taken() == chans@[0].hist@.len());
                assert(chans@[0].sent().len() == n);
                assert(mp.count == n);
                assert(chans@[1].wf());
                assert(cs.collected@.len() == chans@[1].taken());
                assert(chans@[1].taken() == chans@[1].hist@.len());
                assert(cs.collected@.len() == n);
                assert forall|j: int|
                    0 <= j < cs.collected@.len() implies map_apply_s(op, seq![vals0[j]]) == Some(
                    (#[trigger] cs.collected@[j]).data@,
                ) by {
                    assert(cs.record_ok(chans@, j));
                    assert(cs.collected@[j].data@ == chans@[1].hist@[j].1);
                    assert(chans@[1].sent()[j] == chans@[1].hist@[j].1);
                    assert(map_apply_s(op, crate::channel::in_vals_at(chans@, mp.inputs@, j))
                        == Some(chans@[1].sent()[j]));
                    assert(crate::channel::in_vals_at(chans@, mp.inputs@, j) =~= seq![vals0[j]])
                        by {
                        assert(g.emitted_ok(chans@, j));
                        assert(vals_of(g.values@)[j] == g.values@[j]@);
                    }
                }
                assert forall|j: int|
                    0 <= j < cs.collected@.len() implies (#[trigger] cs.collected@[j]).time
                    <= elapsed by {
                    assert(cs.record_ok(chans@, j));
                    assert(chans@[1].deq_times@[j] >= chans@[1].hist@[j].0);
                    assert(chans@[1].deq_times@[j] <= chans@[1].deq_times@[chans@[1].taken() - 1]);
                    assert(chans@[1].deq_last() <= cs.clock);
                }
                assert forall|j: int|
                    0 <= j < cs.collected@.len() implies (#[trigger] cs.collected@[j]).time
                    >= crate::channel::sat_add_s((j + 1) as u64, timings.latency) by {
                    assert(cs.record_ok(chans@, j));
                    assert(mp.lat_ok(chans@, 0, j));
                    assert(g.emitted_ok(chans@, j));
                    assert(chans@[0].hist@[j].0 as int >= j + 1);
                    assert(chans@[1].hist@[j].0 >= crate::channel::sat_add_s(
                        chans@[0].hist@[j].0,
                        timings.latency,
                    ));
                    assert(crate::channel::sat_add_s(chans@[0].hist@[j].0, timings.latency)
                        >= crate::channel::sat_add_s((j + 1) as u64, timings.latency));
                }
                assert forall|i: int, j: int|
                    0 <= i <= j < cs.collected@.len() implies (#[trigger] cs.collected@[i]).time
                    <= (#[trigger] cs.collected@[j]).time by {
                    assert(cs.record_ok(chans@, i));
                    assert(cs.record_ok(chans@, j));
                    assert(chans@[1].hist@[i].0 <= chans@[1].hist@[j].0);
                }
            }
            return Ok((elapsed, cs.collected));
        }
        if fuel == 0 {
            proof {
                if hyp {
                    assert(g.idx <= n);
                    assert(chans@[0].taken() <= chans@[0].hist@.len());
                    assert(chans@[0].hist@.len() == g.idx);
                    assert(mp.in_ok(chans@, 0));
                    assert(mp.target_ok(chans@, 0));
                    assert(chans@[1].taken() <= chans@[1].hist@.len());
                    assert(chans@[1].hist@.len() == mp.count);
                    assert(mp.count == chans@[0].taken());
                    assert(chain_measure(
                        n,
                        n,
                        g.idx as int,
                        g.done,
                        chans@[0].taken(),
                        mp.done,
                        chans@[1].taken(),
                        cs.done,
                    ) >= 1);
                    assert(false);
                }
            }
            return Err(SimError::FuelExhausted);
        }
        fuel = fuel - 1;
        let ghost gb = g;
        let ghost mpb = mp;
        let ghost csb = cs;
        let ghost ch_head = chans@;
        let ghost pre1 = chans@;
        let (g2, chans2, o1) = g.step(chans);
        g = g2;
        chans = chans2;
        proof {
            mp.lemma_wf_frame(pre1, chans@, 0);
            cs.lemma_wf_frame(pre1, chans@, 0);
            assert(mpb.in_ok(pre1, 0));
            assert(crate::channel::chan_frame(pre1[0], chans@[0], 0));
            assert(chans@[0].deq_times == pre1[0].deq_times);
            assert(crate::channel::chan_frame(pre1[1], chans@[1], 0));
            assert(chans@[1].deq_times == pre1[1].deq_times);
        }
        let ghost pre2 = chans@;
        let (mp2, chans3, o2) = mp.step(chans);
        mp = mp2;
        chans = chans3;
        proof {
            g.lemma_wf_frame(pre2, chans@, 1);
            cs.lemma_wf_frame(pre2, chans@, 1);
            assert(crate::channel::chan_frame(pre2[1], chans@[1], 1));
            assert(chans@[1].deq_times == pre2[1].deq_times);
        }
        match o2 {
            StepOutcome::Fault(e) => {
                proof {
                    if hyp {
                        assert(mpb.wf(pre2));
                        assert(g.wf(pre2));
                        assert(e == SimError::BadPayload);
                        assert(map_apply_s(
                            op,
                            crate::channel::in_vals_at(pre2, mpb.inputs@, mpb.count as int),
                        ) is None);
                        assert(pre2[0].sent().len() > mpb.count);
                        assert(pre2[0].sent().len() == g.idx);
                        assert(mpb.count < n);
                        assert(map_elem_ready(op, vals0, mpb.count as int));
                        assert(crate::channel::in_vals_at(pre2, mpb.inputs@, mpb.count as int)
                            =~= seq![vals0[mpb.count as int]]) by {
                            assert(g.emitted_ok(pre2, mpb.count as int));
                            assert(vals_of(g.values@)[mpb.count as int]
                                == g.values@[mpb.count as int]@);
                        }
                        assert(false);
                    }
                }
                return Err(e);
            },
            _ => {},
        }
        let ghost pre3 = chans@;
        let (cs2, chans4, o3) = cs.step(chans);
        cs = cs2;
        chans = chans4;
        proof {
            g.lemma_wf_frame(pre3, chans@, 2);
            mp.lemma_wf_frame(pre3, chans@, 2);
            assert(mp.in_ok(pre3, 0));
            assert(crate::channel::chan_frame(pre3[0], chans@[0], 2));
            assert(chans@[0].deq_times == pre3[0].deq_times);
        }
        match (o1, o2, o3) {
            (StepOutcome::Blocked, StepOutcome::Blocked, StepOutcome::Blocked) => {
                proof {
                    assert(pre2 == ch_head);
                    assert(pre3 == ch_head);
                    assert(g == gb && mp == mpb && cs == csb);
                    assert(mpb.in_ok(ch_head, 0));
                    assert(mpb.target_ok(ch_head, 0));
                    if !csb.done {
                        assert(ch_head[1].queue@.len() == 0 && !ch_head[1].closed);
                        assert(!mpb.done);
                        if exists|t: int|
                            0 <= t < mpb.targets@.len()
                                && (#[trigger] ch_head[mpb.targets@[t] as int]).queue@.len()
                                >= ch_head[mpb.targets@[t] as int].cap {
                            let t = choose|t: int|
                                0 <= t < mpb.targets@.len()
                                    && (#[trigger] ch_head[mpb.targets@[t] as int]).queue@.len()
                                    >= ch_head[mpb.targets@[t] as int].cap;
                            assert(t == 0);
                            assert(ch_head[1].cap >= 1);
                            assert(false);
                        }
                        let i = choose|i: int|
                            0 <= i < mpb.inputs@.len()
                                && (#[trigger] ch_head[mpb.inputs@[i] as int]).queue@.len() == 0
                                && !ch_head[mpb.inputs@[i] as int].closed;
                        assert(i == 0);
                        assert(ch_head[0].queue@.len() == 0 && !ch_head[0].closed);
                        assert(!gb.done);
                        assert(gb.idx < gb.values@.len() && ch_head[0].queue@.len()
                            >= ch_head[0].cap);
                        assert(ch_head[0].cap >= 1);
                        assert(false);
                    } else {
                        assert(ch_head[1].spec_exhausted());
                        assert(ch_head[1].closed);
                        assert(mpb.done);
                        let i = choose|i: int|
                            0 <= i < mpb.inputs@.len() && (#[trigger] ch_head[mpb.inputs@[i] as int]).spec_exhausted();
                        assert(i == 0);
                        assert(ch_head[0].spec_exhausted());
                        assert(ch_head[0].closed);
                        assert(gb.done);
                        assert(false);
                    }
                }
                return Err(SimError::Deadlock);
            },
            _ => {},
        }
        proof {
            if hyp {
                let d1: int = if o1 is Blocked {
                    0
                } else {
                    1
                };
                let d2: int = if o2 is Blocked {
                    0
                } else {
                    1
                };
                let d3: int = if o3 is Blocked {
                    0
                } else {
                    1
                };
                assert((n - g.idx) + live(g.done) + d1 <= (n - gb.idx) + live(gb.done)) by {
                    match o1 {
                        StepOutcome::Progress => {
                            assert(g.idx == gb.idx + 1 && !g.done && !gb.done);
                        },
                        StepOutcome::Finished => {
                            assert(g.idx == gb.idx && g.done && !gb.done);
                        },
                        StepOutcome::Blocked => {
                            assert(g == gb);
                        },
                        StepOutcome::Fault(_) => {
                            assert(false);
                        },
                    }
                }
                assert(chans@[0].taken() == pre3[0].taken());
                assert(pre2[0].taken() == ch_head[0].taken());
                assert((n - chans@[0].taken()) + live(mp.done) + d2 <= (n - ch_head[0].taken())
                    + live(mpb.done)) by {
                    assert(mpb.in_ok(pre2, 0));
                    assert(mp.in_ok(pre3, 0));
                    assert(pre2[0].taken() == mpb.count);
                    assert(pre3[0].taken() == mp.count);
                    match o2 {
                        StepOutcome::Progress => {
                            assert(mp.count == mpb.count + 1 && !mp.done && !mpb.done);
                        },
                        StepOutcome::Finished => {
                            assert(mp.count == mpb.count && mp.done && !mpb.done);
                        },
                        StepOutcome::Blocked => {
                            assert(mp == mpb && pre3 == pre2);
                        },
                        StepOutcome::Fault(_) => {
                            assert(false);
                        },
                    }
                }
                assert(pre3[1].taken() == pre2[1].taken());
                assert(pre2[1].taken() == ch_head[1].taken());
                assert((n - chans@[1].taken()) + live(cs.done) + d3 <= (n - ch_head[1].taken())
                    + live(csb.done)) by {
                    assert(csb.wf(pre3));
                    assert(cs.wf(chans@));
                    assert(pre3[1].taken() == csb.collected@.len());
                    assert(chans@[1].taken() == cs.collected@.len());
                    match o3 {
                        StepOutcome::Progress => {
                            assert(cs.collected@.len() == csb.collected@.len() + 1 && !cs.done
                                && !csb.done);
                        },
                        StepOutcome::Finished => {
                            assert(cs.collected@.len() == csb.collected@.len() && cs.done
                                && !csb.done);
                        },
                        StepOutcome::Blocked => {
                            assert(cs == csb && chans@ == pre3);
                        },
                        StepOutcome::Fault(_) => {
                            assert(false);
                        },
                    }
                }
                assert(d1 + d2 + d3 >= 1);
                assert(chain_measure(
                    n,
                    n,
                    g.idx as int,
                    g.done,
                    chans@[0].taken(),
                    mp.done,
                    chans@[1].taken(),
                    cs.done,
                ) + 1 <= chain_measure(
                    n,
                    n,
                    gb.idx as int,
                    gb.done,
                    ch_head[0].taken(),
                    mpb.done,
                    ch_head[1].taken(),
                    csb.done,
                ));
            }
        }
    }
}

/// Runs `values` through a windowed scan of period `reset_freq` and
/// returns the elapsed cycles and the output stream.
///
/// On success the input length was a whole number of windows and there is
/// one output per input: output `p` is exactly the running fold, with
/// `op`, of `p`'s window up to and including input `p`.  The cycle count
/// bounds every output timestamp, and output timestamps never decrease.
/// Success is owed under the same budget as the other drivers.
#[verifier::rlimit(100)]
pub fn scan_pipeline<S: Scalar>(
    values: Vec<Value<S>>,
    reset_freq: usize,
    depth: usize,
    op: ScanOp,
    timings: ScanTimings,
    fuel: u64,
) -> (r: Result<(u64, Vec<ChannelElement<S>>), SimError>)
    requires
        reset_freq >= 1,
    ensures
        match r {
            Ok(out) => {
                let n = vals_of(values@).len() as int;
                let w = reset_freq as int;
                &&& n % w == 0
                &&& out.1@.len() == n
                &&& (forall|p: int|
                    0 <= p < out.1@.len() ==> scan_acc_ok(
                        op,
                        #[trigger] vals_of(values@).subrange((p / w) * w, p + 1),
                    ) && Some((#[trigger] out.1@[p]).data@) == scan_acc_s(
                        op,
                        vals_of(values@).subrange((p / w) * w, p + 1),
                    ))
                &&& (forall|p: int| 0 <= p < out.1@.len() ==> (#[trigger] out.1@[p]).time <= out.0)
                &&& (forall|i: int, j: int|
                    0 <= i <= j < out.1@.len() ==> (#[trigger] out.1@[i]).time
                        <= (#[trigger] out.1@[j]).time)
            },
            Err(_) => true,
        },
        scan_ready(op, vals_of(values@), reset_freq as int) && fuel as int >= 3 * values@.len() + 6
            ==> r is Ok,
{
    let ghost vals0 = vals_of(values@);
    let ghost n = vals0.len() as int;
    let ghost w_i = reset_freq as int;
    let ghost fuel0 = fuel as int;
    let ghost hyp = scan_ready(op, vals0, w_i) && fuel0 >= 3 * n + 6;
    let cap = if depth == 0 {
        1
    } else {
        depth
    };
    let mut chans: Vec<Channel<S>> = Vec::new();
    chans.push(Channel::new(cap, 0, 1));
    chans.push(Channel::new(cap, 1, 2));
    let mut g = GeneratorContext::new(values, Sender { id: 0 });
    let mut targets: Vec<Sender> = Vec::new();
    targets.push(Sender { id: 1 });
    let mut sc = Scan::new(reset_freq, Receiver { id: 0 }, BroadcastSender { targets }, op, timings);
    sc.id = 1;
    let mut cs = ConsumerContext::new(Receiver { id: 1 });
    cs.id = 2;
    proof {
        assert(chans@.len() == 2);
        assert(chans@[0].wf());
        assert(chans@[1].wf());
        assert(g.wf(chans@));
        assert(sc.targets@ =~= seq![1usize]);
        assert(sc.targets@ == seq![1usize]);
        assert(sc.wf(chans@)) by {
            assert forall|t: int| 0 <= t < sc.targets@.len() implies #[trigger] sc.target_ok(
                chans@,
                t,
            ) by {
                assert(t == 0);
            }
            assert(chans@[0].taken() == 0 * (reset_freq as int) + 0);
            assert(sc.partial(chans@) =~= Seq::<Val<S>>::empty());
        }
        assert(cs.wf(chans@));
        assert(g.values@.len() == n);
    }
    let mut fuel = fuel;
    loop
        invariant
            chans@.len() == 2,
            chans_wf(chans@),
            g.wf(chans@),
            sc.wf(chans@),
            cs.wf(chans@),
            g.id == 0,
            sc.id == 1,
            cs.id == 2,
            g.output == 0,
            sc.input == 0,
            sc.targets@ == seq![1usize],
            cs.input == 1,
            sc.op == op,
            sc.reset_freq == reset_freq,
            vals_of(g.values@) == vals0,
            g.values@.len() == n,
            n == vals0.len(),
            w_i == reset_freq as int,
            hyp == (scan_ready(op, vals0, w_i) && fuel0 >= 3 * n + 6),
            hyp ==> fuel as int >= chain_measure(
                n,
                n,
                g.idx as int,
                g.done,
                chans@[0].taken(),
                sc.done,
                chans@[1].taken(),
                cs.done,
            ),
        decreases fuel,
    {
        if g.done && sc.done && cs.done {
            let elapsed = max64(g.clock, max64(sc.clock, cs.clock));
            proof {
                assert(chans@[0].spec_exhausted());
                assert(chans@[0].wf());
                assert(sc.target_ok(chans@, 0));
                assert(chans@[0].taken() == chans@[0].hist@.len());
                assert(chans@[0].sent().len() == n);
                assert(chans@[0].taken() == sc.wins * w_i + 0);
                assert(chans@[1].wf());
                assert(cs.collected@.len() == chans@[1].taken());
                assert(chans@[1].taken() == chans@[1].hist@.len());
                assert(chans@[1].sent().len() == chans@[0].taken());
                assert(cs.collected@.len() == n);
                assert(n % w_i == 0) by {
                    vstd::arithmetic::div_mod::lemma_fundamental_div_mod_converse_mod(
                        n,
                        w_i,
                        sc.wins as int,
                        0,
                    );
                }
                assert forall|p: int|
                    0 <= p < cs.collected@.len() implies scan_acc_ok(
                    op,
                    #[trigger] vals0.subrange((p / w_i) * w_i, p + 1),
                ) && Some((#[trigger] cs.collected@[p]).data@) == scan_acc_s(
                    op,
                    vals0.subrange((p / w_i) * w_i, p + 1),
                ) by {
                    assert(sc.pos_ok(chans@, 0, p));
                    assert(cs.record_ok(chans@, p));
                    assert(cs.collected@[p].data@ == chans@[1].hist@[p].1);
                    assert(chans@[1].sent()[p] == chans@[1].hist@[p].1);
                    let start = (p / w_i) * w_i;
                    assert(chans@[0].sent().subrange(start, p + 1) =~= vals0.subrange(
                        start,
                        p + 1,
                    )) by {
                        broadcast use vstd::arithmetic::div_mod::lemma_fundamental_div_mod;
                        broadcast use vstd::arithmetic::div_mod::lemma_mod_bound;

                        assert(p == w_i * (p / w_i) + p % w_i);
                        assert(0 <= p % w_i < w_i);
                        assert forall|x: int| start <= x < p + 1 implies chans@[0].sent()[x]
                            == vals0[x] by {
                            assert(g.emitted_ok(chans@, x));
                            assert(vals_of(g.values@)[x] == g.values@[x]@);
                        }
                    }
                }
                assert forall|p: int|
                    0 <= p < cs.collected@.len() implies (#[trigger] cs.collected@[p]).time
                    <= elapsed by {
                    assert(cs.record_ok(chans@, p));
                    assert(chans@[1].deq_times@[p] >= chans@[1].hist@[p].0);
                    assert(chans@[1].deq_times@[p] <= chans@[1].deq_times@[chans@[1].taken() - 1]);
                    assert(chans@[1].deq_last() <= cs.clock);
                }
                assert forall|i: int, j: int|
                    0 <= i <= j < cs.collected@.len() implies (#[trigger] cs.collected@[i]).time
                    <= (#[trigger] cs.collected@[j]).time by {
                    assert(cs.record_ok(chans@, i));
                    assert(cs.record_ok(chans@, j));
                    assert(chans@[1].hist@[i].0 <= chans@[1].hist@[j].0);
                }
            }
            return Ok((elapsed, cs.collected));
        }
        if fuel == 0 {
            proof {
                if hyp {
                    assert(g.idx <= n);
                    assert(chans@[0].taken() <= chans@[0].hist@.len());
                    assert(chans@[0].hist@.len() == g.idx);
                    assert(sc.target_ok(chans@, 0));
                    assert(chans@[1].taken() <= chans@[1].hist@.len());
                    assert(chans@[1].hist@.len() == chans@[0].taken());
                    assert(chain_measure(
                        n,
                        n,
                        g.idx as int,
                        g.done,
                        chans@[0].taken(),
                        sc.done,
                        chans@[1].taken(),
                        cs.done,
                    ) >= 1);
                    assert(false);
                }
            }
            return Err(SimError::FuelExhausted);
        }
        fuel = fuel - 1;
        let ghost gb = g;
        let ghost scb = sc;
        let ghost csb = cs;
        let ghost ch_head = chans@;
        let ghost pre1 = chans@;
        let (g2, chans2, o1) = g.step(chans);
        g = g2;
        chans = chans2;
        proof {
            sc.lemma_wf_frame(pre1, chans@, 0);
            cs.lemma_wf_frame(pre1, chans@, 0);
            assert(crate::channel::chan_frame(pre1[0], chans@[0], 0));
            assert(chans@[0].deq_times == pre1[0].deq_times);
            assert(crate::channel::chan_frame(pre1[1], chans@[1], 0));
            assert(chans@[1].deq_times == pre1[1].deq_times);
        }
        let ghost pre2 = chans@;
        let (sc2, chans3, o2) = sc.step(chans);
        sc = sc2;
        chans = chans3;
        proof {
            g.lemma_wf_frame(pre2, chans@, 1);
            cs.lemma_wf_frame(pre2, chans@, 1);
            assert(crate::channel::chan_frame(pre2[1], chans@[1], 1));
            assert(chans@[1].deq_times == pre2[1].deq_times);
        }
        match o2 {
            StepOutcome::Fault(e) => {
                proof {
                    if hyp {
                        assert(scb.wf(pre2));
                        assert(g.wf(pre2));
                        let t0 = pre2[0].taken();
                        let q = scb.wins as int;
                        let it = scb.iter as int;
                        assert(t0 == q * w_i + it);
                        assert(0 <= it < w_i);
                        assert(n == (n / w_i) * w_i + n % w_i) by {
                            broadcast use vstd::arithmetic::div_mod::lemma_fundamental_div_mod;

                            assert(n == w_i * (n / w_i) + n % w_i);
                        }
                        if e == SimError::ProtocolViolation {
                            assert(pre2[0].spec_exhausted());
                            assert(pre2[0].wf());
                            assert(t0 == pre2[0].hist@.len());
                            assert(pre2[0].closed);
                            assert(g.done);
                            assert(g.idx == g.values@.len());
                            assert(pre2[0].hist@.len() == n);
                            vstd::arithmetic::div_mod::lemma_fundamental_div_mod_converse_mod(
                                n,
                                w_i,
                                q,
                                it,
                            );
                            assert(it == n % w_i);
                            assert(it == 0);
                            assert(scb.iter != 0);
                            assert(false);
                        } else {
                            assert(e == SimError::BadPayload);
                            assert(pre2[0].sent().len() > t0);
                            assert(pre2[0].sent().len() == g.idx);
                            assert(t0 < n);
                            assert(q * w_i <= t0);
                            assert(q < n / w_i) by (nonlinear_arith)
                                requires
                                    q * w_i < n,
                                    n == (n / w_i) * w_i + n % w_i,
                                    n % w_i == 0,
                                    w_i >= 1,
                            ;
                            assert(scan_window_ready(op, vals0, w_i, q));
                            let wq = win(vals0, w_i, q);
                            assert(scan_acc_ok(op, wq));
                            assert((q + 1) * w_i <= n) by (nonlinear_arith)
                                requires
                                    q < n / w_i,
                                    n == (n / w_i) * w_i + n % w_i,
                                    n % w_i == 0,
                                    w_i >= 1,
                            ;
                            assert(0 <= q * w_i) by (nonlinear_arith)
                                requires
                                    q >= 0,
                                    w_i >= 1,
                            ;
                            assert(q * w_i + w_i <= n) by (nonlinear_arith)
                                requires
                                    (q + 1) * w_i <= n,
                            ;
                            assert(wq.len() == w_i);
                            crate::templates::scan::lemma_scan_ok_prefix(op, wq, it + 1);
                            let pfx = wq.subrange(0, it + 1);
                            assert(scan_acc_ok(op, pfx));
                            assert(pfx.len() == it + 1);
                            assert forall|x: int|
                                0 <= x < it + 1 implies pfx[x] == pre2[0].sent()[q * w_i + x] by {
                                assert(pfx[x] == vals0[q * w_i + x]);
                                assert(g.emitted_ok(pre2, q * w_i + x));
                                assert(vals_of(g.values@)[q * w_i + x] == g.values@[q * w_i + x]@);
                            }
                            assert(pfx.drop_last() =~= scb.partial(pre2));
                            assert(pfx.last() == pre2[0].sent()[t0]);
                            assert(scan_apply_s(op, pfx.last(), scan_acc_s(op, pfx.drop_last()))
                                is Some);
                            assert(acc_view(scb.accum) == scan_acc_s(op, scb.partial(pre2)));
                            assert(scan_acc_s(op, pfx.drop_last()) == scan_acc_s(
                                op,
                                scb.partial(pre2),
                            ));
                            assert(scan_apply_s(op, pre2[0].sent()[t0], acc_view(scb.accum))
                                is None);
                            assert(false);
                        }
                    }
                }
                return Err(e);
            },
            _ => {},
        }
        let ghost pre3 = chans@;
        let (cs2, chans4, o3) = cs.step(chans);
        cs = cs2;
        chans = chans4;
        proof {
            g.lemma_wf_frame(pre3, chans@, 2);
            sc.lemma_wf_frame(pre3, chans@, 2);
            assert(crate::channel::chan_frame(pre3[0], chans@[0], 2));
            assert(chans@[0].deq_times == pre3[0].deq_times);
        }
        match (o1, o2, o3) {
            (StepOutcome::Blocked, StepOutcome::Blocked, StepOutcome::Blocked) => {
                proof {
                    assert(pre2 == ch_head);
                    assert(pre3 == ch_head);
                    assert(g == gb && sc == scb && cs == csb);
                    assert(scb.target_ok(ch_head, 0));
                    if !csb.done {
                        assert(ch_head[1].queue@.len() == 0 && !ch_head[1].closed);
                        assert(!scb.done);
                        if exists|t: int|
                            0 <= t < scb.targets@.len()
                                && (#[trigger] ch_head[scb.targets@[t] as int]).queue@.len()
                                >= ch_head[scb.targets@[t] as int].cap {
                            let t = choose|t: int|
                                0 <= t < scb.targets@.len()
                                    && (#[trigger] ch_head[scb.targets@[t] as int]).queue@.len()
                                    >= ch_head[scb.targets@[t] as int].cap;
                            assert(t == 0);
                            assert(ch_head[1].cap >= 1);
                            assert(false);
                        }
                        assert(ch_head[0].queue@.len() == 0 && !ch_head[0].closed);
                        assert(!gb.done);
                        assert(gb.idx < gb.values@.len() && ch_head[0].queue@.len()
                            >= ch_head[0].cap);
                        assert(ch_head[0].cap >= 1);
                        assert(false);
                    } else {
                        assert(ch_head[1].spec_exhausted());
                        assert(ch_head[1].closed);
                        assert(scb.done);
                        assert(ch_head[0].spec_exhausted());
                        assert(ch_head[0].closed);
                        assert(gb.done);
                        assert(false);
                    }
                }
                return Err(SimError::Deadlock);
            },
            _ => {},
        }
        proof {
            if hyp {
                let d1: int = if o1 is Blocked {
                    0
                } else {
                    1
                };
                let d2: int = if o2 is Blocked {
                    0
                } else {
                    1
                };
                let d3: int = if o3 is Blocked {
                    0
                } else {
                    1
                };
                assert((n - g.idx) + live(g.done) + d1 <= (n - gb.idx) + live(gb.done)) by {
                    match o1 {
                        StepOutcome::Progress => {
                            assert(g.idx == gb.idx + 1 && !g.done && !gb.done);
                        },
                        StepOutcome::Finished => {
                            assert(g.idx == gb.idx && g.done && !gb.done);
                        },
                        StepOutcome::Blocked => {
                            assert(g == gb);
                        },
                        StepOutcome::Fault(_) => {
                            assert(false);
                        },
                    }
                }
                assert(chans@[0].taken() == pre3[0].taken());
                assert(pre2[0].taken() == ch_head[0].taken());
                assert((n - chans@[0].taken()) + live(sc.done) + d2 <= (n - ch_head[0].taken())
                    + live(scb.done)) by {
                    match o2 {
                        StepOutcome::Progress => {
                            assert(pre3[0].taken() == pre2[0].taken() + 1 && !sc.done && !scb.done);
                        },
                        StepOutcome::Finished => {
                            assert(pre3[0].taken() == pre2[0].taken() && sc.done && !scb.done);
                        },
                        StepOutcome::Blocked => {
                            assert(sc == scb && pre3 == pre2);
                        },
                        StepOutcome::Fault(_) => {
                            assert(false);
                        },
                    }
                }
                assert(pre3[1].taken() == pre2[1].taken());
                assert(pre2[1].taken() == ch_head[1].taken());
                assert((n - chans@[1].taken()) + live(cs.done) + d3 <= (n - ch_head[1].taken())
                    + live(csb.done)) by {
                    assert(csb.wf(pre3));
                    assert(cs.wf(chans@));
                    assert(pre3[1].taken() == csb.collected@.len());
                    assert(chans@[1].taken() == cs.collected@.len());
                    match o3 {
                        StepOutcome::Progress => {
                            assert(cs.collected@.len() == csb.collected@.len() + 1 && !cs.done
                                && !csb.done);
                        },
                        StepOutcome::Finished => {
                            assert(cs.collected@.len() == csb.collected@.len() && cs.done
                                && !csb.done);
                        },
                        StepOutcome::Blocked => {
                            assert(cs == csb && chans@ == pre3);
                        },
                        StepOutcome::Fault(_) => {
                            assert(false);
                        },
                    }
                }
                assert(d1 + d2 + d3 >= 1);
                assert(chain_measure(
                    n,
                    n,
                    g.idx as int,
                    g.done,
                    chans@[0].taken(),
                    sc.done,
                    chans@[1].taken(),
                    cs.done,
                ) + 1 <= chain_measure(
                    n,
                    n,
                    gb.idx as int,
                    gb.done,
                    ch_head[0].taken(),
                    scb.done,
                    ch_head[1].taken(),
                    csb.done,
                ));
            }
        }
    }
}

/// Runs `values` through a flatmap block and returns the elapsed cycles
/// and the output stream.
///
/// On success the output stream is exactly the concatenation of the
/// expansions of every input, in order; the cycle count bounds every
/// output timestamp and output timestamps never decrease.  Conversely,
/// success is owed: when every input expands without fault and the step
/// budget admits three steps per element of the input and of the expanded
/// output plus six, the run cannot fail.
#[verifier::rlimit(100)]
pub fn flatmap_pipeline<S: Scalar>(
    values: Vec<Value<S>>,
    depth: usize,
    op: FlatmapOp,
    timings: FlatmapTimings,
    fuel: u64,
) -> (r: Result<(u64, Vec<ChannelElement<S>>), SimError>)
    ensures
        match r {
            Ok(out) => {
                &&& datas_of(out.1@) == flat_out(op, vals_of(values@))
                &&& (forall|p: int| 0 <= p < out.1@.len() ==> (#[trigger] out.1@[p]).time <= out.0)
                &&& (forall|i: int, j: int|
                    0 <= i <= j < out.1@.len() ==> (#[trigger] out.1@[i]).time
                        <= (#[trigger] out.1@[j]).time)
            },
            Err(_) => true,
        },
        flat_ready(op, vals_of(values@)) && fuel as int >= 3 * (values@.len() + flat_out(
            op,
            vals_of(values@),
        ).len()) + 6 ==> r is Ok,
{
    let ghost vals0 = vals_of(values@);
    let ghost n = vals0.len() as int;
    let ghost flen = flat_out(op, vals0).len() as int;
    let ghost fuel0 = fuel as int;
    let ghost hyp = flat_ready(op, vals0) && fuel0 >= 3 * (n + flen) + 6;
    let cap = if depth == 0 {
        1
    } else {
        depth
    };
    let mut chans: Vec<Channel<S>> = Vec::new();
    chans.push(Channel::new(cap, 0, 1));
    chans.push(Channel::new(cap, 1, 2));
    let mut g = GeneratorContext::new(values, Sender { id: 0 });
    let mut inputs: Vec<Receiver> = Vec::new();
    inputs.push(Receiver { id: 0 });
    let mut targets: Vec<Sender> = Vec::new();
    targets.push(Sender { id: 1 });
    let mut fm = Flatmap::new(inputs, BroadcastSender { targets }, op, timings);
    fm.id = 1;
    let mut cs = ConsumerContext::new(Receiver { id: 1 });
    cs.id = 2;
    proof {
        assert(chans@.len() == 2);
        assert(chans@[0].wf());
        assert(chans@[1].wf());
        assert(g.wf(chans@));
        assert(fm.targets@ =~= seq![1usize]);
        assert(fm.targets@ == seq![1usize]);
        assert(fm.wf(chans@)) by {
            assert forall|t: int| 0 <= t < fm.targets@.len() implies #[trigger] fm.target_ok(
                chans@,
                t,
            ) by {
                assert(t == 0);
                assert(chans@[0].sent().subrange(0, 0) =~= Seq::<Val<S>>::empty());
                assert(chans@[0].sent().subrange(0, 0) == Seq::<Val<S>>::empty());
                assert(fm.expected_out(chans@) == flat_out(op, Seq::<Val<S>>::empty()));
                assert(fm.expected_out(chans@) == Seq::<Val<S>>::empty());
                assert(chans@[1].sent() =~= Seq::<Val<S>>::empty());
                assert(chans@[1].sent() == Seq::<Val<S>>::empty());
            }
        }
        assert(cs.wf(chans@));
        assert(g.values@.len() == n);
    }
    let mut fuel = fuel;
    loop
        invariant
            chans@.len() == 2,
            chans_wf(chans@),
            g.wf(chans@),
            fm.wf(chans@),
            cs.wf(chans@),
            g.id == 0,
            fm.id == 1,
            cs.id == 2,
            g.output == 0,
            fm.input == 0,
            fm.targets@ == seq![1usize],
            cs.input == 1,
            fm.op == op,
            vals_of(g.values@) == vals0,
            g.values@.len() == n,
            n == vals0.len(),
            flen == flat_out(op, vals0).len(),
            hyp == (flat_ready(op, vals0) && fuel0 >= 3 * (n + flen) + 6),
            hyp ==> fuel as int >= (n - g.idx) + live(g.done) + (n - chans@[0].taken()) + (flen
                - chans@[1].hist@.len()) + live(fm.done) + (flen - chans@[1].taken()) + live(
                cs.done,
            ),
        decreases fuel,
    {
        if g.done && fm.done && cs.done {
            let elapsed = max64(g.clock, max64(fm.clock, cs.clock));
            proof {
                assert(chans@[0].spec_exhausted());
                assert(chans@[0].wf());
                assert(fm.target_ok(chans@, 0));
                assert(chans@[0].taken() == chans@[0].hist@.len());
                assert(chans@[0].sent().len() == n);
                assert(chans@[1].wf());
                assert(cs.collected@.len() == chans@[1].taken());
                assert(chans@[1].taken() == chans@[1].hist@.len());
                let consumed = chans@[0].sent().subrange(0, chans@[0].taken());
                assert(consumed =~= vals0) by {
                    assert forall|x: int| 0 <= x < n implies chans@[0].sent()[x] == vals0[x] by {
                        assert(g.emitted_ok(chans@, x));
                        assert(vals_of(g.values@)[x] == g.values@[x]@);
                    }
                }
                assert(chans@[1].sent() == flat_out(op, vals0));
                assert(datas_of(cs.collected@) =~= flat_out(op, vals0)) by {
                    assert forall|p: int|
                        0 <= p < cs.collected@.len() implies datas_of(cs.collected@)[p]
                        == flat_out(op, vals0)[p] by {
                        assert(cs.record_ok(chans@, p));
                        assert(datas_of(cs.collected@)[p] == cs.collected@[p].data@);
                        assert(chans@[1].sent()[p] == chans@[1].hist@[p].1);
                    }
                }
                assert(datas_of(cs.collected@) == flat_out(op, vals0));
                assert forall|p: int|
                    0 <= p < cs.collected@.len() implies (#[trigger] cs.collected@[p]).time
                    <= elapsed by {
                    assert(cs.record_ok(chans@, p));
                    assert(chans@[1].deq_times@[p] >= chans@[1].hist@[p].0);
                    assert(chans@[1].deq_times@[p] <= chans@[1].deq_times@[chans@[1].taken() - 1]);
                    assert(chans@[1].deq_last() <= cs.clock);
                }
                assert forall|i: int, j: int|
                    0 <= i <= j < cs.collected@.len() implies (#[trigger] cs.collected@[i]).time
                    <= (#[trigger] cs.collected@[j]).time by {
                    assert(cs.record_ok(chans@, i));
                    assert(cs.record_ok(chans@, j));
                    assert(chans@[1].hist@[i].0 <= chans@[1].hist@[j].0);
                }
            }
            return Ok((elapsed, cs.collected));
        }
        if fuel == 0 {
            proof {
                if hyp {
                    assert(g.idx <= n);
                    assert(chans@[0].taken() <= chans@[0].hist@.len());
                    assert(chans@[0].hist@.len() == g.idx);
                    assert(fm.target_ok(chans@, 0));
                    assert(chans@[1].taken() <= chans@[1].hist@.len());
                    let taken = chans@[0].taken();
                    let consumed = chans@[0].sent().subrange(0, taken);
                    assert(consumed =~= vals0.subrange(0, taken)) by {
                        assert forall|x: int| 0 <= x < taken implies chans@[0].sent()[x]
                            == vals0[x] by {
                            assert(g.emitted_ok(chans@, x));
                            assert(vals_of(g.values@)[x] == g.values@[x]@);
                        }
                    }
                    assert(chans@[1].hist@.len() <= flen) by {
                        assert(chans@[1].sent().len() == chans@[1].hist@.len());
                        assert(chans@[1].sent() == fm.expected_out(chans@));
                        if fm.pending@.len() > 0 {
                            assert(consumed.len() >= 1);
                            assert(consumed.drop_last() =~= vals0.subrange(0, taken - 1));
                            crate::templates::flatmap::lemma_flat_out_prefix(op, vals0, taken);
                            assert(flat_out(op, consumed) == flat_out(op, consumed.drop_last())
                                + flat_apply_s(op, consumed.last())->Some_0);
                            assert(consumed.last() == chans@[0].sent()[taken - 1]);
                            assert(flat_apply_s(op, chans@[0].sent()[taken - 1]) == Some(
                                vals_of(fm.pending@),
                            ));
                            assert(fm.expected_out(chans@).len() == flat_out(
                                op,
                                consumed.drop_last(),
                            ).len() + fm.pos);
                            assert(fm.pos < fm.pending@.len());
                            assert(flat_out(op, consumed).len() == flat_out(op, vals0.subrange(0, taken)).len());
                        } else {
                            crate::templates::flatmap::lemma_flat_out_prefix(op, vals0, taken);
                            assert(flat_out(op, consumed).len() == flat_out(op, vals0.subrange(0, taken)).len());
                        }
                    }
                    assert((n - g.idx) + live(g.done) + (n - chans@[0].taken()) + (flen
                        - chans@[1].hist@.len()) + live(fm.done) + (flen - chans@[1].taken())
                        + live(cs.done) >= 1);
                    assert(false);
                }
            }
            return Err(SimError::FuelExhausted);
        }
        fuel = fuel - 1;
        let ghost gb = g;
        let ghost fmb = fm;
        let ghost csb = cs;
        let ghost ch_head = chans@;
        let ghost pre1 = chans@;
        let (g2, chans2, o1) = g.step(chans);
        g = g2;
        chans = chans2;
        proof {
            assert(fm.target_ok(pre1, 0));
            fm.lemma_wf_frame(pre1, chans@, 0);
            cs.lemma_wf_frame(pre1, chans@, 0);
            assert(crate::channel::chan_frame(pre1[0], chans@[0], 0));
            assert(chans@[0].deq_times == pre1[0].deq_times);
            assert(crate::channel::chan_frame(pre1[1], chans@[1], 0));
            assert(chans@[1].deq_times == pre1[1].deq_times);
            assert(chans@[1].hist == pre1[1].hist);
        }
        let ghost pre2 = chans@;
        let (fm2, chans3, o2) = fm.step(chans);
        fm = fm2;
        chans = chans3;
        proof {
            g.lemma_wf_frame(pre2, chans@, 1);
            cs.lemma_wf_frame(pre2, chans@, 1);
            assert(crate::channel::chan_frame(pre2[1], chans@[1], 1));
            assert(chans@[1].deq_times == pre2[1].deq_times);
        }
        match o2 {
            StepOutcome::Fault(e) => {
                proof {
                    if hyp {
                        assert(fmb.wf(pre2));
                        assert(g.wf(pre2));
                        let t0 = pre2[0].taken();
                        assert(flat_apply_s(op, pre2[0].sent()[t0]) is None);
                        assert(pre2[0].sent().len() > t0);
                        assert(pre2[0].sent().len() == g.idx);
                        assert(t0 < n);
                        assert(flat_elem_ready(op, vals0, t0));
                        assert(pre2[0].sent()[t0] == vals0[t0]) by {
                            assert(g.emitted_ok(pre2, t0));
                            assert(vals_of(g.values@)[t0] == g.values@[t0]@);
                        }
                        assert(false);
                    }
                }
                return Err(e);
            },
            _ => {},
        }
        let ghost pre3 = chans@;
        let (cs2, chans4, o3) = cs.step(chans);
        cs = cs2;
        chans = chans4;
        proof {
            g.lemma_wf_frame(pre3, chans@, 2);
            fm.lemma_wf_frame(pre3, chans@, 2);
            assert(fm.target_ok(pre3, 0));
            assert(crate::channel::chan_frame(pre3[0], chans@[0], 2));
            assert(chans@[0].deq_times == pre3[0].deq_times);
            assert(crate::channel::chan_frame(pre3[1], chans@[1], 2));
            assert(chans@[1].hist == pre3[1].hist);
        }
        match (o1, o2, o3) {
            (StepOutcome::Blocked, StepOutcome::Blocked, StepOutcome::Blocked) => {
                proof {
                    assert(pre2 == ch_head);
                    assert(pre3 == ch_head);
                    assert(g == gb && fm == fmb && cs == csb);
                    assert(fmb.target_ok(ch_head, 0));
                    if !csb.done {
                        assert(ch_head[1].queue@.len() == 0 && !ch_head[1].closed);
                        assert(!fmb.done);
                        if fmb.pending@.len() > 0 {
                            let t = choose|t: int|
                                0 <= t < fmb.targets@.len()
                                    && (#[trigger] ch_head[fmb.targets@[t] as int]).queue@.len()
                                    >= ch_head[fmb.targets@[t] as int].cap;
                            assert(t == 0);
                            assert(ch_head[1].cap >= 1);
                            assert(false);
                        } else {
                            assert(ch_head[0].queue@.len() == 0 && !ch_head[0].closed);
                            assert(!gb.done);
                            assert(gb.idx < gb.values@.len() && ch_head[0].queue@.len()
                                >= ch_head[0].cap);
                            assert(ch_head[0].cap >= 1);
                            assert(false);
                        }
                    } else {
                        assert(ch_head[1].spec_exhausted());
                        assert(ch_head[1].closed);
                        assert(fmb.done);
                        assert(ch_head[0].spec_exhausted());
                        assert(ch_head[0].closed);
                        assert(gb.done);
                        assert(false);
                    }
                }
                return Err(SimError::Deadlock);
            },
            _ => {},
        }
        proof {
            if hyp {
                let d1: int = if o1 is Blocked {
                    0
                } else {
                    1
                };
                let d2: int = if o2 is Blocked {
                    0
                } else {
                    1
                };
                let d3: int = if o3 is Blocked {
                    0
                } else {
                    1
                };
                assert((n - g.idx) + live(g.done) + d1 <= (n - gb.idx) + live(gb.done)) by {
                    match o1 {
                        StepOutcome::Progress => {
                            assert(g.idx == gb.idx + 1 && !g.done && !gb.done);
                        },
                        StepOutcome::Finished => {
                            assert(g.idx == gb.idx && g.done && !gb.done);
                        },
                        StepOutcome::Blocked => {
                            assert(g == gb);
                        },
                        StepOutcome::Fault(_) => {
                            assert(false);
                        },
                    }
                }
                assert(chans@[0].taken() == pre3[0].taken());
                assert(chans@[1].hist@.len() == pre3[1].hist@.len());
                assert(pre2[0].taken() == ch_head[0].taken());
                assert(pre2[1].hist@.len() == ch_head[1].hist@.len());
                assert((n - chans@[0].taken()) + (flen - chans@[1].hist@.len()) + live(fm.done)
                    + d2 <= (n - ch_head[0].taken()) + (flen - ch_head[1].hist@.len()) + live(
                    fmb.done,
                )) by {
                    assert(fmb.targets@.len() > 0);
                    match o2 {
                        StepOutcome::Progress => {
                            assert(pre3[0].taken() + pre3[1].hist@.len() == pre2[0].taken()
                                + pre2[1].hist@.len() + 1);
                            assert(!fm.done && !fmb.done);
                        },
                        StepOutcome::Finished => {
                            assert(pre3[0].taken() == pre2[0].taken());
                            assert(pre3[1].hist@.len() == pre2[1].hist@.len());
                            assert(fm.done && !fmb.done);
                        },
                        StepOutcome::Blocked => {
                            assert(fm == fmb && pre3 == pre2);
                        },
                        StepOutcome::Fault(_) => {
                            assert(false);
                        },
                    }
                }
                assert(pre3[1].taken() == pre2[1].taken());
                assert(pre2[1].taken() == ch_head[1].taken());
                assert((flen - chans@[1].taken()) + live(cs.done) + d3 <= (flen
                    - ch_head[1].taken()) + live(csb.done)) by {
                    assert(csb.wf(pre3));
                    assert(cs.wf(chans@));
                    assert(pre3[1].taken() == csb.collected@.len());
                    assert(chans@[1].taken() == cs.collected@.len());
                    match o3 {
                        StepOutcome::Progress => {
                            assert(cs.collected@.len() == csb.collected@.len() + 1 && !cs.done
                                && !csb.done);
                        },
                        StepOutcome::Finished => {
                            assert(cs.collected@.len() == csb.collected@.len() && cs.done
                                && !csb.done);
                        },
                        StepOutcome::Blocked => {
                            assert(cs == csb && chans@ == pre3);
                        },
                        StepOutcome::Fault(_) => {
                            assert(false);
                        },
                    }
                }
                assert(d1 + d2 + d3 >= 1);
            }
        }
    }
}

/// Runs a left stream (rows of `A`, laid out as the behavior dictates) and
/// a right stream (`B` transposed, repeated per row) through a matmul
/// block and returns the elapsed cycles and the stream of cells of
/// `C = A · B`.
///
/// On success the run ended at a batch boundary: cell `j` is exactly the
/// `K`-step multiply-accumulate of its operand slices, the side whose
/// exhaustion ended the run was consumed in full — which ties the number
/// of cells to the length of a stream — and the cycle count bounds every
/// output timestamp, which never decrease.  Conversely, success is owed:
/// on whole-batch streams in the behavior's layout whose
/// multiply-accumulates all stay representable, with a step budget of
/// three steps per stream element plus eight, the run cannot fail;
/// mismatched stream lengths deadlock, as they do in the modeled
/// hardware.
#[verifier::rlimit(100)]
pub fn matmul_pipeline<S: Scalar>(
    left_vals: Vec<Value<S>>,
    right_vals: Vec<Value<S>>,
    behavior: MatmulBehavior,
    shape: ShapeInfo,
    timing: MatmulTiming,
    depth: usize,
    fuel: u64,
) -> (r: Result<(u64, Vec<ChannelElement<S>>), SimError>)
    requires
        shape.m >= 1,
        shape.n >= 1,
        shape.k >= 1,
    ensures
        match r {
            Ok(out) => {
                let kd = shape.k as int;
                let nd = shape.n as int;
                let la = vals_of(left_vals@);
                let ra = vals_of(right_vals@);
                &&& out.1@.len() as int % ((shape.m as int) * (shape.n as int)) == 0
                &&& (forall|j: int|
                    0 <= j < out.1@.len() ==> (behavior is Buffered ==> mac_fold_ok(
                        #[trigger] la.subrange((j / nd) * kd, (j / nd) * kd + kd),
                        ra.subrange(j * kd, j * kd + kd),
                        kd,
                    ) && (#[trigger] out.1@[j]).data@ == Val::Num(
                        mac_fold_s(
                            la.subrange((j / nd) * kd, (j / nd) * kd + kd),
                            ra.subrange(j * kd, j * kd + kd),
                            kd,
                        ),
                    )))
                &&& (forall|j: int|
                    0 <= j < out.1@.len() ==> (behavior is Repeated ==> mac_fold_ok(
                        #[trigger] la.subrange(j * kd, j * kd + kd),
                        ra.subrange(j * kd, j * kd + kd),
                        kd,
                    ) && (#[trigger] out.1@[j]).data@ == Val::Num(
                        mac_fold_s(
                            la.subrange(j * kd, j * kd + kd),
                            ra.subrange(j * kd, j * kd + kd),
                            kd,
                        ),
                    )))
                &&& (out.1@.len() * kd == ra.len() || (behavior is Buffered && (out.1@.len() as int
                    / nd) * kd == la.len()) || (behavior is Repeated && out.1@.len() * kd
                    == la.len()))
                &&& (forall|j: int| 0 <= j < out.1@.len() ==> (#[trigger] out.1@[j]).time <= out.0)
                &&& (forall|i: int, j: int|
                    0 <= i <= j < out.1@.len() ==> (#[trigger] out.1@[i]).time
                        <= (#[trigger] out.1@[j]).time)
            },
            Err(_) => true,
        },
        matmul_ready(behavior, vals_of(left_vals@), vals_of(right_vals@), shape) && fuel as int >= 3
            * (left_vals@.len() + right_vals@.len()) + 8 ==> r is Ok,
{
    let ghost lvals0 = vals_of(left_vals@);
    let ghost rvals0 = vals_of(right_vals@);
    let ghost nl = lvals0.len() as int;
    let ghost nr = rvals0.len() as int;
    let ghost kd_g = shape.k as int;
    let ghost nd_g = shape.n as int;
    let ghost md_g = shape.m as int;
    let ghost fuel0 = fuel as int;
    let ghost hyp = matmul_ready(behavior, lvals0, rvals0, shape) && fuel0 >= 3 * (nl + nr) + 8;
    let ghost cells_t = nr / kd_g;
    let cap = if depth == 0 {
        1
    } else {
        depth
    };
    let mut chans: Vec<Channel<S>> = Vec::new();
    chans.push(Channel::new(cap, 0, 2));
    chans.push(Channel::new(cap, 1, 2));
    chans.push(Channel::new(cap, 2, 3));
    let mut g1 = GeneratorContext::new(left_vals, Sender { id: 0 });
    let mut g2 = GeneratorContext::new(right_vals, Sender { id: 1 });
    g2.id = 1;
    let mut mm = Matmul::new(
        timing,
        behavior,
        shape,
        Receiver { id: 0 },
        Receiver { id: 1 },
        Sender { id: 2 },
    );
    mm.id = 2;
    let mut cs = ConsumerContext::new(Receiver { id: 2 });
    cs.id = 3;
    proof {
        assert(chans@.len() == 3);
        assert(chans@[0].wf());
        assert(chans@[1].wf());
        assert(chans@[2].wf());
        assert(g1.wf(chans@));
        assert(g2.wf(chans@));
        assert(mm.wf(chans@)) by {
            assert(mm.cells(chans@) == 0);
            assert(chans@[1].taken() == 0 * (shape.k as int) + 0);
            assert((0 * (shape.m as int) + 0) * (shape.n as int) + 0 == 0) by (nonlinear_arith);
            assert(mm.cells(chans@) == (0 * (shape.m as int) + 0) * (shape.n as int) + 0);
            assert(mm.lpart(chans@) =~= Seq::<Val<S>>::empty());
            assert(mm.rpart(chans@) =~= Seq::<Val<S>>::empty());
        }
        assert(cs.wf(chans@));
        if hyp {
            broadcast use vstd::arithmetic::div_mod::lemma_div_nonincreasing;
            broadcast use vstd::arithmetic::div_mod::lemma_div_pos_is_pos;

            assert(cells_t <= nr);
            assert(nr >= 0);
            assert(cells_t >= 0);
        }
    }
    let mut fuel = fuel;
    loop
        invariant
            chans@.len() == 3,
            chans_wf(chans@),
            g1.wf(chans@),
            g2.wf(chans@),
            mm.wf(chans@),
            cs.wf(chans@),
            g1.id == 0,
            g2.id == 1,
            mm.id == 2,
            cs.id == 3,
            g1.output == 0,
            g2.output == 1,
            mm.left == 0,
            mm.right == 1,
            mm.output == 2,
            cs.input == 2,
            mm.behavior == behavior,
            mm.shape == shape,
            vals_of(g1.values@) == lvals0,
            vals_of(g2.values@) == rvals0,
            g1.values@.len() == nl,
            g2.values@.len() == nr,
            nl == lvals0.len(),
            nr == rvals0.len(),
            kd_g == shape.k as int,
            nd_g == shape.n as int,
            md_g == shape.m as int,
            cells_t == nr / kd_g,
            hyp == (matmul_ready(behavior, lvals0, rvals0, shape) && fuel0 >= 3 * (nl + nr) + 8),
            hyp ==> fuel as int >= (nl - g1.idx) + live(g1.done) + (nr - g2.idx) + live(g2.done) + (
            nr - chans@[1].taken()) + live(mm.done) + (cells_t - chans@[2].taken()) + live(cs.done),
        decreases fuel,
    {
        if g1.done && g2.done && mm.done && cs.done {
            let elapsed = max64(max64(g1.clock, g2.clock), max64(mm.clock, cs.clock));
            proof {
                let kd = shape.k as int;
                let nd = shape.n as int;
                let md = shape.m as int;
                assert(chans@[0].wf());
                assert(chans@[1].wf());
                assert(chans@[2].wf());
                assert(cs.collected@.len() == chans@[2].taken());
                assert(chans@[2].spec_exhausted());
                assert(chans@[2].taken() == chans@[2].hist@.len());
                let cells = mm.cells(chans@);
                assert(cs.collected@.len() == cells);
                assert(cells == (mm.batches * md + 0) * nd + 0);
                assert(cells == mm.batches * (md * nd)) by (nonlinear_arith)
                    requires
                        cells == (mm.batches * md + 0) * nd + 0,
                ;
                assert(md * nd >= 1) by (nonlinear_arith)
                    requires
                        md >= 1,
                        nd >= 1,
                ;
                vstd::arithmetic::div_mod::lemma_fundamental_div_mod_converse_mod(
                    cells,
                    md * nd,
                    mm.batches as int,
                    0,
                );
                assert(cells % (md * nd) == 0);

                assert(chans@[0].sent().len() == g1.values@.len());
                assert(chans@[1].sent().len() == g2.values@.len());
                // The side whose exhaustion ended the run was consumed in
                // full, which ties the cell count to that stream's length.
                assert(cells * kd == nr || (behavior is Buffered && (cells / nd) * kd == nl) || (
                behavior is Repeated && cells * kd == nl)) by {
                    assert(mm.done);
                    assert(mm.kk == 0 && mm.ni == 0 && mm.mi == 0);
                    assert(chans@[1].taken() == cells * kd + 0);
                    if chans@[1].spec_exhausted() {
                        assert(chans@[1].taken() == chans@[1].hist@.len());
                        assert(chans@[1].hist@.len() == g2.idx);
                        assert(g2.idx == nr);
                    } else {
                        assert(chans@[0].spec_exhausted());
                        assert(chans@[0].taken() == chans@[0].hist@.len());
                        assert(chans@[0].hist@.len() == g1.idx);
                        assert(g1.idx == nl);
                        match behavior {
                            MatmulBehavior::Buffered => {
                                assert(chans@[0].taken() == mm.row() * kd + 0);
                                assert(mm.row() == mm.batches * md);
                                assert(cells == (mm.batches * md) * nd) by (nonlinear_arith)
                                    requires
                                        cells == (mm.batches * md + 0) * nd + 0,
                                ;
                                vstd::arithmetic::div_mod::lemma_fundamental_div_mod_converse_div(
                                    cells,
                                    nd,
                                    mm.batches * md,
                                    0,
                                );
                                assert(cells / nd == mm.batches * md);
                                assert((cells / nd) * kd == nl);
                            },
                            MatmulBehavior::Repeated => {
                                assert(chans@[0].taken() == chans@[1].taken());
                            },
                        }
                    }
                }
                assert(cs.collected@.len() * kd == nr || (behavior is Buffered
                    && (cs.collected@.len() as int / nd) * kd == nl) || (behavior is Repeated
                    && cs.collected@.len() * kd == nl));
                assert forall|j: int| 0 <= j < cs.collected@.len() implies #[trigger] mm.cell_ok(
                    chans@,
                    j,
                ) && cs.collected@[j].data@ == chans@[2].sent()[j] by {
                    assert(cs.record_ok(chans@, j));
                    assert(chans@[2].sent()[j] == chans@[2].hist@[j].1);
                }
                assert forall|j: int|
                    0 <= j < cs.collected@.len() implies (behavior is Buffered ==> mac_fold_ok(
                    #[trigger] lvals0.subrange((j / nd) * kd, (j / nd) * kd + kd),
                    rvals0.subrange(j * kd, j * kd + kd),
                    kd,
                ) && (#[trigger] cs.collected@[j]).data@ == Val::Num(
                    mac_fold_s(
                        lvals0.subrange((j / nd) * kd, (j / nd) * kd + kd),
                        rvals0.subrange(j * kd, j * kd + kd),
                        kd,
                    ),
                )) by {
                    if behavior is Buffered {
                        assert(mm.cell_ok(chans@, j));
                        assert(mm.lslice(chans@, j) =~= lvals0.subrange(
                            (j / nd) * kd,
                            (j / nd) * kd + kd,
                        )) by {
                            assert forall|x: int|
                                (j / nd) * kd <= x < (j / nd) * kd + kd implies chans@[0].sent()[x]
                                == lvals0[x] by {
                                assert(g1.emitted_ok(chans@, x));
                                assert(vals_of(g1.values@)[x] == g1.values@[x]@);
                            }
                        }
                        assert(mm.rslice(chans@, j) =~= rvals0.subrange(j * kd, j * kd + kd)) by {
                            assert((j + 1) * kd == j * kd + kd) by (nonlinear_arith);
                            assert forall|x: int|
                                j * kd <= x < j * kd + kd implies chans@[1].sent()[x]
                                == rvals0[x] by {
                                assert(g2.emitted_ok(chans@, x));
                                assert(vals_of(g2.values@)[x] == g2.values@[x]@);
                            }
                        }
                        crate::templates::matmul::lemma_mac_fold_agree(
                            lvals0.subrange((j / nd) * kd, (j / nd) * kd + kd),
                            rvals0.subrange(j * kd, j * kd + kd),
                            mm.lslice(chans@, j),
                            mm.rslice(chans@, j),
                            kd,
                        );
                    }
                }
                assert forall|j: int|
                    0 <= j < cs.collected@.len() implies (behavior is Repeated ==> mac_fold_ok(
                    #[trigger] lvals0.subrange(j * kd, j * kd + kd),
                    rvals0.subrange(j * kd, j * kd + kd),
                    kd,
                ) && (#[trigger] cs.collected@[j]).data@ == Val::Num(
                    mac_fold_s(
                        lvals0.subrange(j * kd, j * kd + kd),
                        rvals0.subrange(j * kd, j * kd + kd),
                        kd,
                    ),
                )) by {
                    if behavior is Repeated {
                        assert(mm.cell_ok(chans@, j));
                        assert((j + 1) * kd == j * kd + kd) by (nonlinear_arith);
                        assert(mm.lslice(chans@, j) =~= lvals0.subrange(j * kd, j * kd + kd)) by {
                            assert forall|x: int|
                                j * kd <= x < j * kd + kd implies chans@[0].sent()[x]
                                == lvals0[x] by {
                                assert(g1.emitted_ok(chans@, x));
                                assert(vals_of(g1.values@)[x] == g1.values@[x]@);
                            }
                        }
                        assert(mm.rslice(chans@, j) =~= rvals0.subrange(j * kd, j * kd + kd)) by {
                            assert forall|x: int|
                                j * kd <= x < j * kd + kd implies chans@[1].sent()[x]
                                == rvals0[x] by {
                                assert(g2.emitted_ok(chans@, x));
                                assert(vals_of(g2.values@)[x] == g2.values@[x]@);
                            }
                        }
                        crate::templates::matmul::lemma_mac_fold_agree(
                            lvals0.subrange(j * kd, j * kd + kd),
                            rvals0.subrange(j * kd, j * kd + kd),
                            mm.lslice(chans@, j),
                            mm.rslice(chans@, j),
                            kd,
                        );
                    }
                }
                assert forall|j: int|
                    0 <= j < cs.collected@.len() implies (#[trigger] cs.collected@[j]).time
                    <= elapsed by {
                    assert(cs.record_ok(chans@, j));
                    assert(chans@[2].deq_times@[j] >= chans@[2].hist@[j].0);
                    assert(chans@[2].deq_times@[j] <= chans@[2].deq_times@[chans@[2].taken() - 1]);
                    assert(chans@[2].deq_last() <= cs.clock);
                }
                assert forall|i: int, j: int|
                    0 <= i <= j < cs.collected@.len() implies (#[trigger] cs.collected@[i]).time
                    <= (#[trigger] cs.collected@[j]).time by {
                    assert(cs.record_ok(chans@, i));
                    assert(cs.record_ok(chans@, j));
                    assert(chans@[2].hist@[i].0 <= chans@[2].hist@[j].0);
                }
            }
            return Ok((elapsed, cs.collected));
        }
        if fuel == 0 {
            proof {
                if hyp {
                    assert(g1.idx <= nl);
                    assert(g2.idx <= nr);
                    assert(chans@[1].taken() <= chans@[1].hist@.len());
                    assert(chans@[1].hist@.len() == g2.idx);
                    assert(chans@[2].taken() <= chans@[2].hist@.len());
                    let q = mm.cells(chans@);
                    assert(chans@[2].hist@.len() == q);
                    assert(chans@[1].taken() == q * kd_g + mm.kk);
                    assert(q * kd_g <= nr);
                    assert(nr == (nr / kd_g) * kd_g + nr % kd_g && nr % kd_g >= 0) by {
                        broadcast use vstd::arithmetic::div_mod::lemma_fundamental_div_mod;
                        broadcast use vstd::arithmetic::div_mod::lemma_mod_bound;

                        assert(nr == kd_g * (nr / kd_g) + nr % kd_g);
                    }
                    assert(q <= cells_t) by (nonlinear_arith)
                        requires
                            q * kd_g <= nr,
                            cells_t == nr / kd_g,
                            kd_g >= 1,
                            nr == (nr / kd_g) * kd_g + nr % kd_g,
                            nr % kd_g >= 0,
                    ;
                    assert((nl - g1.idx) + live(g1.done) + (nr - g2.idx) + live(g2.done) + (nr
                        - chans@[1].taken()) + live(mm.done) + (cells_t - chans@[2].taken()) + live(
                        cs.done,
                    ) >= 1);
                    assert(false);
                }
            }
            return Err(SimError::FuelExhausted);
        }
        fuel = fuel - 1;
        let ghost ghead1 = g1;
        let ghost ghead2 = g2;
        let ghost mhead = mm;
        let ghost chead = cs;
        let ghost pre1 = chans@;
        let (g1b, chansa, o1) = g1.step(chans);
        g1 = g1b;
        chans = chansa;
        proof {
            g2.lemma_wf_frame(pre1, chans@, 0);
            mm.lemma_wf_frame(pre1, chans@, 0);
            cs.lemma_wf_frame(pre1, chans@, 0);
            assert(crate::channel::chan_frame(pre1[1], chans@[1], 0));
            assert(crate::channel::chan_frame(pre1[2], chans@[2], 0));
            assert(chans@[1] == pre1[1]);
            assert(chans@[2] == pre1[2]);
        }
        let ghost pre2 = chans@;
        let (g2b, chansb, o2) = g2.step(chans);
        g2 = g2b;
        chans = chansb;
        proof {
            g1.lemma_wf_frame(pre2, chans@, 1);
            mm.lemma_wf_frame(pre2, chans@, 1);
            cs.lemma_wf_frame(pre2, chans@, 1);
            assert(crate::channel::chan_frame(pre2[1], chans@[1], 1));
            assert(crate::channel::chan_frame(pre2[2], chans@[2], 1));
            assert(chans@[1].deq_times == pre2[1].deq_times);
            assert(chans@[2] == pre2[2]);
        }
        let ghost pre3 = chans@;
        let (mmb, chansc, o3) = mm.step(chans);
        mm = mmb;
        chans = chansc;
        proof {
            g1.lemma_wf_frame(pre3, chans@, 2);
            g2.lemma_wf_frame(pre3, chans@, 2);
            cs.lemma_wf_frame(pre3, chans@, 2);
            assert(crate::channel::chan_frame(pre3[2], chans@[2], 2));
            assert(chans@[2].deq_times == pre3[2].deq_times);
        }
        match o3 {
            StepOutcome::Fault(e) => {
                proof {
                    if hyp {
                        lemma_matmul_fault_impossible(
                            mhead,
                            g1,
                            g2,
                            pre3,
                            e,
                            behavior,
                            lvals0,
                            rvals0,
                            shape,
                        );
                    }
                }
                return Err(e);
            },
            _ => {},
        }
        let ghost pre4 = chans@;
        let (csb, chansd, o4) = cs.step(chans);
        cs = csb;
        chans = chansd;
        proof {
            g1.lemma_wf_frame(pre4, chans@, 3);
            g2.lemma_wf_frame(pre4, chans@, 3);
            mm.lemma_wf_frame(pre4, chans@, 3);
            assert(crate::channel::chan_frame(pre4[0], chans@[0], 3));
            assert(crate::channel::chan_frame(pre4[1], chans@[1], 3));
            assert(chans@[0] == pre4[0]);
            assert(chans@[1] == pre4[1]);
        }
        match (o1, o2, o3, o4) {
            (StepOutcome::Blocked, StepOutcome::Blocked, StepOutcome::Blocked, StepOutcome::Blocked) => {
                if g1.done && g2.done && mm.done && cs.done {
                } else {
                    proof {
                        if hyp {
                            assert(g1 == ghead1 && g2 == ghead2 && mm == mhead && cs == chead);
                            assert(pre2 == pre1 && pre3 == pre1 && pre4 == pre1 && chans@ == pre1);
                            if !cs.done {
                                assert(chans@[2].queue@.len() == 0 && !chans@[2].closed);
                                assert(!mm.done);
                                if chans@[1].queue@.len() == 0 && !chans@[1].closed {
                                    assert(!g2.done);
                                    assert(g2.idx < g2.values@.len() && chans@[1].queue@.len()
                                        >= chans@[1].cap);
                                    assert(chans@[1].cap >= 1);
                                    assert(false);
                                } else if chans@[0].queue@.len() == 0 && !chans@[0].closed {
                                    assert(!g1.done);
                                    assert(g1.idx < g1.values@.len() && chans@[0].queue@.len()
                                        >= chans@[0].cap);
                                    assert(chans@[0].cap >= 1);
                                    assert(false);
                                } else {
                                    assert(mm.kk + 1 == mm.shape.k && chans@[2].queue@.len()
                                        >= chans@[2].cap);
                                    assert(chans@[2].cap >= 1);
                                    assert(false);
                                }
                            } else {
                                assert(chans@[2].spec_exhausted());
                                assert(chans@[2].closed);
                                assert(mm.done);
                                assert(mm.kk == 0 && mm.ni == 0 && mm.mi == 0);
                                lemma_matmul_done_drains(mm, g1, g2, chans@, lvals0, rvals0, shape);
                                assert(chans@[0].taken() == nl && chans@[1].taken() == nr);
                                if !g1.done {
                                    assert(g1.idx < g1.values@.len() && chans@[0].queue@.len()
                                        >= chans@[0].cap);
                                    assert(chans@[0].taken() <= chans@[0].hist@.len());
                                    assert(chans@[0].hist@.len() == g1.idx);
                                    assert(false);
                                }
                                if !g2.done {
                                    assert(g2.idx < g2.values@.len() && chans@[1].queue@.len()
                                        >= chans@[1].cap);
                                    assert(chans@[1].taken() <= chans@[1].hist@.len());
                                    assert(chans@[1].hist@.len() == g2.idx);
                                    assert(false);
                                }
                                assert(false);
                            }
                        }
                    }
                    return Err(SimError::Deadlock);
                }
            },
            _ => {},
        }
        proof {
            if hyp {
                let d1: int = if o1 is Blocked {
                    0
                } else {
                    1
                };
                let d2: int = if o2 is Blocked {
                    0
                } else {
                    1
                };
                let d3: int = if o3 is Blocked {
                    0
                } else {
                    1
                };
                let d4: int = if o4 is Blocked {
                    0
                } else {
                    1
                };
                assert((nl - g1.idx) + live(g1.done) + d1 <= (nl - ghead1.idx) + live(
                    ghead1.done,
                )) by {
                    match o1 {
                        StepOutcome::Progress => {
                            assert(g1.idx == ghead1.idx + 1 && !g1.done && !ghead1.done);
                        },
                        StepOutcome::Finished => {
                            assert(g1.idx == ghead1.idx && g1.done && !ghead1.done);
                        },
                        StepOutcome::Blocked => {
                            assert(g1 == ghead1);
                        },
                        StepOutcome::Fault(_) => {
                            assert(false);
                        },
                    }
                }
                assert((nr - g2.idx) + live(g2.done) + d2 <= (nr - ghead2.idx) + live(
                    ghead2.done,
                )) by {
                    match o2 {
                        StepOutcome::Progress => {
                            assert(g2.idx == ghead2.idx + 1 && !g2.done && !ghead2.done);
                        },
                        StepOutcome::Finished => {
                            assert(g2.idx == ghead2.idx && g2.done && !ghead2.done);
                        },
                        StepOutcome::Blocked => {
                            assert(g2 == ghead2);
                        },
                        StepOutcome::Fault(_) => {
                            assert(false);
                        },
                    }
                }
                assert(chans@[1].taken() == pre4[1].taken());
                assert(pre3[1].taken() == pre2[1].taken());
                assert(pre2[1].taken() == pre1[1].taken());
                assert((nr - chans@[1].taken()) + live(mm.done) + d3 <= (nr - pre1[1].taken())
                    + live(mhead.done)) by {
                    match o3 {
                        StepOutcome::Progress => {
                            assert(pre4[1].taken() == pre3[1].taken() + 1 && !mm.done
                                && !mhead.done);
                        },
                        StepOutcome::Finished => {
                            assert(pre4[1].taken() == pre3[1].taken() && mm.done && !mhead.done);
                        },
                        StepOutcome::Blocked => {
                            assert(mm == mhead && pre4 == pre3);
                        },
                        StepOutcome::Fault(_) => {
                            assert(false);
                        },
                    }
                }
                assert(pre4[2].taken() == pre3[2].taken());
                assert(pre3[2].taken() == pre2[2].taken());
                assert(pre2[2].taken() == pre1[2].taken());
                assert((cells_t - chans@[2].taken()) + live(cs.done) + d4 <= (cells_t
                    - pre1[2].taken()) + live(chead.done)) by {
                    assert(chead.wf(pre4));
                    assert(cs.wf(chans@));
                    assert(pre4[2].taken() == chead.collected@.len());
                    assert(chans@[2].taken() == cs.collected@.len());
                    match o4 {
                        StepOutcome::Progress => {
                            assert(cs.collected@.len() == chead.collected@.len() + 1 && !cs.done
                                && !chead.done);
                        },
                        StepOutcome::Finished => {
                            assert(cs.collected@.len() == chead.collected@.len() && cs.done
                                && !chead.done);
                        },
                        StepOutcome::Blocked => {
                            assert(cs == chead && chans@ == pre4);
                        },
                        StepOutcome::Fault(_) => {
                            assert(false);
                        },
                    }
                }
                assert(d1 + d2 + d3 + d4 >= 1) by {
                    if o1 is Blocked && o2 is Blocked && o3 is Blocked && o4 is Blocked {
                        assert(g1.done && g2.done && mm.done && cs.done);
                        assert(ghead1.done && ghead2.done && mhead.done && chead.done);
                        assert(false);
                    }
                }
            }
        }
    }
}

} // verus!