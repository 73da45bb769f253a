//! Running the verified pipeline drivers on concrete workloads.

use attention::apps::{long_depth_deadlocks, AttentionConfig};
use attention::pipelines::{map_pipeline, reduce_pipeline};
use attention::simulation::SimError;
use attention::templates::map::{MapOp, MapTimings};
use attention::templates::reduce::{ReduceOp, ReduceTimings};
use attention::templates::flatmap::{FlatmapOp, FlatmapTimings};
use attention::templates::matmul::{MatmulBehavior, MatmulTiming, ShapeInfo};
use attention::templates::scan::{ScanOp, ScanTimings};
use attention::value::Value;

fn nums(range: std::ops::Range<i64>) -> Vec<Value<i64>> {
    range.map(Value::Num).collect()
}

fn out_nums(outs: &[attention::channel::ChannelElement<i64>]) -> Vec<i64> {
    outs.iter()
        .map(|e| match &e.data {
            Value::Num(x) => *x,
            _ => panic!("expected a scalar payload"),
        })
        .collect()
}

#[test]
fn reduce_test() {
    let values: Vec<Vec<i64>> = vec![
        (0..10).collect(),
        (10..20).collect(),
        (20..30).collect(),
        (30..40).collect(),
    ];
    let inputs: Vec<Value<i64>> = values
        .iter()
        .flat_map(|x| x.iter().copied())
        .map(Value::Num)
        .collect();
    let (elapsed, outs) = reduce_pipeline(
        inputs,
        10,
        16,
        ReduceOp::Sum,
        ReduceTimings {
            initiation_interval: 2,
            latency: 1,
            reset_time: 0,
        },
        1_000_000,
    )
    .expect("the reduce graph must terminate");
    let gold: Vec<i64> = values.iter().map(|x| x.iter().sum()).collect();
    assert_eq!(out_nums(&outs), gold);
    assert_eq!(out_nums(&outs), vec![45, 145, 245, 345]);
    assert!(elapsed > 0);
}

#[test]
fn test_map() {
    let (elapsed, outs) = map_pipeline(
        nums(0..16),
        16,
        MapOp::AddConst(5),
        MapTimings {
            initiation_interval: 1,
            latency: 5,
        },
        1_000_000,
    )
    .expect("the map graph must terminate");
    let gold: Vec<i64> = (0..16).map(|x| x + 5).collect();
    assert_eq!(out_nums(&outs), gold);
    // The first output is stamped at least the map latency, and the last at
    // least the latency plus the fifteen cycles the inputs take to arrive.
    assert!(outs.first().unwrap().time >= 5);
    assert!(outs.last().unwrap().time >= 5 + 15);
    assert!(elapsed >= outs.last().unwrap().time);
}

#[test]
fn reduce_rejects_partial_window() {
    // 45 inputs do not divide into windows of ten: the upstream closes in
    // the middle of the fifth window, which is a protocol violation.
    let r = reduce_pipeline(
        nums(0..45),
        10,
        16,
        ReduceOp::Sum,
        ReduceTimings {
            initiation_interval: 1,
            latency: 1,
            reset_time: 0,
        },
        1_000_000,
    );
    assert_eq!(r.unwrap_err(), SimError::ProtocolViolation);
}

#[test]
fn map_rejects_mismatched_payload() {
    // Division needs two joined inputs; a single-input graph feeds it the
    // wrong shape.
    let r = map_pipeline(
        nums(1..5),
        4,
        MapOp::Div,
        MapTimings {
            initiation_interval: 1,
            latency: 1,
        },
        1_000_000,
    );
    assert_eq!(r.unwrap_err(), SimError::BadPayload);
}

#[test]
fn fuel_runs_out() {
    let r = reduce_pipeline(
        nums(0..40),
        10,
        16,
        ReduceOp::Sum,
        ReduceTimings {
            initiation_interval: 1,
            latency: 1,
            reset_time: 0,
        },
        3,
    );
    assert_eq!(r.unwrap_err(), SimError::FuelExhausted);
}

#[test]
fn sum_overflow_is_a_fault() {
    let r = reduce_pipeline(
        vec![Value::Num(i64::MAX), Value::Num(1)],
        2,
        4,
        ReduceOp::Sum,
        ReduceTimings {
            initiation_interval: 1,
            latency: 1,
            reset_time: 0,
        },
        1_000_000,
    );
    assert_eq!(r.unwrap_err(), SimError::BadPayload);
}

#[test]
fn empty_input_reduce() {
    let empty: Vec<Value<i64>> = Vec::new();
    let (_, outs) = reduce_pipeline(
        empty,
        10,
        4,
        ReduceOp::Sum,
        ReduceTimings {
            initiation_interval: 1,
            latency: 1,
            reset_time: 0,
        },
        1_000_000,
    )
    .expect("an empty graph terminates");
    assert!(outs.is_empty());
}

#[test]
fn reset_time_delays_outputs() {
    let fast = reduce_pipeline(
        nums(0..20),
        10,
        16,
        ReduceOp::Sum,
        ReduceTimings {
            initiation_interval: 1,
            latency: 1,
            reset_time: 0,
        },
        1_000_000,
    )
    .unwrap();
    let slow = reduce_pipeline(
        nums(0..20),
        10,
        16,
        ReduceOp::Sum,
        ReduceTimings {
            initiation_interval: 1,
            latency: 1,
            reset_time: 100,
        },
        1_000_000,
    )
    .unwrap();
    assert_eq!(out_nums(&fast.1), out_nums(&slow.1));
    assert!(slow.0 > fast.0);
    // The dead time at the start of the first window pushes every later
    // clock past it.
    assert!(slow.1[0].time >= 100);
}

#[test]
fn cycle_count_is_reproducible() {
    // The engine is sequential and deterministic: the same configuration
    // always yields the same cycle count and stream.
    let a = map_pipeline(
        nums(0..16),
        16,
        MapOp::AddConst(5),
        MapTimings {
            initiation_interval: 1,
            latency: 5,
        },
        1_000_000,
    )
    .unwrap();
    let b = map_pipeline(
        nums(0..16),
        16,
        MapOp::AddConst(5),
        MapTimings {
            initiation_interval: 1,
            latency: 5,
        },
        1_000_000,
    )
    .unwrap();
    assert_eq!(a.0, b.0);
    assert_eq!(out_nums(&a.1), out_nums(&b.1));
}

#[test]
fn output_timestamps_are_monotone() {
    let (_, outs) = map_pipeline(
        nums(0..16),
        4,
        MapOp::AddConst(1),
        MapTimings {
            initiation_interval: 3,
            latency: 2,
        },
        1_000_000,
    )
    .unwrap();
    for w in outs.windows(2) {
        assert!(w[0].time <= w[1].time);
    }
}

#[test]
fn long_depth_warning() {
    let config = AttentionConfig {
        vocab_dim: 4,
        seq_len: 256,
    };
    assert!(long_depth_deadlocks(&config, 255));
    assert!(!long_depth_deadlocks(&config, 256));
    assert!(!long_depth_deadlocks(&config, 258));
}

#[test]
fn scan_test() {
    let values: Vec<Vec<i64>> = vec![
        (0..10).collect(),
        (10..20).collect(),
        (20..30).collect(),
        (30..40).collect(),
    ];
    let inputs: Vec<Value<i64>> = values
        .iter()
        .flat_map(|x| x.iter().copied())
        .map(Value::Num)
        .collect();
    let (elapsed, outs) = attention::pipelines::scan_pipeline(
        inputs,
        10,
        16,
        ScanOp::Sum,
        ScanTimings {
            initiation_interval: 2,
            latency: 1,
            reset_time: 0,
        },
        1_000_000,
    )
    .expect("the scan graph must terminate");
    let gold: Vec<i64> = values
        .iter()
        .flat_map(|vals| {
            let mut cumsums = vec![];
            for (i, v) in vals.iter().enumerate() {
                if i == 0 {
                    cumsums.push(*v);
                } else {
                    cumsums.push(cumsums.last().unwrap() + *v);
                }
            }
            cumsums.into_iter()
        })
        .collect();
    assert_eq!(out_nums(&outs), gold);
    assert_eq!(
        out_nums(&outs)[0..10],
        vec![0, 1, 3, 6, 10, 15, 21, 28, 36, 45]
    );
    assert!(elapsed > 0);
}

#[test]
fn scan_rejects_partial_window() {
    let r = attention::pipelines::scan_pipeline(
        nums(0..45),
        10,
        16,
        ScanOp::Sum,
        ScanTimings {
            initiation_interval: 1,
            latency: 1,
            reset_time: 0,
        },
        1_000_000,
    );
    assert_eq!(r.unwrap_err(), SimError::ProtocolViolation);
}

#[test]
fn test_flatmap() {
    let (elapsed, outs) = attention::pipelines::flatmap_pipeline(
        nums(0..16),
        16,
        FlatmapOp::Iota,
        FlatmapTimings {
            initiation_interval: 1,
            latency: 5,
        },
        1_000_000,
    )
    .expect("the flatmap graph must terminate");
    let gold: Vec<i64> = (0..16).flat_map(|x| 0..x).collect();
    assert_eq!(out_nums(&outs), gold);
    assert!(elapsed > 0);
}

#[test]
fn flatmap_scale_divides() {
    // A vector zipped with a divisor expands to the element-wise quotient.
    let pair = Value::Pair(
        Box::new(Value::Vect(vec![10, 20, 33])),
        Box::new(Value::Num(10)),
    );
    let (_, outs) = attention::pipelines::flatmap_pipeline(
        vec![pair],
        4,
        FlatmapOp::Scale,
        FlatmapTimings {
            initiation_interval: 1,
            latency: 1,
        },
        1_000,
    )
    .expect("the scale graph must terminate");
    assert_eq!(out_nums(&outs), vec![1, 2, 3]);
}

#[test]
fn flatmap_rejects_division_by_zero() {
    let pair = Value::Pair(
        Box::new(Value::Vect(vec![10, 20])),
        Box::new(Value::Num(0)),
    );
    let r = attention::pipelines::flatmap_pipeline(
        vec![pair],
        4,
        FlatmapOp::Scale,
        FlatmapTimings {
            initiation_interval: 1,
            latency: 1,
        },
        1_000,
    );
    assert_eq!(r.unwrap_err(), SimError::BadPayload);
}

#[test]
fn run_buffered() {
    // A = [[1, 2], [3, 4]], B = [[5, 6], [7, 8]]: C = [[19, 22], [43, 50]].
    // Buffered: each row of A once; right stream is B transposed, repeated
    // per row.  Two batches of the same operands.
    let a_once = vec![1i64, 2, 3, 4];
    let bt_per_row = vec![5i64, 7, 6, 8, 5, 7, 6, 8];
    let left: Vec<Value<i64>> = a_once
        .iter()
        .chain(a_once.iter())
        .copied()
        .map(Value::Num)
        .collect();
    let right: Vec<Value<i64>> = bt_per_row
        .iter()
        .chain(bt_per_row.iter())
        .copied()
        .map(Value::Num)
        .collect();
    let (elapsed, outs) = attention::pipelines::matmul_pipeline(
        left,
        right,
        MatmulBehavior::Buffered,
        ShapeInfo { m: 2, n: 2, k: 2 },
        MatmulTiming {
            dot_latency: 1,
            dot_ii: 1,
            reset_time: 0,
        },
        8,
        1_000_000,
    )
    .expect("the matmul graph must terminate");
    assert_eq!(out_nums(&outs), vec![19, 22, 43, 50, 19, 22, 43, 50]);
    assert!(elapsed > 0);
}

#[test]
fn run_repeated() {
    // Repeated: each row of A arrives again for every column.
    let left: Vec<Value<i64>> = vec![1i64, 2, 1, 2, 3, 4, 3, 4]
        .into_iter()
        .map(Value::Num)
        .collect();
    let right: Vec<Value<i64>> = vec![5i64, 7, 6, 8, 5, 7, 6, 8]
        .into_iter()
        .map(Value::Num)
        .collect();
    let (_, outs) = attention::pipelines::matmul_pipeline(
        left,
        right,
        MatmulBehavior::Repeated,
        ShapeInfo { m: 2, n: 2, k: 2 },
        MatmulTiming {
            dot_latency: 1,
            dot_ii: 1,
            reset_time: 3,
        },
        8,
        1_000_000,
    )
    .expect("the matmul graph must terminate");
    assert_eq!(out_nums(&outs), vec![19, 22, 43, 50]);
}

#[test]
fn map_divpair_divides() {
    let pairs: Vec<Value<i64>> = vec![
        Value::Pair(Box::new(Value::Num(10)), Box::new(Value::Num(2))),
        Value::Pair(Box::new(Value::Num(9)), Box::new(Value::Num(3))),
    ];
    let (_, outs) = map_pipeline(
        pairs,
        4,
        MapOp::DivPair,
        MapTimings {
            initiation_interval: 1,
            latency: 1,
        },
        1_000,
    )
    .expect("the pair-division graph must terminate");
    assert_eq!(out_nums(&outs), vec![5, 3]);
}

#[test]
fn test_naive_attention() {
    // Scores [[12, 0], [0, 5]]: the integer exponential is the identity,
    // the row sums are 12 and 5, and the probability matrix divides to the
    // identity.  V = [[7], [9]], so the streamed output is [7, 9].
    let qkt: Vec<Value<i64>> = vec![12, 0, 0, 5].into_iter().map(Value::Num).collect();
    let v: Vec<Value<i64>> = vec![7, 9].into_iter().map(Value::Num).collect();
    let (elapsed, outs) = attention::kernels::naive_pipeline(
        qkt,
        v,
        2,
        1,
        4,
        2,
        MapTimings {
            initiation_interval: 1,
            latency: 1,
        },
        ReduceTimings {
            initiation_interval: 1,
            latency: 1,
            reset_time: 0,
        },
        MapTimings {
            initiation_interval: 1,
            latency: 1,
        },
        MatmulTiming {
            dot_latency: 1,
            dot_ii: 1,
            reset_time: 0,
        },
        1_000_000,
    )
    .expect("the naive graph must terminate");
    assert_eq!(out_nums(&outs), vec![7, 9]);
    assert!(elapsed > 0);
}

#[test]
fn naive_rejects_shallow_long_buffer() {
    // A long buffer shallower than one row deadlocks the textbook graph;
    // the driver detects the condition before running.
    let qkt: Vec<Value<i64>> = vec![12, 0, 0, 5].into_iter().map(Value::Num).collect();
    let v: Vec<Value<i64>> = vec![7, 9].into_iter().map(Value::Num).collect();
    let r = attention::kernels::naive_pipeline(
        qkt,
        v,
        2,
        1,
        4,
        1,
        MapTimings {
            initiation_interval: 1,
            latency: 1,
        },
        ReduceTimings {
            initiation_interval: 1,
            latency: 1,
            reset_time: 0,
        },
        MapTimings {
            initiation_interval: 1,
            latency: 1,
        },
        MatmulTiming {
            dot_latency: 1,
            dot_ii: 1,
            reset_time: 0,
        },
        1_000_000,
    );
    assert_eq!(r.unwrap_err(), SimError::Deadlock);
}

#[test]
fn naive_rejects_mismatched_v() {
    // Three V entries cannot form a [2, 1] value matrix.
    let qkt: Vec<Value<i64>> = vec![12, 0, 0, 5].into_iter().map(Value::Num).collect();
    let v: Vec<Value<i64>> = vec![7, 9, 11].into_iter().map(Value::Num).collect();
    let r = attention::kernels::naive_pipeline(
        qkt,
        v,
        2,
        1,
        4,
        2,
        MapTimings {
            initiation_interval: 1,
            latency: 1,
        },
        ReduceTimings {
            initiation_interval: 1,
            latency: 1,
            reset_time: 0,
        },
        MapTimings {
            initiation_interval: 1,
            latency: 1,
        },
        MatmulTiming {
            dot_latency: 1,
            dot_ii: 1,
            reset_time: 0,
        },
        1_000_000,
    );
    assert_eq!(r.unwrap_err(), SimError::BadWiring);
}

#[test]
fn test_agnostic_attention() {
    // Scores [[3, 5], [1, 4]], V = [[2], [4]].  With the identity
    // exponential the recurrence gives, per row, a weighted vector and a
    // residual whose quotient is 2.
    let qkt: Vec<Value<i64>> = vec![3, 5, 1, 4].into_iter().map(Value::Num).collect();
    let v: Vec<Value<i64>> = vec![2, 4].into_iter().map(Value::Num).collect();
    let rt = ReduceTimings {
        initiation_interval: 1,
        latency: 1,
        reset_time: 0,
    };
    let (elapsed, outs) = attention::kernels::agnostic_pipeline(
        qkt,
        v,
        2,
        1,
        16,
        ScanTimings {
            initiation_interval: 1,
            latency: 1,
            reset_time: 0,
        },
        rt,
        rt,
        rt,
        FlatmapTimings {
            initiation_interval: 1,
            latency: 1,
        },
        1_000_000,
    )
    .expect("the streaming graph must terminate");
    assert_eq!(out_nums(&outs), vec![2, 2]);
    assert!(elapsed > 0);
}

#[test]
fn agnostic_cycle_count_is_reproducible() {
    let run = || {
        let qkt: Vec<Value<i64>> = vec![3, 5, 1, 4].into_iter().map(Value::Num).collect();
        let v: Vec<Value<i64>> = vec![2, 4].into_iter().map(Value::Num).collect();
        let rt = ReduceTimings {
            initiation_interval: 1,
            latency: 1,
            reset_time: 0,
        };
        attention::kernels::agnostic_pipeline(
            qkt,
            v,
            2,
            1,
            16,
            ScanTimings {
                initiation_interval: 1,
                latency: 1,
                reset_time: 0,
            },
            rt,
            rt,
            rt,
            FlatmapTimings {
                initiation_interval: 1,
                latency: 1,
            },
            1_000_000,
        )
        .expect("the streaming graph must terminate")
    };
    let a = run();
    let b = run();
    assert_eq!(a.0, b.0);
    assert_eq!(out_nums(&a.1), out_nums(&b.1));
}

#[test]
fn matmul_rejects_midcell_exhaustion() {
    // The right stream ends in the middle of a cell.
    let left: Vec<Value<i64>> = vec![1i64, 2].into_iter().map(Value::Num).collect();
    let right: Vec<Value<i64>> = vec![5i64].into_iter().map(Value::Num).collect();
    let r = attention::pipelines::matmul_pipeline(
        left,
        right,
        MatmulBehavior::Buffered,
        ShapeInfo { m: 1, n: 1, k: 2 },
        MatmulTiming {
            dot_latency: 1,
            dot_ii: 1,
            reset_time: 0,
        },
        4,
        1_000,
    );
    assert_eq!(r.unwrap_err(), SimError::ProtocolViolation);
}

#[test]
fn matmul_mismatched_feed_deadlocks() {
    // Far more left-stream elements than the right stream warrants: the
    // block shuts down at the batch boundary, the left channel fills, and
    // its feeder can never finish.
    let left: Vec<Value<i64>> = vec![1i64, 2, 3, 4, 5, 6, 7].into_iter().map(Value::Num).collect();
    let right: Vec<Value<i64>> = vec![5i64, 7].into_iter().map(Value::Num).collect();
    let r = attention::pipelines::matmul_pipeline(
        left,
        right,
        MatmulBehavior::Buffered,
        ShapeInfo { m: 1, n: 1, k: 2 },
        MatmulTiming {
            dot_latency: 1,
            dot_ii: 1,
            reset_time: 0,
        },
        4,
        1_000,
    );
    assert_eq!(r.unwrap_err(), SimError::Deadlock);
}
