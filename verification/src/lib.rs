//! A cycle-accurate dataflow simulator for streaming attention kernels.
//!
//! The simulator models a graph of independent processing blocks that
//! exchange timestamped values over bounded FIFO channels.  Each block
//! keeps its own local clock; a cooperative scheduler advances the blocks
//! until every one of them has shut down cleanly, and the elapsed cycle
//! count of the whole run is the largest local clock reached.  On top of
//! the engine sit the streaming primitive blocks — element-wise map,
//! windowed reduce and scan, repeat, zip, flatmap, and a two-behavior
//! matmul — with feed and drain endpoints, whose channel histories are
//! pinned exactly by their contracts; verified drivers run each primitive
//! graph end to end, and the attention pipelines in [`kernels`] compose
//! the drivers into the textbook and the streaming (online-softmax)
//! attention computations.  The payload arithmetic, including the
//! per-score state of the online-softmax recurrence, is abstracted behind
//! the [`scalar::Scalar`] trait with a verified integer instance.
#![verifier::loop_isolation(false)]

pub mod apps;
pub mod channel;
pub mod kernels;
pub mod pipelines;
pub mod scalar;
pub mod simulation;
pub mod templates;
pub mod value;
