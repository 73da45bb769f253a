//! Attention pipeline configuration.

use vstd::prelude::*;

verus! {

/// The shape of an attention workload: `seq_len` tokens of `vocab_dim`
/// entries each.
#[derive(Clone, Copy, Debug)]
pub struct AttentionConfig {
    /// The dimensionality of one token row (`D`).
    pub vocab_dim: usize,
    /// The sequence length (`N`).
    pub seq_len: usize,
}

/// Whether a long-buffer depth is too small for the textbook pipeline.
///
/// The exponentiated scores of one row must all be buffered while the row
/// sum is still being reduced, so a buffer shorter than the sequence length
/// deadlocks the graph; drivers check this before running and surface a
/// warning.
pub fn long_depth_deadlocks(config: &AttentionConfig, long_depth: usize) -> (r: bool)
    ensures
        r <==> long_depth < config.seq_len,
{
    long_depth < config.seq_len
}

} // verus!
