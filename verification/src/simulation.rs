//! Program construction and the scheduler.

use vstd::prelude::*;

verus! {

/// A fatal condition discovered while building or running a simulation.
#[derive(Clone, Copy, Debug, PartialEq, Eq, Structural)]
pub enum SimError {
    /// An invalidly constructed graph: a stream whose length does not
    /// match the declared shape of the block it feeds.
    BadWiring,
    /// An upstream channel closed in the middle of a window, a matrix row,
    /// or on one side of a zip while the other still carried data.
    ProtocolViolation,
    /// A payload of the wrong shape reached a block, or its arithmetic
    /// faulted.
    BadPayload,
    /// No block could advance although some had not finished.
    Deadlock,
    /// The step budget ran out before the graph terminated.
    FuelExhausted,
}

/// What one scheduling step of a block did.
#[derive(Clone, Copy, Debug, PartialEq, Eq, Structural)]
pub enum StepOutcome {
    /// The block advanced.
    Progress,
    /// The block advanced and has now shut down cleanly.
    Finished,
    /// The block is waiting on a channel (or has already shut down).
    Blocked,
    /// The block hit a fatal condition; the run must abort.
    Fault(SimError),
}

} // verus!
