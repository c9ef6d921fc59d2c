//! The errors that the search surfaces to its caller.

use vstd::prelude::*;

verus! {

/// Outward errors of the search.
#[derive(Debug, Clone, Copy, PartialEq, Eq, Structural)]
pub enum Error {
    /// The hard policies do not hold before any modification is applied.
    InvalidInitialState,
    /// The wall-clock budget ran out before an ordering was found.
    Timeout,
    /// The caller requested cancellation.
    Abort,
    /// The search space is exhausted: probably no safe ordering exists.
    ProbablyNoSafeOrdering,
}

} // verus!
