//! Typed errors for the graph container and the path search. Every failure
//! is reported as a recoverable value; no operation panics.

use vstd::prelude::*;

verus! {

#[derive(Clone, Copy, PartialEq, Eq, Structural, Debug)]
pub enum GraphError {
    /// A node was handed to `add_node` whose index lies beyond the first free
    /// slot; placing it would leave a gap in the contiguous slot range.
    InvalidNodeIndex,
    /// A slot index outside the active range was given to a removal.
    OutOfRangeIndex,
    /// An insert would exceed the preallocated slot capacity.
    CapacityExceeded,
    /// An edge names an endpoint that is not an active node.
    EdgeEndpointInvalid,
    /// The search exhausted its frontier without reaching the goal.
    PathNotFound,
}

} // verus!
