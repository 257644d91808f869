//! An edge is a pair of node slot indices. Edges are stored with a source and
//! a destination, but the graph treats them as undirected: `(a, b)` and
//! `(b, a)` name the same connection.

use vstd::prelude::*;

verus! {

/// An endpoint pair. The inactive sentinel is `(-1, -1)`.
#[derive(Clone, Copy, PartialEq, Eq, Structural, Debug)]
pub struct Edge {
    pub source_index: i32,
    pub destination_index: i32,
}

/// True iff `e` joins `a` and `b`, read in either direction.
pub open spec fn edge_connects(e: Edge, a: i32, b: i32) -> bool {
    (e.source_index == a && e.destination_index == b) || (e.source_index == b
        && e.destination_index == a)
}

/// True iff the two edges join the same unordered pair of slots.
pub open spec fn same_unordered_pair(e1: Edge, e2: Edge) -> bool {
    edge_connects(e2, e1.source_index, e1.destination_index)
}

impl Edge {
    /// The sentinel value that marks an empty edge slot.
    pub open spec fn spec_inactive() -> Edge {
        Edge { source_index: -1i32, destination_index: -1i32 }
    }

    pub fn new(source_index: i32, destination_index: i32) -> (e: Edge)
        ensures
            e == (Edge { source_index, destination_index }),
    {
        Edge { source_index, destination_index }
    }

    pub fn new_inactive() -> (e: Edge)
        ensures
            e == Edge::spec_inactive(),
    {
        Edge { source_index: -1, destination_index: -1 }
    }

    pub fn is_active(self) -> (r: bool)
        ensures
            r == (self.source_index != -1 || self.destination_index != -1),
    {
        self.source_index != -1 || self.destination_index != -1
    }
}

} // verus!
