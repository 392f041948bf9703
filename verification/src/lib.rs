//! A fixed-capacity, undirected, unweighted graph backed by one bit-set of
//! neighbor indices per vertex, with constant-time edge mutation, edge
//! contraction, and depth-first traversal.

use vstd::prelude::*;

mod bits;
pub mod dfs;
pub mod graph;
pub mod model;

pub use dfs::DfsIterator;
pub use graph::BitGraph;

verus! {

/// Largest capacity a graph may be created with: the square of the machine
/// word's bit width, reflecting the two-level bit-set encoding.
pub const MAX_CAPACITY: u32 = usize::BITS * usize::BITS;

/// The precondition violations that the checked operations detect before
/// mutating anything.
#[derive(Debug, Clone, Copy, PartialEq, Eq, Structural)]
pub enum GraphError {
    /// A requested capacity exceeds `MAX_CAPACITY`.
    CapacityExceeded,
    /// A supplied vertex index is not below the graph's capacity.
    OutOfBounds,
    /// The two endpoints supplied to an edge operation are identical.
    SelfLoop,
    /// An edge contraction was asked for a pair with no edge between them.
    NonexistentEdge,
}

} // verus!
