use vstd::prelude::*;

verus! {

/// Why a single search could not be run.
#[derive(Clone, Copy, Debug, PartialEq, Eq)]
pub enum BfsError {
    /// The start is not a node of the graph, or not a cell of the grid.
    OutOfRange,
    /// An adjacency list names a node outside the graph, or a grid's data
    /// does not hold exactly `width * height` cells.
    MalformedGraph,
    /// Two cells of the grid lie more hops apart than an `i32` can hold.
    TooLarge,
}

/// The failure of a batch of searches: the position in the list of starts of
/// the first start whose search failed, and why it failed.
#[derive(Clone, Copy, Debug, PartialEq, Eq)]
pub struct BatchError {
    pub index: usize,
    pub error: BfsError,
}

} // verus!
