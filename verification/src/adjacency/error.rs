use vstd::prelude::*;

verus! {

/// Why the neighbour graph of a tile count cannot be built. None of these is
/// transient: each shows that the distance table, or the capacity of the neighbour
/// lists, does not fit the tile count.
#[derive(Debug, Copy, Clone, PartialEq, Eq)]
pub enum BuildError {
    /// The tile count is above the largest that a node index can name.
    TooManyNodes { nodes: usize },
    /// The distance table does not hold one key per pair of nodes.
    PairCount { expected: u64, found: usize },
    /// The key at this position of the table is not a finite distance.
    NonFinite { position: usize },
    /// The edge at this rank does not join two distinct nodes of the graph, the
    /// smaller index first.
    InvalidPair { position: usize },
    /// This node would get more neighbours than a list can hold.
    CapacityOverflow { node: usize },
}

} // verus!
