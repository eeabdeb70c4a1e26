use crate::adjacency::units::ClosedUnitInterval;
use vstd::prelude::*;

verus! {

/// One tile of a sphere that is divided into `nodes` tiles.
#[derive(Debug, Copy, Clone, Ord, PartialOrd, Eq, PartialEq, Hash)]
pub struct Node {
    index: u16,
    nodes: u16,
}

impl Node {
    #[verifier::type_invariant]
    spec fn in_range(self) -> bool {
        self.index < self.nodes
    }

    pub closed spec fn spec_index(self) -> u16 {
        self.index
    }

    pub closed spec fn spec_nodes(self) -> u16 {
        self.nodes
    }

    /// Tile `index` of `nodes` tiles.
    pub fn new(index: u16, nodes: u16) -> (node: Node)
        requires
            index < nodes,
        ensures
            node.spec_index() == index,
            node.spec_nodes() == nodes,
    {
        Node { index, nodes }
    }

    /// The tile's index, which is below the tile count.
    #[verifier::when_used_as_spec(spec_index)]
    pub fn index(self) -> (index: u16)
        ensures
            index == self.spec_index(),
            index < self.spec_nodes(),
    {
        proof {
            use_type_invariant(self);
        }
        self.index
    }

    /// The number of tiles of the sphere.
    #[verifier::when_used_as_spec(spec_nodes)]
    pub fn nodes(self) -> (nodes: u16)
        ensures
            nodes == self.spec_nodes(),
            self.spec_index() < nodes,
    {
        proof {
            use_type_invariant(self);
        }
        self.nodes
    }

    /// The share of the sphere's area that lies above this node: the middle of the
    /// node's own share, `(index + 1/2) / nodes`.
    pub fn fraction(self) -> (f: ClosedUnitInterval)
        ensures
            f.spec_numerator() == 2 * self.spec_index() + 1,
            f.spec_denominator() == 2 * self.spec_nodes(),
    {
        proof {
            use_type_invariant(self);
        }
        ClosedUnitInterval::fraction(self.index, self.nodes)
    }
}

} // verus!
