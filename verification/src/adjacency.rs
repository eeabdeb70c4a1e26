pub mod adj_array;
pub mod error;
pub mod graph;
pub mod node;
pub mod ranking;
pub mod registry;
pub mod tile_count;
pub mod units;

pub use crate::adjacency::adj_array::AdjArray;
pub use crate::adjacency::adj_array::Iter;
pub use crate::adjacency::error::BuildError;
pub use crate::adjacency::node::Node;
pub use crate::adjacency::registry::Adjacency;
pub use crate::adjacency::tile_count::get_tile_count;
