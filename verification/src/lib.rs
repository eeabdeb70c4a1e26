//! Even placement of tiles on a sphere, reduced to what decides the neighbour
//! graph: the ranking of node pairs by distance, the greedy choice of edges, the
//! fixed-capacity neighbour lists and the registry that keeps one graph per tile
//! count.
pub mod adjacency;
