//! The shortest-path engines. Each is proved to return exactly the
//! min-plus shortest-distance matrix of the graph it is given.

pub mod dijkstra_am;
pub mod dijkstra_par;
pub mod floyd_warshall_am;
pub mod floyd_warshall_block;
pub mod floyd_warshall_block_par;
