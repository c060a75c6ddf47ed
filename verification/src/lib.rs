//! All-pairs shortest paths over dense weighted graphs, computed by a family
//! of verified engines: single-source relaxation run from every node, its
//! row-partitioned variant, triple-loop relaxation, and block-decomposed
//! sequential and partitioned variants. Every engine is proved to return the
//! same value: the min-plus shortest-distance matrix of the loaded graph.

pub mod algorithms;
pub mod base;
pub mod fwb_function;
pub mod graph;
pub mod minplus;
pub mod shortest;
pub mod walks;
