//! Enumeration of the maximal connected induced bipartite subgraphs of an
//! undirected graph by a search over neighbouring solutions.

pub mod bipartite_subgraph;
pub mod breadth_first;
pub mod enumeration;
pub mod graph;
pub mod proximity;
pub mod two_coloring;
pub mod union_find;
pub mod vertex_set;
