//! A labeled undirected graph loaded from flat-text node and edge records,
//! with unweighted shortest-path queries: breadth-first search from a start
//! node with explicit predecessor tracking, and reconstruction of the label
//! sequence along a shortest path.

pub mod builder;
pub mod graph;
pub mod index;
pub mod parse;
pub mod path;
pub mod query;
pub mod search;
