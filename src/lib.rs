//! Structural statistics over an undirected graph of string-labelled nodes:
//! the parsing of connection lists into rows of the graph, breadth-first hop
//! distances, first- and second-hop degree distributions, and the integer
//! aggregates behind the path-length and average-degree figures.

pub mod analysis;
pub mod graph;
pub mod row;
