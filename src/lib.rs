//! A directed, weighted trust network: participants rate one another with
//! signed integer weights, and the library derives an adjacency matrix,
//! mutual-connection triads and mutual trust scores from the ratings, and
//! drives the power iteration that approximates eigenvector centrality.
pub mod centrality;
pub mod digraph;
pub mod graph;
pub mod relationships;
