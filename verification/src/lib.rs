//! A population-based stochastic search for short closed tours in a weighted
//! graph, with every operator proved to keep each candidate a permutation of
//! the node identifiers.

pub mod tour;
pub mod random;
pub mod graph;
pub mod graph_parser;
pub mod params;
pub mod mutation;
pub mod crossover;
pub mod selection;
pub mod genetic;
