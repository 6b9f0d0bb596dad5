pub mod algorithms;
pub mod alloc_counts;
pub mod dimacs;
pub mod generators;
pub mod graph_repr;
pub mod graph_source;
pub mod graph_store;
mod rng;
pub mod text;
