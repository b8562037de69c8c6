pub mod anneal;
pub mod candidates;
pub mod generator;
pub mod grid;
pub mod intersections;
pub mod layout;
pub mod random;
pub mod scoring;
pub mod simple_input;
pub mod strategies;
pub mod trim;
