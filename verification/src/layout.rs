//! Retained layout nodes and their flexbox properties.

pub mod graph;
pub mod style;
pub mod tree;
