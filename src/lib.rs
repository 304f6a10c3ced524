//! Decomposition of ZX-diagrams with magic-state (T) vertices into a
//! scalar-weighted sum of stabilizer diagrams.
pub mod bound;
pub mod decompose;
pub mod graph;
pub mod rewrite;
pub mod scalar;
pub mod split;
