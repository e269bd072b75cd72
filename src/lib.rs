//! A spanning-tree engine over a rectangular grid of cells, used to drive a
//! maze display: randomized depth-first construction, a fixed comb-shaped
//! construction, root discovery, and live re-rooting of the tree.

pub mod node;
mod random;
pub mod tree;
pub mod maze;
pub mod control;
