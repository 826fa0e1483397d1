//! Dynamic connectivity over a fixed universe of elements, and a percolation
//! grid built on top of it.
//!
//! The production engine is [`union_find::WeightedQuickUnion`]: weighted
//! union with path compression by halving.  [`grid::Grid`] uses it to decide
//! whether an n-by-n lattice of open sites percolates from top to bottom.

pub mod grid;
pub mod union_find;
