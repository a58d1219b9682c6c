//! Axis permutation and generalized tensor contraction over dense row-major arrays.

pub mod permutation;
pub mod shape;
pub mod array;
pub mod contraction;
