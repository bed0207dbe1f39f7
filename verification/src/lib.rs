//! Minimum-total-distance one-to-one matching between two labeled item
//! sets, solved by best-first branch-and-bound over partial assignments.
//!
//! Distances are fixed-point values in micro-units (one unit is 10^-6),
//! so every cost and bound is exact integer arithmetic.

pub mod candidates;
pub mod solver;
pub mod errors;
pub mod hash;
pub mod parse;
pub mod visited;
