use vstd::prelude::*;

verus! {

/// Fatal conditions a run can end in. Every component surfaces these as
/// values; only the outer driver may turn one into a process exit.
#[derive(Clone, Copy, Debug, PartialEq, Eq, Structural)]
pub enum Error {
    /// A distance field is not numeric (or a needed field is missing),
    /// or the header yields zero row items or zero column items.
    ParseError,
    /// The number of column items exceeds the widest representable
    /// column index; carries the observed count and the limit.
    CapacityError { count: usize, limit: usize },
    /// The distance values are so large that an accumulated bound could
    /// not be held exactly in 64 bits.
    DistanceOverflow,
    /// The search queue emptied before any complete assignment was
    /// reached: a combinatorial outcome, not an input error.
    NoSolution,
}

} // verus!
