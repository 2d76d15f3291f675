//! The ways in which a request to the library can be rejected.

use vstd::prelude::*;

verus! {

/// Why an operation refused its input.
#[derive(Clone, Copy, Debug, PartialEq, Eq, Structural)]
pub enum GridError {
    /// A point lies outside the declared grid bounds.
    OutOfBounds,
    /// A grid was requested with fewer than one column or fewer than one row.
    InvalidGridSize,
    /// The two endpoints of a line share their x coordinate, so the line has no slope.
    DegenerateLine,
}

} // verus!
