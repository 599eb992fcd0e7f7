//! The error kinds of the library.

use vstd::prelude::*;

verus! {

/// The ways in which one input, or the pairing of index and scan, can be unfit.
#[derive(Clone, Copy, Debug, PartialEq, Eq, Structural)]
pub enum OverlineError {
    /// An ordinate of a point is not a number.
    InvalidCoordinate,
    /// A line has fewer than two points, or its bearing is not finite.
    DegenerateGeometry,
    /// A segment met while grouping is absent from the segment index.
    InternalConsistencyFault,
}

} // verus!
