//! The ways in which a computation can fail.

use vstd::prelude::*;

verus! {

/// Why no result is returned.
#[derive(Clone, Copy, Debug, PartialEq, Eq, Structural)]
pub enum InverseError {
    /// A quotient of the Euclidean recursion does not fit in `i32`.
    ArithmeticOverflow,
    /// The modulus is zero or negative.
    InvalidModulus,
}

} // verus!
