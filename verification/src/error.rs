use vstd::prelude::*;

verus! {

/// Why a request could not be answered.
#[derive(Clone, Copy, Debug, PartialEq, Eq, Structural)]
pub enum QueryError {
    /// The half-open range `[l, r)` holds no element (`l >= r`).
    EmptyRange,
    /// The right bound lies past the end of the sequence, or the highest set
    /// bit of zero was asked for.
    OutOfBounds,
}

} // verus!
