use vstd::prelude::*;

verus! {

/// Failure kinds of the geometric kernel.
#[derive(Clone, Copy, Debug, PartialEq, Eq, Structural)]
pub enum CurveError {
    /// A cubic-only operation was asked of a curve of another degree.
    DegreeMismatch,
    /// A singular system: parallel or zero-length edges, a zero tangent at an
    /// endpoint, a zero determinant.
    DegenerateGeometry,
    /// An iteration ran out of steps before meeting its tolerance.
    NonConvergence,
    /// An exact intermediate value left the range of the integer type that
    /// holds it.
    OutOfRange,
}

} // verus!
