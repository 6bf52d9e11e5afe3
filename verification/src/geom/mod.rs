use vstd::prelude::*;

pub mod circles;

pub use circles::{Circle, RotCircle};

verus! {

/// The constant-curvature model a session works in.  It is fixed for the
/// length of a search and selects the distance and rotation formulas of the
/// numeric kernel.
#[derive(Debug, Copy, Clone, PartialEq, Eq, Structural)]
pub enum Curvature {
    Spherical,
    Euclidean,
    Hyperbolic,
}

impl Default for Curvature {
    /// The flat plane is the model a fresh session starts in.
    fn default() -> (c: Self)
        ensures
            c == Curvature::Euclidean,
    {
        Curvature::Euclidean
    }
}

} // verus!
