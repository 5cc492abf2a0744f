use vstd::prelude::*;

verus! {

/// The unit sphere centred on the origin of its own object space.
///
/// A sphere carries no data: position, size and orientation come from the
/// transform of the shape that holds it.
#[derive(Debug, PartialEq, Eq, Structural, Clone, Copy)]
pub struct Sphere;

impl Sphere {
    pub fn new() -> (s: Self)
        ensures
            s == Sphere,
    {
        Sphere
    }
}

} // verus!
