use vstd::prelude::*;

verus! {

/// The plane `y = 0` of its own object space, endless in `x` and `z`.
///
/// A plane carries no data: where it lies in the scene comes from the
/// transform of the shape that holds it.
#[derive(Debug, PartialEq, Eq, Structural, Clone, Copy)]
pub struct Plane;

} // verus!
