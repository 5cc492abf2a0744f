use vstd::prelude::*;

verus! {

/// A stand-in geometry for exercising what shapes do with any geometry:
/// its normal at a point is the point itself, read as a vector, and it is
/// never intersected.
#[derive(Debug, PartialEq, Eq, Structural, Clone, Copy)]
pub struct TestShape;

} // verus!
