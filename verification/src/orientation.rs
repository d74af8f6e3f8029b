use vstd::prelude::*;

verus! {

/// The turn made by three points in the plane: left, right, or none at all.
#[derive(Clone, Copy, PartialEq, Eq, Structural, Debug)]
pub enum Orientation {
    Counterclockwise,
    Clockwise,
    Collinear,
}

} // verus!
