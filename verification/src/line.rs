use vstd::prelude::*;

verus! {

/// The algorithms that draw a line.
#[derive(Debug, PartialEq, Eq, Structural, Default, Clone, Copy)]
pub enum LineAlg {
    #[default]
    Centerpoint,
}

} // verus!
