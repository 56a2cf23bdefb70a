//! The three axes.
use vstd::prelude::*;

verus! {

/// One of the three unsigned axes.
#[derive(Debug, Clone, Copy, PartialEq, Eq)]
pub enum Axis {
    X,
    Y,
    Z,
}

impl Axis {
    /// Every axis, in the order `X, Y, Z`.
    pub fn all() -> (r: [Axis; 3])
        ensures
            r@ == seq![Axis::X, Axis::Y, Axis::Z],
    {
        [Axis::X, Axis::Y, Axis::Z]
    }

    /// The unit vector of the axis.
    pub open spec fn spec_coords(self) -> Seq<u32> {
        match self {
            Axis::X => seq![1u32, 0, 0],
            Axis::Y => seq![0u32, 1, 0],
            Axis::Z => seq![0u32, 0, 1],
        }
    }

    /// The unit vector of the axis.
    pub fn coords(&self) -> (r: [u32; 3])
        ensures
            r@ == self.spec_coords(),
    {
        match self {
            Axis::X => [1, 0, 0],
            Axis::Y => [0, 1, 0],
            Axis::Z => [0, 0, 1],
        }
    }
}

} // verus!
