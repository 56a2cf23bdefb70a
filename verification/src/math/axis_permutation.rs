//! Orderings of the three axes.
use vstd::prelude::*;

use super::axis::Axis;

verus! {

/// An ordering of the three axes.
#[derive(Debug, Clone, Copy, PartialEq, Eq)]
pub enum AxisPermutation {
    XYZ,
    YZX,
    ZXY,
    XZY,
    YXZ,
    ZYX,
}

impl AxisPermutation {
    /// The even permutation that starts with `axis`.
    pub fn even(axis: Axis) -> (r: Self)
        ensures
            r == match axis {
                Axis::X => AxisPermutation::XYZ,
                Axis::Y => AxisPermutation::YZX,
                Axis::Z => AxisPermutation::ZXY,
            },
    {
        match axis {
            Axis::X => AxisPermutation::XYZ,
            Axis::Y => AxisPermutation::YZX,
            Axis::Z => AxisPermutation::ZXY,
        }
    }

    /// The odd permutation that starts with `axis`.
    pub fn odd(axis: Axis) -> (r: Self)
        ensures
            r == match axis {
                Axis::X => AxisPermutation::XZY,
                Axis::Y => AxisPermutation::YXZ,
                Axis::Z => AxisPermutation::ZYX,
            },
    {
        match axis {
            Axis::X => AxisPermutation::XZY,
            Axis::Y => AxisPermutation::YXZ,
            Axis::Z => AxisPermutation::ZYX,
        }
    }

    /// The axis that each of `X`, `Y`, `Z` (in that order) is mapped to.
    pub open spec fn spec_axis_map(self) -> Seq<Axis> {
        match self {
            AxisPermutation::XYZ => seq![Axis::X, Axis::Y, Axis::Z],
            AxisPermutation::YZX => seq![Axis::Z, Axis::X, Axis::Y],
            AxisPermutation::ZXY => seq![Axis::Y, Axis::Z, Axis::X],
            AxisPermutation::XZY => seq![Axis::X, Axis::Z, Axis::Y],
            AxisPermutation::YXZ => seq![Axis::Y, Axis::X, Axis::Z],
            AxisPermutation::ZYX => seq![Axis::Z, Axis::Y, Axis::X],
        }
    }

    /// The axis that each of `X`, `Y`, `Z` (in that order) is mapped to.
    pub fn axis_map(&self) -> (r: [Axis; 3])
        ensures
            r@ == self.spec_axis_map(),
    {
        match self {
            AxisPermutation::XYZ => [Axis::X, Axis::Y, Axis::Z],
            AxisPermutation::YZX => [Axis::Z, Axis::X, Axis::Y],
            AxisPermutation::ZXY => [Axis::Y, Axis::Z, Axis::X],
            AxisPermutation::XZY => [Axis::X, Axis::Z, Axis::Y],
            AxisPermutation::YXZ => [Axis::Y, Axis::X, Axis::Z],
            AxisPermutation::ZYX => [Axis::Z, Axis::Y, Axis::X],
        }
    }
}

} // verus!
