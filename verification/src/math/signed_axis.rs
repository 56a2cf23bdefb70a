//! The six axis aligned directions, with their signs and axes.
use vstd::prelude::*;

use super::axis::Axis;
use super::Sign;

verus! {

/// One of the six axis aligned directions.
#[derive(Debug, Clone, Copy, PartialEq, Eq, Hash)]
pub enum SignedAxis {
    PosX,
    PosY,
    PosZ,
    NegX,
    NegY,
    NegZ,
}

impl SignedAxis {
    /// Every direction, in the order `PosX, NegX, PosY, NegY, PosZ, NegZ`.
    pub fn all() -> (r: [SignedAxis; 6])
        ensures
            r@ == seq![
                SignedAxis::PosX,
                SignedAxis::NegX,
                SignedAxis::PosY,
                SignedAxis::NegY,
                SignedAxis::PosZ,
                SignedAxis::NegZ,
            ],
    {
        [
            SignedAxis::PosX,
            SignedAxis::NegX,
            SignedAxis::PosY,
            SignedAxis::NegY,
            SignedAxis::PosZ,
            SignedAxis::NegZ,
        ]
    }

    /// The sign of the direction.
    pub open spec fn spec_sign(self) -> Sign {
        match self {
            SignedAxis::PosX | SignedAxis::PosY | SignedAxis::PosZ => Sign::Pos,
            _ => Sign::Neg,
        }
    }

    /// The axis of the direction.
    pub open spec fn spec_axis(self) -> Axis {
        match self {
            SignedAxis::PosX | SignedAxis::NegX => Axis::X,
            SignedAxis::PosY | SignedAxis::NegY => Axis::Y,
            SignedAxis::PosZ | SignedAxis::NegZ => Axis::Z,
        }
    }

    /// The unit vector of the direction: the axis' unit vector times the sign.
    pub open spec fn spec_coords(self) -> Seq<i32> {
        let s: i32 = match self.spec_sign() {
            Sign::Pos => 1,
            Sign::Neg => -1i32,
        };
        match self.spec_axis() {
            Axis::X => seq![s, 0i32, 0i32],
            Axis::Y => seq![0i32, s, 0i32],
            Axis::Z => seq![0i32, 0i32, s],
        }
    }

    /// The unit vector of the direction.
    pub fn coords(&self) -> (r: [i32; 3])
        ensures
            r@ == self.spec_coords(),
    {
        match self {
            SignedAxis::PosX => [1, 0, 0],
            SignedAxis::NegX => [-1, 0, 0],
            SignedAxis::PosY => [0, 1, 0],
            SignedAxis::NegY => [0, -1, 0],
            SignedAxis::PosZ => [0, 0, 1],
            SignedAxis::NegZ => [0, 0, -1],
        }
    }

    /// The sign of the direction.
    pub fn sign(&self) -> (r: Sign)
        ensures
            r == self.spec_sign(),
    {
        match self {
            SignedAxis::PosX | SignedAxis::PosY | SignedAxis::PosZ => Sign::Pos,
            SignedAxis::NegX | SignedAxis::NegY | SignedAxis::NegZ => Sign::Neg,
        }
    }

    /// The axis of the direction.
    pub fn axis(&self) -> (r: Axis)
        ensures
            r == self.spec_axis(),
    {
        match self {
            SignedAxis::PosX | SignedAxis::NegX => Axis::X,
            SignedAxis::PosY | SignedAxis::NegY => Axis::Y,
            SignedAxis::PosZ | SignedAxis::NegZ => Axis::Z,
        }
    }

    /// The sign and the axis of the direction.
    pub fn components(&self) -> (r: (Sign, Axis))
        ensures
            r == (self.spec_sign(), self.spec_axis()),
    {
        match self {
            SignedAxis::PosX => (Sign::Pos, Axis::X),
            SignedAxis::NegX => (Sign::Neg, Axis::X),
            SignedAxis::PosY => (Sign::Pos, Axis::Y),
            SignedAxis::NegY => (Sign::Neg, Axis::Y),
            SignedAxis::PosZ => (Sign::Pos, Axis::Z),
            SignedAxis::NegZ => (Sign::Neg, Axis::Z),
        }
    }
}

} // verus!
