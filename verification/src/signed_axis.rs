//! The six faces of a cube, in the order the mesher walks them.
use vstd::prelude::*;

verus! {

/// A face direction: the positive directions first, then the negative ones.
#[derive(Debug, Clone, Copy, PartialEq, Eq, Hash)]
pub enum SignedAxis {
    PosX,
    PosY,
    PosZ,
    NegX,
    NegY,
    NegZ,
}

/// A face of a cube, named by the direction it looks in.
pub type Face = SignedAxis;

impl SignedAxis {
    /// Every face, positive directions first.
    pub const ALL: [SignedAxis; 6] = [
        SignedAxis::PosX,
        SignedAxis::PosY,
        SignedAxis::PosZ,
        SignedAxis::NegX,
        SignedAxis::NegY,
        SignedAxis::NegZ,
    ];
}

} // verus!
