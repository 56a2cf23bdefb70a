//! Voxels and how they take part in meshing.
use vstd::prelude::*;

use crate::chunk::pallet::PalletItem;

verus! {

/// The identifier of a kind of voxel; `0` is empty space.
pub type VoxelId = u16;

/// A single voxel, identified by its kind.
#[derive(Debug, Clone, Copy, Default, PartialEq, Eq)]
pub struct Voxel(pub VoxelId);

/// How a voxel takes part in meshing: empty voxels are skipped, opaque ones hide their neighbours.
#[derive(Debug, Clone, Copy, PartialEq, Eq)]
pub enum VoxelVisibility {
    Empty,
    Translucent,
    Opaque,
}

impl Voxel {
    /// Voxel kind `0` is empty, every other kind is opaque.
    pub fn get_visibility(&self) -> (r: VoxelVisibility)
        ensures
            r == if self.0 == 0 {
                VoxelVisibility::Empty
            } else {
                VoxelVisibility::Opaque
            },
    {
        if self.0 == 0 {
            VoxelVisibility::Empty
        } else {
            VoxelVisibility::Opaque
        }
    }

    /// Voxels of the same kind may be merged into one quad.
    pub fn merge_value(&self) -> (r: VoxelId)
        ensures
            r == self.0,
    {
        self.0
    }
}

impl PalletItem for Voxel {
    open spec fn spec_key(self) -> int {
        self.0 as int
    }

    fn key(&self) -> (r: u64) {
        self.0 as u64
    }

    proof fn lemma_key_injective(a: Self, b: Self) {
    }
}

} // verus!
