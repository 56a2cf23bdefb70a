//! Chunks of `16 × 16 × 16` voxels and the forms they are stored in.
use vstd::prelude::*;

pub mod array_chunk;
pub mod pallet;
pub mod pallet_chunk;
pub mod space;
pub mod voxel_pos;

use array_chunk::ArrayChunk;
use pallet_chunk::PalletChunk;
use space::{VLocalPos, VOXELS_IN_CHUNK};

use crate::voxel::Voxel;

verus! {

/// A chunk's voxels, stored in whichever form suits them: all empty, all one voxel, a
/// plain array, or a pallet of kinds with packed indices.
#[derive(Default)]
pub enum Chunk {
    /// Every voxel is empty (`Voxel(0)`).
    #[default]
    Empty,
    /// Every voxel is the given one.
    Filled(Voxel),
    /// One voxel per array element.
    Array(ArrayChunk),
    /// Voxels as indices into a pallet.
    Pallet(PalletChunk),
}

impl View for Chunk {
    type V = Seq<Voxel>;

    /// The voxels of the chunk, in flat index order.
    open spec fn view(&self) -> Seq<Voxel> {
        match self {
            Chunk::Empty => Seq::new(VOXELS_IN_CHUNK as nat, |i: int| Voxel(0)),
            Chunk::Filled(v) => Seq::new(VOXELS_IN_CHUNK as nat, |i: int| *v),
            Chunk::Array(a) => a@,
            Chunk::Pallet(p) => p@,
        }
    }
}

impl Chunk {
    /// A pallet chunk is well formed.
    pub open spec fn wf(&self) -> bool {
        match self {
            Chunk::Pallet(p) => p.wf(),
            _ => true,
        }
    }

    /// A chunk holds `VOXELS_IN_CHUNK` voxels.
    pub proof fn lemma_len(&self)
        requires
            self.wf(),
        ensures
            self@.len() == VOXELS_IN_CHUNK,
    {
        match self {
            Chunk::Array(a) => a.lemma_len(),
            Chunk::Pallet(p) => p.lemma_len(),
            _ => {},
        }
    }

    /// The voxel at `pos`.
    pub fn get(&self, pos: VLocalPos) -> (r: Voxel)
        requires
            self.wf(),
        ensures
            r == self@[pos.spec_flat_index()],
    {
        let index = pos.flat_index();
        match self {
            Chunk::Empty => Voxel(0),
            Chunk::Filled(v) => *v,
            Chunk::Array(a) => a.get(index),
            Chunk::Pallet(p) => match p.get(index) {
                Ok(v) => v,
                Err(_) => Voxel(0),
            },
        }
    }

    /// Stores `voxel` at `pos`; an empty or filled chunk becomes a pallet chunk first.
    pub fn set(&mut self, pos: VLocalPos, voxel: Voxel)
        requires
            old(self).wf(),
        ensures
            final(self).wf(),
            final(self)@ == old(self)@.update(pos.spec_flat_index(), voxel),
            *old(self) is Array ==> *final(self) is Array,
            !(*old(self) is Array) ==> *final(self) is Pallet,
    {
        let index = pos.flat_index();
        match self {
            Chunk::Empty => {
                let mut pallet_chunk = PalletChunk::filled(Voxel(0));
                let _ = pallet_chunk.set(index, voxel);
                *self = Chunk::Pallet(pallet_chunk);
            },
            Chunk::Filled(v) => {
                let mut pallet_chunk = PalletChunk::filled(*v);
                let _ = pallet_chunk.set(index, voxel);
                *self = Chunk::Pallet(pallet_chunk);
            },
            Chunk::Array(a) => a.set(index, voxel),
            Chunk::Pallet(p) => {
                let _ = p.set(index, voxel);
            },
        }
    }
}

} // verus!
