//! Chunks stored as a plain array of voxels.
use vstd::prelude::*;

use crate::voxel::Voxel;

verus! {

/// A chunk stored as a plain array of voxels, in flat index order.
pub struct ArrayChunk {
    inner: [Voxel; 4096],
}

impl View for ArrayChunk {
    type V = Seq<Voxel>;

    /// The voxels of the chunk, in flat index order.
    closed spec fn view(&self) -> Seq<Voxel> {
        self.inner@
    }
}

impl Default for ArrayChunk {
    /// A chunk of empty voxels.
    fn default() -> (r: Self)
        ensures
            r@ == Seq::new(4096, |i: int| Voxel(0)),
    {
        let inner = vstd::array::array_fill_for_copy_types::<Voxel, 4096>(Voxel(0));
        let r = Self { inner };
        assert(r@ =~= Seq::new(4096, |i: int| Voxel(0)));
        r
    }
}

impl ArrayChunk {
    /// A chunk holding the given voxels.
    pub fn new(inner: [Voxel; 4096]) -> (r: Self)
        ensures
            r@ == inner@,
    {
        Self { inner }
    }

    /// A chunk holds 4096 voxels.
    pub proof fn lemma_len(&self)
        ensures
            self@.len() == 4096,
    {
    }

    /// The voxel at `index`, which must be below `4096`.
    pub fn get(&self, index: usize) -> (r: Voxel)
        requires
            index < 4096,
        ensures
            r == self@[index as int],
    {
        self.inner[index]
    }

    /// Stores `voxel` at `index`, which must be below `4096`.
    pub fn set(&mut self, index: usize, voxel: Voxel)
        requires
            index < 4096,
        ensures
            final(self)@ == old(self)@.update(index as int, voxel),
    {
        self.inner[index] = voxel;
    }
}

} // verus!
