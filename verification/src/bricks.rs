//! Chunks made of bricks: a chunk is a cube of `2 × 2 × 2` bricks, a brick a cube of
//! `16 × 16 × 16` voxels, stored whole or, when every voxel is the same, as that voxel.
use vstd::prelude::*;

use crate::utils::{subdivide_index, subdivided};
use crate::vec3::{I8Vec3, U8Vec3};
use crate::voxel::{Voxel, VoxelId};

verus! {

/// The side of a brick, in voxels.
pub const LENGTH_IN_VOXELS: u8 = 16;

/// The number of voxels in a brick.
pub const VOLUME_IN_VOXELS: usize = 4096;

/// The side of a chunk, in bricks.
pub const LENGTH_IN_BRICKS: u8 = 2;

/// The number of bricks in a chunk.
pub const VOLUME_IN_BRICKS: usize = 8;

/// The side of a chunk, in voxels.
pub const CHUNK_LENGTH_IN_VOXELS: u8 = 32;

/// The position of cell `index` in a cube of side `2^bits`.
pub open spec fn cell_position(index: int, bits: nat) -> U8Vec3 {
    let c = subdivided(index, bits);
    U8Vec3 { x: c.0 as u8, y: c.1 as u8, z: c.2 as u8 }
}

/// Whether every coordinate of `p` is below `side`.
pub open spec fn within(p: U8Vec3, side: int) -> bool {
    p.x < side && p.y < side && p.z < side
}

/// A cube of `16 × 16 × 16` voxels: either one voxel repeated, or every voxel in index
/// order (`x` fastest, then `y`, then `z`).
#[derive(Debug, Clone, PartialEq, Eq)]
pub enum Brick {
    Uniform(Voxel),
    NonUniform(Box<[Voxel; 4096]>),
}

impl Brick {
    /// The brick's voxels, in index order.
    pub open spec fn voxels(self) -> Seq<Voxel> {
        match self {
            Brick::Uniform(v) => Seq::new(4096, |i: int| v),
            Brick::NonUniform(b) => (*b)@,
        }
    }

    /// A brick whose voxel at each index is the kind `function` gives for that index.
    pub fn from_fn_indices<F>(function: F) -> (r: Self) where F: Fn(usize) -> VoxelId
        requires
            forall|i: usize| i < 4096 ==> #[trigger] function.requires((i,)),
        ensures
            r is NonUniform,
            r.voxels().len() == 4096,
            forall|i: int| 0 <= i < 4096 ==> function.ensures((i as usize,), #[trigger] r.voxels()[i].0),
    {
        let mut voxels = vstd::array::array_fill_for_copy_types::<Voxel, 4096>(Voxel(0));
        let mut index: usize = 0;
        while index < 4096
            invariant
                index <= 4096,
                voxels@.len() == 4096,
                forall|i: usize| i < 4096 ==> #[trigger] function.requires((i,)),
                forall|j: int| 0 <= j < index ==> function.ensures((j as usize,), #[trigger] voxels@[j].0),
            decreases 4096 - index,
        {
            let id = function(index);
            voxels[index] = Voxel(id);
            index = index + 1;
        }
        Brick::NonUniform(Box::new(voxels))
    }

    /// A brick whose voxel at each position is the kind `function` gives for that
    /// position.
    pub fn from_fn_positions<F>(function: F) -> (r: Self) where F: Fn(U8Vec3) -> VoxelId
        requires
            forall|p: U8Vec3| within(p, 16) ==> #[trigger] function.requires((p,)),
        ensures
            r is NonUniform,
            r.voxels().len() == 4096,
            forall|i: int|
                0 <= i < 4096 ==> function.ensures((cell_position(i, 4),), #[trigger] r.voxels()[i].0),
    {
        let mut voxels = vstd::array::array_fill_for_copy_types::<Voxel, 4096>(Voxel(0));
        let mut index: usize = 0;
        proof {
            vstd::arithmetic::power2::lemma2_to64();
        }
        while index < 4096
            invariant
                index <= 4096,
                voxels@.len() == 4096,
                vstd::arithmetic::power2::pow2(4) == 16,
                vstd::arithmetic::power2::pow2(12) == 4096,
                forall|p: U8Vec3| within(p, 16) ==> #[trigger] function.requires((p,)),
                forall|j: int|
                    0 <= j < index ==> function.ensures((cell_position(j, 4),), #[trigger] voxels@[j].0),
            decreases 4096 - index,
        {
            let position = subdivide_index::<4>(index);
            assert(position == cell_position(index as int, 4));
            let id = function(position);
            voxels[index] = Voxel(id);
            index = index + 1;
        }
        Brick::NonUniform(Box::new(voxels))
    }

    /// Stores the brick as one voxel when all its voxels are the same; the voxels stay
    /// what they were.
    pub fn attempt_collapse(&mut self)
        ensures
            final(self).voxels() == old(self).voxels(),
            *old(self) is Uniform ==> *final(self) == *old(self),
            *old(self) is NonUniform && old(self).voxels().len() > 0 ==> if (forall|i: int|
                0 <= i < old(self).voxels().len() ==> #[trigger] old(self).voxels()[i] == old(
                    self,
                ).voxels()[0]) {
                *final(self) == Brick::Uniform(old(self).voxels()[0])
            } else {
                *final(self) == *old(self)
            },
    {
        let mut collapsed: Option<Voxel> = None;
        if let Brick::NonUniform(voxels) = &*self {
            let first = voxels[0];
            let mut index: usize = 1;
            let mut all = true;
            while index < 4096
                invariant
                    1 <= index <= 4096,
                    voxels@.len() == 4096,
                    first == voxels@[0],
                    all == forall|j: int| 1 <= j < index ==> #[trigger] voxels@[j] == first,
                decreases 4096 - index,
            {
                if voxels[index].0 != first.0 {
                    all = false;
                }
                index = index + 1;
            }
            if all {
                collapsed = Some(first);
            }
            proof {
                if !all {
                    let j = choose|j: int| 1 <= j < 4096 && voxels@[j] != first;
                    assert(self.voxels()[j] != self.voxels()[0]);
                }
            }
        }
        if let Some(first) = collapsed {
            let ghost before = self.voxels();
            *self = Brick::Uniform(first);
            assert(self.voxels() =~= before);
        }
    }
}

/// A cube of `2 × 2 × 2` bricks, in index order.
#[derive(Debug, Clone, PartialEq, Eq)]
pub struct Chunk {
    pub bricks: [Brick; 8],
}

impl Chunk {
    /// A chunk whose brick at each position is the one `function` gives for that
    /// position.
    pub fn from_fn_positions<F>(function: F) -> (r: Self) where F: Fn(U8Vec3) -> Brick
        requires
            forall|p: U8Vec3| within(p, 2) ==> #[trigger] function.requires((p,)),
        ensures
            forall|i: int| 0 <= i < 8 ==> function.ensures((cell_position(i, 1),), #[trigger] r.bricks@[i]),
    {
        proof {
            vstd::arithmetic::power2::lemma2_to64();
        }
        let p0 = subdivide_index::<1>(0);
        let p1 = subdivide_index::<1>(1);
        let p2 = subdivide_index::<1>(2);
        let p3 = subdivide_index::<1>(3);
        let p4 = subdivide_index::<1>(4);
        let p5 = subdivide_index::<1>(5);
        let p6 = subdivide_index::<1>(6);
        let p7 = subdivide_index::<1>(7);
        let bricks = [
            function(p0),
            function(p1),
            function(p2),
            function(p3),
            function(p4),
            function(p5),
            function(p6),
            function(p7),
        ];
        let r = Self { bricks };
        assert(p0 == cell_position(0, 1));
        assert(p1 == cell_position(1, 1));
        assert(p2 == cell_position(2, 1));
        assert(p3 == cell_position(3, 1));
        assert(p4 == cell_position(4, 1));
        assert(p5 == cell_position(5, 1));
        assert(p6 == cell_position(6, 1));
        assert(p7 == cell_position(7, 1));
        r
    }
}

/// The six positions next to `pos`, in the order `+x, -x, +y, -y, +z, -z`. The signed
/// arithmetic overflows from `127` on, so those positions are left out.
pub fn adjacent_positions(pos: U8Vec3) -> (r: [I8Vec3; 6])
    requires
        pos.x < 127 && pos.y < 127 && pos.z < 127,
    ensures
        r@ == seq![
            I8Vec3 { x: (pos.x + 1) as i8, y: pos.y as i8, z: pos.z as i8 },
            I8Vec3 { x: (pos.x - 1) as i8, y: pos.y as i8, z: pos.z as i8 },
            I8Vec3 { x: pos.x as i8, y: (pos.y + 1) as i8, z: pos.z as i8 },
            I8Vec3 { x: pos.x as i8, y: (pos.y - 1) as i8, z: pos.z as i8 },
            I8Vec3 { x: pos.x as i8, y: pos.y as i8, z: (pos.z + 1) as i8 },
            I8Vec3 { x: pos.x as i8, y: pos.y as i8, z: (pos.z - 1) as i8 },
        ],
{
    let x = pos.x as i8;
    let y = pos.y as i8;
    let z = pos.z as i8;
    [
        I8Vec3 { x: x + 1, y, z },
        I8Vec3 { x: x - 1, y, z },
        I8Vec3 { x, y: y + 1, z },
        I8Vec3 { x, y: y - 1, z },
        I8Vec3 { x, y, z: z + 1 },
        I8Vec3 { x, y, z: z - 1 },
    ]
}

} // verus!
