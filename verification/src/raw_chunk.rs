//! Padded chunks of `32 × 32 × 32` voxels, indexed the way `ndshape` lays out a cube of
//! side `2^5`, whose voxels can be swapped out whole while other threads read them.
use vstd::prelude::*;

use std::sync::Arc;

use arc_swap::ArcSwap;
use ndshape::{ConstPow2Shape3u32, ConstShape};

use crate::vec3::{I64Vec3, IVec3, U8Vec3};
use crate::voxel::Voxel;

verus! {

/// The number of bits of each coordinate.
pub const BITS: u32 = 5;

/// The side of a padded chunk, in voxels.
pub const PADDED_LENGTH_IN_VOXELS: u32 = 32;

/// The number of voxels in a padded chunk.
pub const PADDED_VOLUME_IN_VOXELS: usize = 32768;

/// The side of a chunk without its padding, in voxels.
pub const LENGTH_IN_VOXELS: u32 = 30;

/// `ConstPow2Shape3u32::<5, 5, 5>::linearize`: `z` shifted up by ten bits, or-ed with `y`
/// shifted up by five, or-ed with `x`.
#[verifier::external_body]
fn shape_linearize(p: [u32; 3]) -> (r: u32)
    ensures
        r == (p@[2] << 10u32) | (p@[1] << 5u32) | p@[0],
{
    <ConstPow2Shape3u32<5, 5, 5> as ConstShape<3>>::linearize(p)
}

/// `ConstPow2Shape3u32::<5, 5, 5>::delinearize`: the three five-bit fields of `i`, lowest
/// first.
#[verifier::external_body]
fn shape_delinearize(i: u32) -> (r: [u32; 3])
    ensures
        r@ == seq![i & 0x1f, (i & 0x3e0) >> 5u32, (i & 0x7c00) >> 10u32],
{
    <ConstPow2Shape3u32<5, 5, 5> as ConstShape<3>>::delinearize(i)
}

/// The index of `pos` in a padded chunk: `x + 32 y + 1024 z` when every coordinate is
/// below `32`; larger coordinates spill into the fields above theirs, as the bitwise
/// layout does.
pub fn pos_to_index(pos: U8Vec3) -> (r: usize)
    ensures
        r == ((pos.z as u32) << 10u32) | ((pos.y as u32) << 5u32) | (pos.x as u32),
        pos.x < 32 && pos.y < 32 && pos.z < 32 ==> r == pos.x + 32 * pos.y + 1024 * pos.z,
{
    let x = pos.x as u32;
    let y = pos.y as u32;
    let z = pos.z as u32;
    let r = shape_linearize([x, y, z]);
    proof {
        if x < 32 && y < 32 && z < 32 {
            assert(x < 32 && y < 32 && z < 32 ==> (z << 10u32) | (y << 5u32) | x == x + 32 * y
                + 1024 * z) by (bit_vector);
        }
    }
    r as usize
}

/// The position of voxel `index` in a padded chunk: its three five-bit fields.
pub fn index_to_pos(index: usize) -> (r: U8Vec3)
    ensures
        r.x == index % 32,
        r.y == (index / 32) % 32,
        r.z == (index / 1024) % 32,
{
    let i = index as u32;
    let d = shape_delinearize(i);
    proof {
        assert(i & 0x1f < 32 && (i & 0x3e0) >> 5u32 < 32 && (i & 0x7c00) >> 10u32 < 32)
            by (bit_vector);
        assert(i & 0x1f == i % 32 && (i & 0x3e0) >> 5u32 == (i / 32) % 32 && (i & 0x7c00)
            >> 10u32 == (i / 1024) % 32) by (bit_vector);
        assert(index % 32 == i % 32 && (index / 32) % 32 == (i / 32) % 32 && (index / 1024) % 32
            == (i / 1024) % 32) by (bit_vector)
            requires
                i == index as u32,
        ;
    }
    U8Vec3 { x: d[0] as u8, y: d[1] as u8, z: d[2] as u8 }
}

/// The voxel position of the corner of the chunk at `chunk_pos`: each coordinate times
/// [`LENGTH_IN_VOXELS`].
pub fn chunk_pos_to_voxel_pos(chunk_pos: IVec3) -> (r: I64Vec3)
    ensures
        r.x == chunk_pos.x * 30,
        r.y == chunk_pos.y * 30,
        r.z == chunk_pos.z * 30,
{
    let side = LENGTH_IN_VOXELS as i64;
    I64Vec3 {
        x: chunk_pos.x as i64 * side,
        y: chunk_pos.y as i64 * side,
        z: chunk_pos.z as i64 * side,
    }
}

/// The voxels of a mixed chunk, behind an `arc_swap::ArcSwap` so that a new array can be
/// put in while other threads read the old one. Verus cannot take the crate's own
/// declaration of the type (it is bound by the crate's own traits), so it is held here.
#[verifier::external_body]
pub struct VoxelCell {
    inner: ArcSwap<[Voxel; 32768]>,
}

/// The voxels that a cell holds. The cell's field is private and nothing in this library
/// stores into it after it is made, so this is the array it was made with.
pub uninterp spec fn voxel_cell_voxels(cell: VoxelCell) -> Seq<Voxel>;

/// `ArcSwap::from_pointee`: a cell holding `voxels`.
#[verifier::external_body]
fn voxel_cell_new(voxels: [Voxel; 32768]) -> (r: VoxelCell)
    ensures
        voxel_cell_voxels(r) == voxels@,
{
    VoxelCell { inner: ArcSwap::from_pointee(voxels) }
}

/// `ArcSwap::load_full`: a shared handle to the array the cell holds. The library never
/// stores into a cell, so that is the array it was made with.
#[verifier::external_body]
fn voxel_cell_load(cell: &VoxelCell) -> (r: Arc<[Voxel; 32768]>)
    ensures
        r@ == voxel_cell_voxels(*cell),
{
    cell.inner.load_full()
}

/// The voxel every entry of `voxels` holds, if they all hold the same.
pub fn uniform_voxel(voxels: &[Voxel; 32768]) -> (r: Option<Voxel>)
    ensures
        r is Some <==> forall|i: int| 0 <= i < 32768 ==> #[trigger] voxels@[i] == voxels@[0],
        r matches Some(v) ==> v == voxels@[0],
{
    let base = voxels[0];
    let mut index: usize = 1;
    while index < 32768
        invariant
            1 <= index <= 32768,
            voxels@.len() == 32768,
            base == voxels@[0],
            forall|j: int| 0 <= j < index ==> #[trigger] voxels@[j] == base,
        decreases 32768 - index,
    {
        if voxels[index].0 != base.0 {
            return None;
        }
        index = index + 1;
    }
    Some(base)
}

/// A padded chunk: one voxel everywhere, or an array of voxels that may be swapped.
pub enum RawChunk {
    Uniform(Voxel),
    Mixed(VoxelCell),
}

impl RawChunk {
    /// Whether `voxels` has `32768` entries, every one equal to the first.
    pub open spec fn all_same(voxels: Seq<Voxel>) -> bool {
        voxels.len() == 32768 && forall|i: int| 0 <= i < 32768 ==> #[trigger] voxels[i] == voxels[0]
    }

    /// A mixed chunk holding `voxels`.
    pub fn mixed(voxels: [Voxel; 32768]) -> (r: Self)
        ensures
            r matches RawChunk::Mixed(c) && voxel_cell_voxels(c) == voxels@,
    {
        RawChunk::Mixed(voxel_cell_new(voxels))
    }

    /// Turns a mixed chunk whose voxels are all the same into a uniform one. Returns
    /// whether the chunk is uniform afterwards.
    pub fn attempt_collapse(&mut self) -> (r: bool)
        ensures
            r == (*final(self) is Uniform),
            *old(self) is Uniform ==> *final(self) == *old(self),
            !r ==> *final(self) == *old(self),
            *old(self) matches RawChunk::Mixed(c) ==> (r <==> Self::all_same(voxel_cell_voxels(c)))
                && (r ==> *final(self) == RawChunk::Uniform(voxel_cell_voxels(c)[0])),
    {
        match self {
            RawChunk::Uniform(_) => true,
            RawChunk::Mixed(voxels) => {
                let guard = voxel_cell_load(voxels);
                match uniform_voxel(&*guard) {
                    Some(base) => {
                        *self = RawChunk::Uniform(base);
                        true
                    },
                    None => false,
                }
            },
        }
    }
}

/// Turning a position with coordinates below `32` into an index and back gives the
/// position again.
pub proof fn law_index_round_trip(x: int, y: int, z: int)
    requires
        0 <= x < 32,
        0 <= y < 32,
        0 <= z < 32,
    ensures
        (x + 32 * y + 1024 * z) % 32 == x,
        ((x + 32 * y + 1024 * z) / 32) % 32 == y,
        ((x + 32 * y + 1024 * z) / 1024) % 32 == z,
{
    let i = x + 32 * y + 1024 * z;
    assert(i == x + 32 * (y + 32 * z));
    vstd::arithmetic::div_mod::lemma_fundamental_div_mod_converse(i, 32, y + 32 * z, x);
    assert(i / 32 == y + 32 * z);
    vstd::arithmetic::div_mod::lemma_fundamental_div_mod_converse(y + 32 * z, 32, z, y);
    vstd::arithmetic::div_mod::lemma_fundamental_div_mod_converse(i, 1024, z, x + 32 * y);
    vstd::arithmetic::div_mod::lemma_fundamental_div_mod_converse(z, 32, 0, z);
}

} // verus!
