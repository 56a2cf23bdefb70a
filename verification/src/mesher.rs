//! The integer half of meshing a brick chunk: which voxels get a cube, and the index
//! buffer of the cubes' quads. Turning voxel positions into world coordinates is left to
//! the caller.
use vstd::prelude::*;

use crate::bricks::{cell_position, Brick, Chunk};
use crate::utils::subdivide_index;

verus! {

/// The vertex order of the two triangles of a quad.
pub open spec fn quad_corner(j: int) -> int {
    if j == 0 {
        0
    } else if j == 1 {
        1
    } else if j == 2 {
        2
    } else if j == 3 {
        2
    } else if j == 4 {
        3
    } else {
        0
    }
}

/// The index buffer of `cubes` cubes of six quads each, four vertices a quad: quad `q`
/// (counting over all cubes) uses vertices `4q .. 4q + 4`, as the triangles
/// `0 1 2` and `2 3 0`.
pub fn cube_indices(cubes: u32) -> (r: Vec<u32>)
    requires
        cubes * 24 <= u32::MAX,
    ensures
        r@.len() == cubes * 36,
        forall|k: int| 0 <= k < r@.len() ==> #[trigger] r@[k] == 4 * (k / 6) + quad_corner(k % 6),
{
    let mut indices: Vec<u32> = Vec::new();
    let mut index_offset: u32 = 0;
    let quads = cubes * 6;
    let mut q: u32 = 0;
    while q < quads
        invariant
            quads == cubes * 6,
            cubes * 24 <= u32::MAX,
            q <= quads,
            index_offset == 4 * q,
            indices@.len() == 6 * q,
            forall|k: int|
                0 <= k < indices@.len() ==> #[trigger] indices@[k] == 4 * (k / 6) + quad_corner(
                    k % 6,
                ),
        decreases quads - q,
    {
        let ghost before = indices@;
        indices.push(index_offset);
        indices.push(index_offset + 1);
        indices.push(index_offset + 2);
        indices.push(index_offset + 2);
        indices.push(index_offset + 3);
        indices.push(index_offset);
        proof {
            assert forall|k: int| 0 <= k < indices@.len() implies #[trigger] indices@[k] == 4 * (k
                / 6) + quad_corner(k % 6) by {
                if k < before.len() {
                    assert(before[k] == indices@[k]);
                } else {
                    assert(k / 6 == q);
                }
            }
        }
        index_offset = index_offset + 4;
        q = q + 1;
    }
    indices
}

/// The voxel position (in voxels, within the chunk) of voxel `v` of brick `b`.
pub open spec fn chunk_voxel_position(b: int, v: int) -> (int, int, int) {
    let bp = cell_position(b, 1);
    let vp = cell_position(v, 4);
    (16 * bp.x + vp.x, 16 * bp.y + vp.y, 16 * bp.z + vp.z)
}

/// The voxel position of voxel `v` of brick `b`, as stored in the output.
pub open spec fn position_u32(b: int, v: int) -> (u32, u32, u32) {
    let p = chunk_voxel_position(b, v);
    (p.0 as u32, p.1 as u32, p.2 as u32)
}

/// Whether voxel `v` of brick `b` is non-empty in a brick that is stored whole.
pub open spec fn solid(chunk: Chunk, b: int, v: int) -> bool {
    0 <= b < 8 && 0 <= v < 4096 && chunk.bricks@[b] is NonUniform && chunk.bricks@[b].voxels()[v].0
        != 0
}

/// Whether `p` is the position of such a voxel.
pub open spec fn solid_position(chunk: Chunk, p: (u32, u32, u32)) -> bool {
    exists|b: int, v: int| #[trigger] solid(chunk, b, v) && position_u32(b, v) == p
}

/// The positions of the voxels `solid` picks among those before voxel `v` of brick `b`,
/// bricks in index order and voxels in index order within each.
pub open spec fn solid_upto(chunk: Chunk, b: int, v: int) -> Seq<(u32, u32, u32)>
    decreases b, v,
{
    if b <= 0 && v <= 0 {
        Seq::empty()
    } else if v <= 0 {
        solid_upto(chunk, b - 1, 4096)
    } else {
        solid_upto(chunk, b, v - 1) + if solid(chunk, b, v - 1) {
            seq![position_u32(b, v - 1)]
        } else {
            Seq::empty()
        }
    }
}

/// A brick with no solid voxel adds nothing.
proof fn lemma_solid_upto_skip(chunk: Chunk, b: int, v: int)
    requires
        0 <= b,
        0 <= v <= 4096,
        forall|w: int| 0 <= w < 4096 ==> !#[trigger] solid(chunk, b, w),
    ensures
        solid_upto(chunk, b, v) == solid_upto(chunk, b, 0),
    decreases v,
{
    if v > 0 {
        lemma_solid_upto_skip(chunk, b, v - 1);
        assert(solid_upto(chunk, b, v) =~= solid_upto(chunk, b, v - 1));
    }
}

/// The positions, in voxels within the chunk, of the non-empty voxels of the bricks that
/// are stored whole, bricks in index order and voxels in index order within each.
/// Bricks stored as one voxel get no cubes.
pub fn solid_voxels(chunk: &Chunk) -> (r: Vec<(u32, u32, u32)>)
    ensures
        r@ == solid_upto(*chunk, 8, 0),
        forall|k: int| 0 <= k < r@.len() ==> solid_position(*chunk, #[trigger] r@[k]),
        forall|b: int, v: int| #[trigger] solid(*chunk, b, v) ==> r@.contains(position_u32(b, v)),
{
    broadcast use vstd::seq_lib::lemma_seq_contains_after_push;

    proof {
        vstd::arithmetic::power2::lemma2_to64();
    }
    let mut out: Vec<(u32, u32, u32)> = Vec::new();
    let mut b: usize = 0;
    while b < 8
        invariant
            b <= 8,
            vstd::arithmetic::power2::pow2(1) == 2,
            vstd::arithmetic::power2::pow2(3) == 8,
            vstd::arithmetic::power2::pow2(4) == 16,
            vstd::arithmetic::power2::pow2(12) == 4096,
            forall|k: int| 0 <= k < out@.len() ==> solid_position(*chunk, #[trigger] out@[k]),
            forall|bb: int, v: int|
                #[trigger] solid(*chunk, bb, v) && bb < b ==> out@.contains(position_u32(bb, v)),
            out@ == solid_upto(*chunk, b as int, 0),
        decreases 8 - b,
    {
        let brick_pos = subdivide_index::<1>(b);
        if let Brick::NonUniform(voxels) = &chunk.bricks[b] {
            let mut v: usize = 0;
            while v < 4096
                invariant
                    b < 8,
                    v <= 4096,
                    chunk.bricks@[b as int] is NonUniform,
                    chunk.bricks@[b as int].voxels() == voxels@,
                    brick_pos == cell_position(b as int, 1),
                    vstd::arithmetic::power2::pow2(1) == 2,
                    vstd::arithmetic::power2::pow2(3) == 8,
                    vstd::arithmetic::power2::pow2(4) == 16,
                    vstd::arithmetic::power2::pow2(12) == 4096,
                    forall|k: int| 0 <= k < out@.len() ==> solid_position(*chunk, #[trigger] out@[k]),
                    forall|bb: int, vv: int|
                        #[trigger] solid(*chunk, bb, vv) && (bb < b || (bb == b && vv < v))
                            ==> out@.contains(position_u32(bb, vv)),
                    out@ == solid_upto(*chunk, b as int, v as int),
                decreases 4096 - v,
            {
                let ghost before = out@;
                let solid_here = voxels[v].0 != 0;
                if solid_here {
                    let voxel_pos = subdivide_index::<4>(v);
                    let p = (
                        16 * brick_pos.x as u32 + voxel_pos.x as u32,
                        16 * brick_pos.y as u32 + voxel_pos.y as u32,
                        16 * brick_pos.z as u32 + voxel_pos.z as u32,
                    );
                    out.push(p);
                    proof {
                        assert(voxel_pos == cell_position(v as int, 4));
                        assert(solid(*chunk, b as int, v as int));
                        assert(p == position_u32(b as int, v as int));
                        assert forall|k: int| 0 <= k < out@.len() implies solid_position(
                            *chunk,
                            #[trigger] out@[k],
                        ) by {
                            if k < before.len() {
                                assert(before[k] == out@[k]);
                            }
                        }
                    }
                }
                proof {
                    if solid_here {
                        assert(out@ == before.push(position_u32(b as int, v as int)));
                    } else {
                        assert(out@ == before);
                        assert(!solid(*chunk, b as int, v as int));
                    }
                    assert(out@ =~= solid_upto(*chunk, b as int, v + 1));
                    assert forall|bb: int, vv: int|
                        #[trigger] solid(*chunk, bb, vv) && (bb < b || (bb == b && vv < v + 1))
                        implies out@.contains(position_u32(bb, vv)) by {
                        if bb == b && vv == v {
                            assert(solid_here);
                            assert(out@[before.len() as int] == position_u32(bb, vv));
                        } else {
                            assert(before.contains(position_u32(bb, vv)));
                            let k = choose|k: int| 0 <= k < before.len() && before[k] == position_u32(bb, vv);
                            assert(out@[k] == position_u32(bb, vv));
                        }
                    }
                }
                v = v + 1;
            }
        } else {
            proof {
                assert forall|w: int| 0 <= w < 4096 implies !#[trigger] solid(*chunk, b as int, w) by {}
                lemma_solid_upto_skip(*chunk, b as int, 4096);
            }
        }
        assert(solid_upto(*chunk, b + 1, 0) == solid_upto(*chunk, b as int, 4096));
        b = b + 1;
    }
    out
}

/// The brick of a chunk that holds the voxel position `p`: bricks are laid out two to a
/// side, `x` fastest, then `y`, then `z`.
pub open spec fn brick_of(p: (u32, u32, u32)) -> int {
    p.0 / 16 + 2 * (p.1 / 16) + 4 * (p.2 / 16)
}

/// The voxel within its brick at the voxel position `p`: sixteen to a side, `x` fastest,
/// then `y`, then `z`.
pub open spec fn voxel_of(p: (u32, u32, u32)) -> int {
    p.0 % 16 + 16 * (p.1 % 16) + 256 * (p.2 % 16)
}

/// An index below `4096` is its three base-sixteen digits, `x` lowest.
proof fn lemma_voxel_digits(v: int)
    requires
        0 <= v < 4096,
    ensures
        v == v % 16 + 16 * ((v / 16) % 16) + 256 * ((v / 256) % 16),
        0 <= v % 16 < 16,
        0 <= (v / 16) % 16 < 16,
        0 <= (v / 256) % 16 < 16,
{
    let a = v % 16;
    let m = v / 16;
    vstd::arithmetic::div_mod::lemma_fundamental_div_mod(v, 16);
    vstd::arithmetic::div_mod::lemma_fundamental_div_mod(m, 16);
    vstd::arithmetic::div_mod::lemma_div_denominator(v, 16, 16);
    assert(m / 16 == v / 256);
    assert(0 <= m < 256);
    assert(0 <= m / 16 < 16);
    vstd::arithmetic::div_mod::lemma_small_mod((v / 256) as nat, 16);
}

/// The voxel position of voxel `v` of brick `b` names, through the chunk's layout, brick
/// `b` and voxel `v` again.
proof fn lemma_position_read_back(b: int, v: int)
    requires
        0 <= b < 8,
        0 <= v < 4096,
    ensures
        position_u32(b, v).0 < 32 && position_u32(b, v).1 < 32 && position_u32(b, v).2 < 32,
        brick_of(position_u32(b, v)) == b,
        voxel_of(position_u32(b, v)) == v,
        position_u32(b, v) == ((16 * (b % 2) + v % 16) as u32, (16 * ((b / 2) % 2) + (v / 16) % 16) as u32, (
        16 * (b / 4) + v / 256) as u32),
{
    vstd::arithmetic::power2::lemma2_to64();
    lemma_voxel_digits(v);
    assert(b == b % 2 + 2 * ((b / 2) % 2) + 4 * ((b / 4) % 2) && b / 4 == (b / 4) % 2) by {
        if b == 0 {} else if b == 1 {} else if b == 2 {} else if b == 3 {}
        else if b == 4 {} else if b == 5 {} else if b == 6 {} else {}
    }
    assert(0 <= b % 2 < 2 && 0 <= (b / 2) % 2 < 2 && 0 <= b / 4 < 2) by {
        if b == 0 {} else if b == 1 {} else if b == 2 {} else if b == 3 {}
        else if b == 4 {} else if b == 5 {} else if b == 6 {} else {}
    }
    assert((v / 256) % 16 == v / 256) by {
        vstd::arithmetic::div_mod::lemma_small_mod((v / 256) as nat, 16);
    }
    let p = position_u32(b, v);
    let x = 16 * (b % 2) + v % 16;
    let y = 16 * ((b / 2) % 2) + (v / 16) % 16;
    let z = 16 * (b / 4) + v / 256;
    assert(p.0 == x && p.1 == y && p.2 == z);
    vstd::arithmetic::div_mod::lemma_fundamental_div_mod_converse(x, 16, b % 2, v % 16);
    vstd::arithmetic::div_mod::lemma_fundamental_div_mod_converse(y, 16, (b / 2) % 2, (v / 16) % 16);
    vstd::arithmetic::div_mod::lemma_fundamental_div_mod_converse(z, 16, b / 4, v / 256);
}

/// Every position `solid_voxels` lists is below `32` on each axis and names, through the
/// chunk's layout (`p / 16` the brick's coordinates, `p % 16` the voxel's within it), a
/// non-empty voxel of a brick stored whole.
pub proof fn law_solid_voxels_are_solid(chunk: Chunk, listed: Seq<(u32, u32, u32)>, k: int)
    requires
        forall|i: int| 0 <= i < listed.len() ==> solid_position(chunk, #[trigger] listed[i]),
        0 <= k < listed.len(),
    ensures
        listed[k].0 < 32 && listed[k].1 < 32 && listed[k].2 < 32,
        chunk.bricks@[brick_of(listed[k])] is NonUniform,
        chunk.bricks@[brick_of(listed[k])].voxels()[voxel_of(listed[k])].0 != 0,
{
    assert(solid_position(chunk, listed[k]));
    let (b, v) = choose|b: int, v: int| #[trigger] solid(chunk, b, v) && position_u32(b, v)
        == listed[k];
    lemma_position_read_back(b, v);
}

/// Every non-empty voxel of a brick stored whole is listed by `solid_voxels`, at sixteen
/// times the brick's coordinates (`x` from bit `0` of its index, `y` from bit `1`, `z`
/// from bit `2`) plus the voxel's coordinates within the brick (`x` from the lowest four
/// bits of its index, then `y`, then `z`).
pub proof fn law_solid_voxels_lists_every_solid(chunk: Chunk, listed: Seq<(u32, u32, u32)>, b: int, v: int)
    requires
        forall|bb: int, vv: int| #[trigger] solid(chunk, bb, vv) ==> listed.contains(position_u32(bb, vv)),
        0 <= b < 8,
        0 <= v < 4096,
        chunk.bricks@[b] is NonUniform,
        chunk.bricks@[b].voxels()[v].0 != 0,
    ensures
        listed.contains(
            (
                (16 * (b % 2) + v % 16) as u32,
                (16 * ((b / 2) % 2) + (v / 16) % 16) as u32,
                (16 * (b / 4) + v / 256) as u32,
            ),
        ),
{
    assert(solid(chunk, b, v));
    lemma_position_read_back(b, v);
}

} // verus!
