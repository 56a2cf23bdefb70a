//! Terrain generation.
use vstd::prelude::*;

use crate::bricks::{cell_position, within, Brick, Chunk};
use crate::vec3::{IVec3, U8Vec3};
use crate::voxel::{Voxel, VoxelId};

verus! {

/// The height of a voxel in the world: chunk, then brick within the chunk, then voxel
/// within the brick.
pub open spec fn global_height(chunk_y: int, brick_y: int, voxel_y: int) -> int {
    chunk_y * 32 + brick_y * 16 + voxel_y
}

/// Flat terrain: solid (kind `1`) below height `0`, empty (kind `0`) from there up.
pub open spec fn flat_kind(height: int) -> VoxelId {
    if height < 0 {
        1
    } else {
        0
    }
}

/// The kind of the flat terrain's voxel at `voxel_pos` of the brick at `brick_pos` of
/// the chunk at `chunk_pos`.
pub fn flat_voxel(chunk_pos: IVec3, brick_pos: U8Vec3, voxel_pos: U8Vec3) -> (r: VoxelId)
    ensures
        r == flat_kind(global_height(chunk_pos.y as int, brick_pos.y as int, voxel_pos.y as int)),
{
    let y = chunk_pos.y as i64 * 32 + brick_pos.y as i64 * 16 + voxel_pos.y as i64;
    if y < 0 {
        1
    } else {
        0
    }
}

/// The chunk at `chunk_pos` of a flat world: solid below height `0`, empty above; each
/// brick is stored as one voxel when all its voxels agree.
pub fn flat(chunk_pos: IVec3) -> (r: Chunk)
    ensures
        forall|b: int, v: int|
            0 <= b < 8 && 0 <= v < 4096 ==> #[trigger] r.bricks@[b].voxels()[v] == Voxel(
                flat_kind(
                    global_height(
                        chunk_pos.y as int,
                        cell_position(b, 1).y as int,
                        cell_position(v, 4).y as int,
                    ),
                ),
            ),
        forall|b: int| 0 <= b < 8 ==> (#[trigger] r.bricks@[b]).voxels().len() == 4096,
        forall|b: int|
            0 <= b < 8 && (forall|v: int|
                0 <= v < 4096 ==> #[trigger] r.bricks@[b].voxels()[v] == r.bricks@[b].voxels()[0])
                ==> #[trigger] r.bricks@[b] is Uniform,
{
    let make_brick = |brick_pos: U8Vec3| -> (brick: Brick)
        ensures
            brick.voxels().len() == 4096,
            forall|v: int|
                0 <= v < 4096 ==> #[trigger] brick.voxels()[v] == Voxel(
                    flat_kind(
                        global_height(
                            chunk_pos.y as int,
                            brick_pos.y as int,
                            cell_position(v, 4).y as int,
                        ),
                    ),
                ),
            (forall|v: int|
                0 <= v < 4096 ==> #[trigger] brick.voxels()[v] == brick.voxels()[0])
                ==> brick is Uniform,
        {
            let kind = |voxel_pos: U8Vec3| -> (id: VoxelId)
                ensures
                    id == flat_kind(
                        global_height(chunk_pos.y as int, brick_pos.y as int, voxel_pos.y as int),
                    ),
                { flat_voxel(chunk_pos, brick_pos, voxel_pos) };
            let mut brick = Brick::from_fn_positions(kind);
            assert forall|v: int| 0 <= v < 4096 implies #[trigger] brick.voxels()[v] == Voxel(
                flat_kind(
                    global_height(chunk_pos.y as int, brick_pos.y as int, cell_position(v, 4).y as int),
                ),
            ) by {
                assert(kind.ensures((cell_position(v, 4),), brick.voxels()[v].0));
            }
            brick.attempt_collapse();
            brick
        };
    Chunk::from_fn_positions(make_brick)
}

} // verus!
