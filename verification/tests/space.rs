use voxel::chunk::space::{BoundsError, ChunkPos, LocalCoord, VLocalPos};
use voxel::chunk::voxel_pos::{ChunkPos as ChunkTuple, GlobalVoxelPos, LocalVoxelPos};

#[test]
fn local_coord_wraps() {
    assert_eq!(LocalCoord::bounded_wrap(15).map(|c| c.into_inner()), Ok(15));
    assert_eq!(LocalCoord::bounded_wrap(16).map(|c| c.into_inner()), Err(BoundsError(16)));
    assert_eq!(LocalCoord::normalized_wrap(17).into_inner(), 1);
    let a = LocalCoord::normalized_wrap(10);
    let b = LocalCoord::normalized_wrap(9);
    assert_eq!(a.wrapping_add(b).into_inner(), 3);
    assert_eq!(b.wrapping_sub(a).into_inner(), 15);
    assert_eq!(a.wrapping_mul(b).into_inner(), 90 % 16);
    assert_eq!(a.wrapping_div(LocalCoord::normalized_wrap(3)).into_inner(), 3);
    assert_eq!(a.wrapping_rem(LocalCoord::normalized_wrap(3)).into_inner(), 1);
    assert_eq!(*a.inner(), 10);
}

#[test]
fn local_pos_flat_index() {
    let pos = VLocalPos::new(
        LocalCoord::normalized_wrap(1),
        LocalCoord::normalized_wrap(2),
        LocalCoord::normalized_wrap(3),
    );
    assert_eq!(pos.flat_index(), 1 + 2 * 16 + 3 * 256);
    let last = VLocalPos::new(
        LocalCoord::normalized_wrap(15),
        LocalCoord::normalized_wrap(15),
        LocalCoord::normalized_wrap(15),
    );
    assert_eq!(last.flat_index(), 4095);
}

#[test]
fn positions() {
    let c = ChunkPos::new(1, -2, 3);
    assert_eq!((c.x, c.y, c.z), (1, -2, 3));
    let g = GlobalVoxelPos { chunk_pos: ChunkTuple(1, 2, 3), local_pos: LocalVoxelPos(4, 5, 6) };
    assert_eq!(g.chunk_pos, ChunkTuple(1, 2, 3));
    assert_eq!(g.local_pos.2, 6);
}
