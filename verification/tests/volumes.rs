use voxel::bricks::{Brick, Chunk as BrickChunk};
use voxel::chunk::space::{LocalCoord, VLocalPos};
use voxel::mesher::{cube_indices, solid_voxels};
use voxel::octree::Octree;
use voxel::utils::subdivide_index;
use voxel::vec3::{IVec3, U8Vec3};
use voxel::voxel::Voxel;
use voxel::voxel_volume::VoxelVolume;

#[test]
fn visible_list_and_loading() {
    let mut volume = VoxelVolume::new();
    let a = IVec3::new(0, -1, 0);
    let b = IVec3::new(0, 0, 0);
    volume.insert(b, Octree::uniform(Voxel(0)), 7);
    volume.update_visible_list(vec![a, b]);
    let loads = volume.load_chunks();
    assert_eq!(loads.len(), 1);
    assert_eq!(loads[0].0, a);
    assert_eq!(loads[0].1.get(U8Vec3::new(1, 2, 3)), Voxel(1));
    volume.update_render_list(vec![b]);
    volume.unload_chunks(&[b]);
    volume.update_visible_list(vec![b]);
    let loads = volume.load_chunks();
    assert_eq!(loads.len(), 1);
    assert_eq!(loads[0].0, b);
    assert_eq!(loads[0].1.get(U8Vec3::new(0, 0, 0)), Voxel(0));
}

#[test]
fn index_buffer() {
    let indices = cube_indices(2);
    assert_eq!(indices.len(), 72);
    assert_eq!(&indices[0..12], &[0, 1, 2, 2, 3, 0, 4, 5, 6, 6, 7, 4]);
    assert_eq!(&indices[66..72], &[44, 45, 46, 46, 47, 44]);
    assert!(cube_indices(0).is_empty());
}

#[test]
fn solid_voxel_positions() {
    let chunk = BrickChunk::from_fn_positions(|p| {
        if p == U8Vec3::new(1, 0, 0) {
            Brick::from_fn_indices(|i| if i == 17 { 3 } else { 0 })
        } else {
            Brick::Uniform(Voxel(1))
        }
    });
    assert_eq!(solid_voxels(&chunk), vec![(16 + 1, 1, 0)]);
}

#[test]
fn wrapping_round_trip() {
    for a in 0..16u8 {
        for b in 0..16u8 {
            let x = LocalCoord::normalized_wrap(a);
            let y = LocalCoord::normalized_wrap(b);
            assert_eq!(x.wrapping_add(y).wrapping_sub(y), x);
        }
    }
}

#[test]
fn flat_index_subdivides() {
    let pos = VLocalPos::new(
        LocalCoord::normalized_wrap(5),
        LocalCoord::normalized_wrap(9),
        LocalCoord::normalized_wrap(14),
    );
    assert_eq!(subdivide_index::<4>(pos.flat_index()), U8Vec3::new(5, 9, 14));
}
