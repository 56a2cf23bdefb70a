use voxel::drain_filter::DrainFilter;
use voxel::raw_chunk::{chunk_pos_to_voxel_pos, index_to_pos, pos_to_index, uniform_voxel, RawChunk};
use voxel::vec3::IVec3;
use voxel::texture_array::{stack_layers, TextureLayer};
use voxel::vec3::U8Vec3;
use voxel::voxel::{Voxel, VoxelVisibility};

#[test]
fn drain_filter_takes_matches() {
    let mut v = vec![1, 2, 3, 4, 5, 6];
    let mut taken = Vec::new();
    {
        let mut drain = DrainFilter::new(&mut v, |x: &i32| *x % 2 == 0);
        while let Some(x) = drain.next() {
            taken.push(x);
        }
    }
    taken.sort();
    assert_eq!(taken, vec![2, 4, 6]);
    v.sort();
    assert_eq!(v, vec![1, 3, 5]);
}

#[test]
fn raw_chunk_indices() {
    assert_eq!(pos_to_index(U8Vec3::new(1, 2, 3)), 1 + 2 * 32 + 3 * 1024);
    assert_eq!(index_to_pos(1 + 2 * 32 + 3 * 1024), U8Vec3::new(1, 2, 3));
    assert_eq!(index_to_pos(32767), U8Vec3::new(31, 31, 31));
}

#[test]
fn raw_chunk_collapse() {
    let mut chunk = RawChunk::mixed([Voxel(2); 32768]);
    assert!(chunk.attempt_collapse());
    assert!(matches!(chunk, RawChunk::Uniform(Voxel(2))));
    let mut voxels = [Voxel(0); 32768];
    voxels[5] = Voxel(1);
    assert_eq!(uniform_voxel(&voxels), None);
    let mut mixed = RawChunk::mixed(voxels);
    assert!(!mixed.attempt_collapse());
    assert!(matches!(mixed, RawChunk::Mixed(_)));
}

#[test]
fn voxel_visibility() {
    assert_eq!(Voxel(0).get_visibility(), VoxelVisibility::Empty);
    assert_eq!(Voxel(3).get_visibility(), VoxelVisibility::Opaque);
    assert_eq!(Voxel(3).merge_value(), 3);
}

#[test]
fn texture_layers_stack_in_order() {
    let layers = vec![
        TextureLayer { width: 2, height: 1, data: vec![1, 2, 3, 4, 5, 6, 7, 8] },
        TextureLayer { width: 2, height: 1, data: vec![9, 10, 11, 12, 13, 14, 15, 16] },
    ];
    let stack = stack_layers(&layers);
    assert_eq!((stack.width, stack.height, stack.layers), (2, 1, 2));
    assert_eq!(stack.data, (1..=16).collect::<Vec<u8>>());
    let empty = stack_layers(&Vec::new());
    assert_eq!((empty.width, empty.height, empty.layers), (1, 1, 0));
    assert!(empty.data.is_empty());
}

#[test]
fn chunk_corner_in_voxels() {
    let p = chunk_pos_to_voxel_pos(IVec3::new(1, -2, 3));
    assert_eq!((p.x, p.y, p.z), (30, -60, 90));
}
