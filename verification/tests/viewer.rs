use voxel::vec3::IVec3;
use voxel::viewer::{sphere_iter, VoxelViewer};
use voxel::volume::{ChunkStatus, VoxelVolume};
use voxel::voxel_viewer::VoxelViewer as RadiusViewer;

#[test]
fn sphere_of_radius_zero_and_one() {
    let c = IVec3::new(10, -3, 7);
    assert_eq!(sphere_iter(c, 0), vec![c]);
    let one = sphere_iter(c, 1);
    assert_eq!(
        one,
        vec![
            IVec3::new(9, -3, 7),
            IVec3::new(10, -4, 7),
            IVec3::new(10, -3, 6),
            IVec3::new(10, -3, 7),
            IVec3::new(10, -3, 8),
            IVec3::new(10, -2, 7),
            IVec3::new(11, -3, 7),
        ]
    );
}

#[test]
fn sphere_counts() {
    let origin = IVec3::new(0, 0, 0);
    assert_eq!(sphere_iter(origin, 2).len(), 33);
    let viewer = VoxelViewer { view_distance: 3 };
    let seen = viewer.visible_positions(origin);
    assert_eq!(seen.len(), 123);
    assert!(seen.iter().all(|p| p.x * p.x + p.y * p.y + p.z * p.z <= 9));
}

#[test]
fn active_chunks_plan() {
    let mut volume = VoxelVolume::new();
    let a = IVec3::new(0, 0, 0);
    let b = IVec3::new(1, 0, 0);
    let c = IVec3::new(2, 0, 0);
    let plan = volume.active_chunks(&[a, b, a]);
    assert_eq!(plan.spawn, vec![a, b]);
    assert!(plan.check.is_empty());
    assert!(plan.despawn.is_empty());
    volume.insert(a, 100);
    volume.insert(b, 101);
    let plan = volume.active_chunks(&[b, c]);
    assert_eq!(plan.spawn, vec![c]);
    assert_eq!(plan.check, vec![101]);
    assert_eq!(plan.despawn, vec![100]);
    assert_eq!(volume.get(a), None);
    assert_eq!(volume.get(b), Some(101));
}

#[test]
fn mesher_needed() {
    assert!(ChunkStatus { has_data: true, meshing: false, meshed: false }.needs_mesher());
    assert!(!ChunkStatus { has_data: true, meshing: true, meshed: false }.needs_mesher());
    assert!(!ChunkStatus { has_data: false, meshing: false, meshed: false }.needs_mesher());
}

#[test]
fn signed_radius_viewer() {
    let origin = IVec3::new(4, 5, 6);
    assert!(RadiusViewer::new(-1).visible_positions(origin).is_empty());
    assert_eq!(RadiusViewer::new(0).visible_positions(origin), vec![origin]);
    assert_eq!(RadiusViewer::new(2).visible_positions(origin).len(), 33);
}
