use voxel::bricks::{adjacent_positions, Brick, Chunk};
use voxel::generator::{flat, flat_voxel};
use voxel::utils::subdivide_index;
use voxel::vec3::{I8Vec3, IVec3, U8Vec3};
use voxel::voxel::Voxel;

#[test]
fn subdivide_index_generates_y() {
    let coords: Vec<_> = (0..(16usize).pow(3)).map(|i| subdivide_index::<4>(i)).collect();

    assert_eq!(coords[16usize], U8Vec3::new(0, 1, 0));
}

#[test]
fn subdivide_index_splits_bits() {
    assert_eq!(subdivide_index::<4>(0), U8Vec3::new(0, 0, 0));
    assert_eq!(subdivide_index::<4>(4095), U8Vec3::new(15, 15, 15));
    assert_eq!(subdivide_index::<4>(1 + 2 * 16 + 3 * 256), U8Vec3::new(1, 2, 3));
    assert_eq!(subdivide_index::<1>(5), U8Vec3::new(1, 0, 1));
}

#[test]
fn brick_from_indices_and_collapse() {
    let mut brick = Brick::from_fn_indices(|i| (i % 2) as u16);
    match &brick {
        Brick::NonUniform(v) => {
            assert_eq!(v[0], Voxel(0));
            assert_eq!(v[1], Voxel(1));
        }
        _ => panic!("expected a full brick"),
    }
    let before = brick.clone();
    brick.attempt_collapse();
    assert_eq!(brick, before);
    let mut same = Brick::from_fn_indices(|_| 7);
    same.attempt_collapse();
    assert_eq!(same, Brick::Uniform(Voxel(7)));
    let mut uniform = Brick::Uniform(Voxel(3));
    uniform.attempt_collapse();
    assert_eq!(uniform, Brick::Uniform(Voxel(3)));
}

#[test]
fn brick_from_positions() {
    let brick = Brick::from_fn_positions(|p| p.y as u16);
    match &brick {
        Brick::NonUniform(v) => {
            assert_eq!(v[16], Voxel(1));
            assert_eq!(v[15], Voxel(0));
            assert_eq!(v[4095], Voxel(15));
        }
        _ => panic!("expected a full brick"),
    }
}

#[test]
fn chunk_from_positions() {
    let chunk = Chunk::from_fn_positions(|p| Brick::Uniform(Voxel(p.x as u16 + 2 * p.y as u16 + 4 * p.z as u16)));
    for i in 0..8u16 {
        assert_eq!(chunk.bricks[i as usize], Brick::Uniform(Voxel(i)));
    }
}

#[test]
fn adjacent() {
    let r = adjacent_positions(U8Vec3::new(0, 5, 126));
    assert_eq!(r[0], I8Vec3 { x: 1, y: 5, z: 126 });
    assert_eq!(r[1], I8Vec3 { x: -1, y: 5, z: 126 });
    assert_eq!(r[4], I8Vec3 { x: 0, y: 5, z: 127 });
    assert_eq!(r[5], I8Vec3 { x: 0, y: 5, z: 125 });
}

#[test]
fn flat_terrain() {
    assert_eq!(flat_voxel(IVec3::new(0, -1, 0), U8Vec3::new(0, 1, 0), U8Vec3::new(0, 15, 0)), 1);
    assert_eq!(flat_voxel(IVec3::new(0, 0, 0), U8Vec3::new(0, 0, 0), U8Vec3::new(0, 0, 0)), 0);
    let below = flat(IVec3::new(3, -1, 2));
    for b in below.bricks.iter() {
        assert_eq!(*b, Brick::Uniform(Voxel(1)));
    }
    let above = flat(IVec3::new(0, 0, 0));
    for b in above.bricks.iter() {
        assert_eq!(*b, Brick::Uniform(Voxel(0)));
    }
}
