use voxel::math::axis::Axis as PlainAxis;
use voxel::math::axis_permutation::AxisPermutation as Permutation;
use voxel::math::signed_axis::SignedAxis as Direction;
use voxel::math::{Axis, AxisPermutation, Sign, SignedAxis};
use voxel::signed_axis::SignedAxis as Face;

#[test]
fn signed_axis_parts() {
    assert_eq!(SignedAxis::NegY.as_unsigned(), Axis::Y);
    assert_eq!(SignedAxis::PosZ.as_index(), 4);
    assert_eq!(SignedAxis::NegX.as_index(), 1);
    assert!(SignedAxis::PosX.is_positive());
    assert!(!SignedAxis::NegZ.is_positive());
}

#[test]
fn linearize_cubic_orders() {
    assert_eq!(AxisPermutation::XYZ.linearize_cubic::<16>(1, 2, 3), 1 + 2 * 16 + 3 * 256);
    assert_eq!(AxisPermutation::ZYX.linearize_cubic::<16>(1, 2, 3), 3 + 2 * 16 + 1 * 256);
    assert_eq!(AxisPermutation::even(Axis::X), AxisPermutation::XYZ);
    assert_eq!(AxisPermutation::odd(Axis::X), AxisPermutation::XZY);
    assert_eq!(AxisPermutation::even(Axis::Z), AxisPermutation::ZXY);
    assert_eq!(AxisPermutation::odd(Axis::Y), AxisPermutation::YXZ);
}

#[test]
fn directions() {
    assert_eq!(Direction::all().len(), 6);
    assert_eq!(Direction::NegY.coords(), [0, -1, 0]);
    assert_eq!(Direction::PosZ.components(), (Sign::Pos, PlainAxis::Z));
    assert_eq!(Direction::NegX.sign(), Sign::Neg);
    assert_eq!(Direction::NegX.axis(), PlainAxis::X);
    assert_eq!(PlainAxis::Y.coords(), [0, 1, 0]);
    assert_eq!(PlainAxis::all(), [PlainAxis::X, PlainAxis::Y, PlainAxis::Z]);
    assert_eq!(Permutation::even(PlainAxis::Y).axis_map(), [PlainAxis::Z, PlainAxis::X, PlainAxis::Y]);
    assert_eq!(Permutation::odd(PlainAxis::Z).axis_map(), [PlainAxis::Z, PlainAxis::Y, PlainAxis::X]);
}

#[test]
fn faces() {
    assert_eq!(Face::ALL, [Face::PosX, Face::PosY, Face::PosZ, Face::NegX, Face::NegY, Face::NegZ]);
}

#[test]
fn linearize_cubic_is_one_to_one_onto_the_cube() {
    let orders = [
        AxisPermutation::XYZ,
        AxisPermutation::YZX,
        AxisPermutation::ZXY,
        AxisPermutation::XZY,
        AxisPermutation::YXZ,
        AxisPermutation::ZYX,
    ];
    for order in orders {
        let mut seen = vec![false; 64];
        for x in 0..4 {
            for y in 0..4 {
                for z in 0..4 {
                    let i = order.linearize_cubic::<4>(x, y, z);
                    assert!(i < 64);
                    assert!(!seen[i]);
                    seen[i] = true;
                }
            }
        }
        assert!(seen.iter().all(|s| *s));
    }
}
