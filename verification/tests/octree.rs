use voxel::octree::{Octree, OctreeNode};
use voxel::vec3::U8Vec3;

#[test]
fn octree_uniform_and_set() {
    let mut tree: Octree<u8, 4> = Octree::uniform(0);
    assert_eq!(tree.get(U8Vec3::new(3, 4, 5)), 0);
    tree.set(U8Vec3::new(3, 4, 5), 9);
    // The split follows bit `k - 1` of the position at the branch of level `k`, so the new
    // value lands where bits 3..1 of the coordinates are bits 2..0 of `(3, 4, 5)`.
    assert_eq!(tree.get(U8Vec3::new(6, 8, 10)), 9);
    assert_eq!(tree.get(U8Vec3::new(7, 9, 11)), 9);
    assert_eq!(tree.get(U8Vec3::new(3, 4, 5)), 0);
    assert_eq!(tree.get(U8Vec3::new(0, 0, 0)), 0);
    assert_eq!(tree.get(U8Vec3::new(7, 7, 7)), 0);
    assert_eq!(tree.leaf_vec().len(), 22);
    // Below a branch the set follows the position itself.
    let mut branched: Octree<u8, 2> = Octree::uniform(0);
    branched.set(U8Vec3::new(2, 0, 0), 1);
    assert_eq!(branched.get(U8Vec3::new(1, 0, 0)), 1);
    branched.set(U8Vec3::new(2, 0, 0), 4);
    assert_eq!(branched.get(U8Vec3::new(2, 0, 0)), 4);
}

#[test]
fn octree_from_root() {
    let tree: Octree<u16, 2> = Octree::from_root(OctreeNode::Leaf(5));
    assert_eq!(tree.get(U8Vec3::new(1, 1, 1)), 5);
    assert_eq!(tree.leaf_vec().len(), 1);
}

#[test]
fn octree_merges_equal_octants() {
    let root = OctreeNode::Branch(Box::new([
        OctreeNode::Leaf(0u8),
        OctreeNode::Leaf(5),
        OctreeNode::Leaf(5),
        OctreeNode::Leaf(5),
        OctreeNode::Leaf(5),
        OctreeNode::Leaf(5),
        OctreeNode::Leaf(5),
        OctreeNode::Leaf(5),
    ]));
    let mut tree: Octree<u8, 2> = Octree::from_root(root);
    assert_eq!(tree.leaf_vec().len(), 8);
    tree.set(U8Vec3::new(0, 0, 0), 5);
    assert_eq!(tree.leaf_vec(), vec![((0, 0, 0), 4, 5)]);
    tree.set(U8Vec3::new(3, 3, 3), 1);
    assert_eq!(tree.leaf_vec().len(), 8);
    assert_eq!(tree.get(U8Vec3::new(3, 3, 3)), 1);
    assert_eq!(tree.get(U8Vec3::new(0, 0, 0)), 5);
}
