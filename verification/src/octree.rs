//! A sparse octree of uniform regions.
use vstd::prelude::*;

use crate::vec3::U8Vec3;
use crate::voxel::Voxel;

verus! {

/// A value that can be stored in an octree, with an equality that code can test.
pub trait OctreeValue: Copy {
    /// Whether `self` and `other` are equal.
    fn same(&self, other: &Self) -> (r: bool)
        ensures
            r == (*self == *other),
    ;
}

impl OctreeValue for Voxel {
    fn same(&self, other: &Self) -> (r: bool) {
        self.0 == other.0
    }
}

impl OctreeValue for u8 {
    fn same(&self, other: &Self) -> (r: bool) {
        *self == *other
    }
}

impl OctreeValue for u16 {
    fn same(&self, other: &Self) -> (r: bool) {
        *self == *other
    }
}

impl OctreeValue for u32 {
    fn same(&self, other: &Self) -> (r: bool) {
        *self == *other
    }
}

/// Bit `level` of `v`.
pub open spec fn bit(v: u8, level: nat) -> u8 {
    ((v >> (level as u8)) & 1u8) as u8
}

/// The child of a branch at `level` that holds `pos`: bit `level` of `x`, `y` and `z`
/// as the bits `0`, `1` and `2` of the index.
pub open spec fn child_index(pos: U8Vec3, level: nat) -> int {
    bit(pos.z, level) * 4 + bit(pos.y, level) * 2 + bit(pos.x, level)
}

/// Whether `q` lies on the path that splitting a leaf at `level` for `p` builds: the
/// branch made at each level `k` goes into the octant named by bit `k - 1` of `p`, so
/// bit `k` of `q` must match bit `k - 1` of `p`, from `level` down to `1`.
pub open spec fn split_path_holds(p: U8Vec3, q: U8Vec3, level: nat) -> bool
    decreases level,
{
    level == 0 || (child_index(q, level) == child_index(p, (level - 1) as nat)
        && split_path_holds(p, q, (level - 1) as nat))
}

/// Whether setting `p` below `node` at `level` gives `q` the new value: at level `0`
/// always; through a branch when `q` lies in the octant that holds `p` and the set below
/// reaches it; at a leaf above level `0` when `q` lies on the path the split builds.
pub open spec fn set_reaches<T>(node: OctreeNode<T>, p: U8Vec3, q: U8Vec3, level: nat) -> bool
    decreases level,
{
    if level == 0 {
        true
    } else {
        match node {
            OctreeNode::Leaf(_) => split_path_holds(p, q, level),
            OctreeNode::Branch(children) => child_index(p, level) == child_index(q, level)
                && set_reaches(children@[child_index(p, level)], p, q, (level - 1) as nat),
        }
    }
}

/// A bit is `0` or `1`, so a child index lies in `[0, 8)`.
pub proof fn lemma_child_index_bounds(pos: U8Vec3, level: nat)
    requires
        level < 8,
    ensures
        0 <= child_index(pos, level) < 8,
{
    let l = level as u8;
    let (x, y, z) = (pos.x, pos.y, pos.z);
    assert(((x >> l) & 1u8) <= 1 && ((y >> l) & 1u8) <= 1 && ((z >> l) & 1u8) <= 1) by (bit_vector);
}

/// The index of the child at `level` that holds `pos`.
fn position_to_index(pos: U8Vec3, level: u8) -> (r: usize)
    requires
        level < 8,
    ensures
        r == child_index(pos, level as nat),
        r < 8,
{
    let (px, py, pz) = (pos.x, pos.y, pos.z);
    let x = (px >> level) & 1;
    let y = (py >> level) & 1;
    let z = (pz >> level) & 1;
    proof {
        assert(x <= 1 && y <= 1 && z <= 1) by (bit_vector)
            requires
                x == (px >> level) & 1,
                y == (py >> level) & 1,
                z == (pz >> level) & 1,
        ;
    }
    (z as usize) * 4 + (y as usize) * 2 + (x as usize)
}

/// The offset, in units of a child's side, of child `index` within its parent.
pub open spec fn child_offset(index: int) -> (u32, u32, u32) {
    ((index % 2) as u32, ((index / 2) % 2) as u32, ((index / 4) % 2) as u32)
}

/// The offset of child `index` within its parent, in units of the child's side.
fn index_to_offset(index: usize) -> (r: (u32, u32, u32))
    requires
        index < 8,
    ensures
        r == child_offset(index as int),
{
    let i = index as u32;
    (i % 2, (i / 2) % 2, (i / 4) % 2)
}

/// A node of an octree: either a uniform region or a split into eight octants.
pub enum OctreeNode<T> {
    Leaf(T),
    Branch(Box<[OctreeNode<T>; 8]>),
}

/// A node at `level` branches at most `level` times below itself.
pub open spec fn node_wf<T>(node: OctreeNode<T>, level: nat) -> bool
    decreases level,
{
    match node {
        OctreeNode::Leaf(_) => true,
        OctreeNode::Branch(children) => level > 0 && node_wf(children@[0], (level - 1) as nat)
            && node_wf(children@[1], (level - 1) as nat) && node_wf(children@[2], (level - 1) as nat)
            && node_wf(children@[3], (level - 1) as nat) && node_wf(children@[4], (level - 1) as nat)
            && node_wf(children@[5], (level - 1) as nat) && node_wf(children@[6], (level - 1) as nat)
            && node_wf(children@[7], (level - 1) as nat),
    }
}

/// Whether setting `pos` to `to` below `node` at `level` leaves a single leaf that the set
/// made or merged: at level `0` always; at a branch when the octant holding `pos` does so and
/// the seven others are already leaves of `to`; never at a leaf above level `0`.
pub open spec fn set_merges<T>(node: OctreeNode<T>, pos: U8Vec3, to: T, level: nat) -> bool
    decreases level,
{
    if level == 0 {
        true
    } else {
        match node {
            OctreeNode::Leaf(_) => false,
            OctreeNode::Branch(children) => {
                let i = child_index(pos, level);
                set_merges(children@[i], pos, to, (level - 1) as nat) && forall|j: int|
                    0 <= j < 8 && j != i ==> #[trigger] children@[j] == OctreeNode::Leaf(to)
            },
        }
    }
}

/// A branch at `level` is well formed exactly when `level > 0` and its octants are well formed
/// one level down.
pub proof fn lemma_branch_wf<T>(children: Box<[OctreeNode<T>; 8]>, level: nat)
    ensures
        node_wf(OctreeNode::Branch(children), level) <==> (level > 0 && forall|i: int|
            0 <= i < 8 ==> #[trigger] node_wf(children@[i], (level - 1) as nat)),
{
    if level > 0 && (forall|i: int| 0 <= i < 8 ==> #[trigger] node_wf(children@[i], (level - 1) as nat)) {
        assert(node_wf(children@[0], (level - 1) as nat));
        assert(node_wf(children@[1], (level - 1) as nat));
        assert(node_wf(children@[2], (level - 1) as nat));
        assert(node_wf(children@[3], (level - 1) as nat));
        assert(node_wf(children@[4], (level - 1) as nat));
        assert(node_wf(children@[5], (level - 1) as nat));
        assert(node_wf(children@[6], (level - 1) as nat));
        assert(node_wf(children@[7], (level - 1) as nat));
    }
    if node_wf(OctreeNode::Branch(children), level) {
        assert forall|i: int| 0 <= i < 8 implies #[trigger] node_wf(children@[i], (level - 1) as nat) by {
            if i == 0 {} else if i == 1 {} else if i == 2 {} else if i == 3 {}
            else if i == 4 {} else if i == 5 {} else if i == 6 {} else {}
        }
    }
}

/// The value at `pos` below a node at `level`.
pub open spec fn node_get<T>(node: OctreeNode<T>, pos: U8Vec3, level: nat) -> T
    decreases level,
{
    match node {
        OctreeNode::Leaf(t) => t,
        OctreeNode::Branch(children) => if level > 0 {
            node_get(children@[child_index(pos, level)], pos, (level - 1) as nat)
        } else {
            vstd::pervasive::arbitrary()
        },
    }
}

/// The value below a branch is the value below the octant that holds the position.
pub proof fn lemma_node_get_branch<T>(node: OctreeNode<T>, q: U8Vec3, level: nat)
    requires
        node is Branch,
        level > 0,
    ensures
        node_get(node, q, level) == node_get(node->Branch_0@[child_index(q, level)], q, (level - 1) as nat),
{
}

/// The leaves below a node at `level` whose cube has corner `pos` and side `size`, in order
/// of the octants: `(corner, side, value)`.
pub open spec fn node_leafs<T>(node: OctreeNode<T>, level: nat, pos: (u32, u32, u32), size: u32) -> Seq<
    ((u32, u32, u32), u32, T),
>
    decreases level, 9nat,
{
    match node {
        OctreeNode::Leaf(t) => seq![(pos, size, t)],
        OctreeNode::Branch(children) => if level > 0 {
            children_leafs(children@, level, pos, size, 8)
        } else {
            Seq::empty()
        },
    }
}

/// The leaves below the first `n` children of a branch at `level`.
pub open spec fn children_leafs<T>(
    children: Seq<OctreeNode<T>>,
    level: nat,
    pos: (u32, u32, u32),
    size: u32,
    n: nat,
) -> Seq<((u32, u32, u32), u32, T)>
    decreases level, n,
{
    if n == 0 || level == 0 {
        Seq::empty()
    } else {
        let half = (size / 2) as u32;
        let off = child_offset(n - 1);
        let child_pos = (
            (pos.0 + off.0 * half) as u32,
            (pos.1 + off.1 * half) as u32,
            (pos.2 + off.2 * half) as u32,
        );
        children_leafs(children, level, pos, size, (n - 1) as nat) + node_leafs(
            children[n - 1],
            (level - 1) as nat,
            child_pos,
            half,
        )
    }
}

impl<T: OctreeValue> OctreeNode<T> {
    /// A branch whose eight octants are all `inner`.
    fn branch_of(inner: T) -> (r: Self)
        ensures
            r matches OctreeNode::Branch(children) && forall|i: int|
                0 <= i < 8 ==> #[trigger] children@[i] == OctreeNode::Leaf(inner),
    {
        let leafs = [
            OctreeNode::Leaf(inner),
            OctreeNode::Leaf(inner),
            OctreeNode::Leaf(inner),
            OctreeNode::Leaf(inner),
            OctreeNode::Leaf(inner),
            OctreeNode::Leaf(inner),
            OctreeNode::Leaf(inner),
            OctreeNode::Leaf(inner),
        ];
        OctreeNode::Branch(Box::new(leafs))
    }

    /// A node at `level` made of branches down to level `0`, the branch at each level `k`
    /// leading on into the octant named by bit `k - 1` of `pos`; the leaf at the end holds
    /// `to`, every other leaf `t`.
    fn split_path(t: T, to: T, pos: U8Vec3, level: u8) -> (r: Self)
        requires
            level < 8,
        ensures
            node_wf(r, level as nat),
            forall|q: U8Vec3|
                #[trigger] node_get(r, q, level as nat) == if split_path_holds(pos, q, level as nat) {
                    to
                } else {
                    t
                },
        decreases level,
    {
        if level == 0 {
            return OctreeNode::Leaf(to);
        }
        let child = Self::split_path(t, to, pos, level - 1);
        let index = position_to_index(pos, level - 1);
        let mut leafs = [
            OctreeNode::Leaf(t),
            OctreeNode::Leaf(t),
            OctreeNode::Leaf(t),
            OctreeNode::Leaf(t),
            OctreeNode::Leaf(t),
            OctreeNode::Leaf(t),
            OctreeNode::Leaf(t),
            OctreeNode::Leaf(t),
        ];
        leafs[index] = child;
        let node = OctreeNode::Branch(Box::new(leafs));
        proof {
            lemma_branch_wf(Box::new(leafs), level as nat);
            assert forall|i: int| 0 <= i < 8 implies #[trigger] node_wf(leafs@[i], (level - 1) as nat) by {
                if i != index {
                    assert(leafs@[i] == OctreeNode::<T>::Leaf(t));
                }
            }
            assert forall|q: U8Vec3| #[trigger] node_get(node, q, level as nat) == if split_path_holds(
                pos,
                q,
                level as nat,
            ) {
                to
            } else {
                t
            } by {
                lemma_child_index_bounds(q, level as nat);
                lemma_node_get_branch(node, q, level as nat);
                let ci = child_index(q, level as nat);
                if ci != index {
                    assert(leafs@[ci] == OctreeNode::<T>::Leaf(t));
                } else {
                    assert(node_get(child, q, (level - 1) as nat) == if split_path_holds(
                        pos,
                        q,
                        (level - 1) as nat,
                    ) {
                        to
                    } else {
                        t
                    });
                }
            }
        }
        node
    }

    /// The value of every octant, when all eight are leaves of one value.
    fn uniform_value(children: &[OctreeNode<T>; 8]) -> (r: Option<T>)
        ensures
            r matches Some(b) ==> forall|i: int| 0 <= i < 8 ==> #[trigger] children@[i] == OctreeNode::Leaf(b),
            r is None ==> !(children@[0] is Leaf && forall|i: int| 0 <= i < 8 ==> #[trigger] children@[i] == children@[0]),
    {
        let base_type = match &children[0] {
            OctreeNode::Branch(_) => return None,
            OctreeNode::Leaf(t) => *t,
        };
        let mut i: usize = 1;
        while i < 8
            invariant
                1 <= i <= 8,
                children@[0] == OctreeNode::Leaf(base_type),
                forall|j: int| 0 <= j < i ==> #[trigger] children@[j] == OctreeNode::Leaf(base_type),
            decreases 8 - i,
        {
            match &children[i] {
                OctreeNode::Branch(_) => return None,
                OctreeNode::Leaf(t) => {
                    if !t.same(&base_type) {
                        return None;
                    }
                },
            }
            i = i + 1;
        }
        Some(base_type)
    }

    /// Sets the value at `pos` below this node at `level` to `to`: branches are followed by
    /// the octant that holds `pos`; a leaf of another value above level `0` is split along
    /// the path [`split_path`] builds; octants that became equal leaves are merged. The
    /// positions whose value becomes `to` are those [`set_reaches`] names.
    ///
    /// Returns `true` exactly when the node is now a leaf of `to` that was set or merged
    /// (see [`set_merges`]); a branch that does not merge stays a branch.
    fn recursive_set(&mut self, to: T, pos: U8Vec3, level: u8) -> (r: bool)
        requires
            level < 8,
            node_wf(*old(self), level as nat),
        ensures
            node_wf(*final(self), level as nat),
            forall|q: U8Vec3|
                #[trigger] node_get(*final(self), q, level as nat) == if set_reaches(
                    *old(self),
                    pos,
                    q,
                    level as nat,
                ) {
                    to
                } else {
                    node_get(*old(self), q, level as nat)
                },
            r == set_merges(*old(self), pos, to, level as nat),
            r ==> *final(self) == OctreeNode::Leaf(to),
            !r && *old(self) is Branch ==> *final(self) is Branch,
        decreases level,
    {
        if level == 0 {
            match self {
                OctreeNode::Leaf(t) => {
                    *t = to;
                },
                OctreeNode::Branch(_) => {},
            }
            return true;
        }
        match self {
            OctreeNode::Leaf(t) => {
                let t = *t;
                if !t.same(&to) {
                    *self = Self::split_path(t, to, pos, level);
                }
                false
            },
            OctreeNode::Branch(children) => {
                let index = position_to_index(pos, level);
                let ghost old_children = children@;
                proof {
                    lemma_branch_wf(*children, level as nat);
                }
                let was_simplified = children[index].recursive_set(to, pos, level - 1);
                proof {
                    assert forall|i: int| 0 <= i < 8 implies #[trigger] node_wf(
                        children@[i],
                        (level - 1) as nat,
                    ) by {
                        if i != index {
                            assert(children@[i] == old_children[i]);
                        }
                    }
                    lemma_branch_wf(*children, level as nat);
                    assert forall|q: U8Vec3| #[trigger] node_get(
                        children@[child_index(q, level as nat)],
                        q,
                        (level - 1) as nat,
                    ) == if set_reaches(*old(self), pos, q, level as nat) {
                        to
                    } else {
                        node_get(old_children[child_index(q, level as nat)], q, (level - 1) as nat)
                    } by {
                        lemma_child_index_bounds(q, level as nat);
                        let ci = child_index(q, level as nat);
                        if ci != index {
                            assert(children@[ci] == old_children[ci]);
                        }
                    }
                }
                proof {
                    let ghost new_node = OctreeNode::Branch(*children);
                    assert forall|q: U8Vec3| #[trigger] node_get(new_node, q, level as nat) == if set_reaches(
                        *old(self),
                        pos,
                        q,
                        level as nat,
                    ) {
                        to
                    } else {
                        node_get(*old(self), q, level as nat)
                    } by {
                        lemma_node_get_branch(new_node, q, level as nat);
                        lemma_node_get_branch(*old(self), q, level as nat);
                    }
                }
                if was_simplified {
                    match Self::uniform_value(children) {
                        Some(base_type) => {
                            proof {
                                let ghost new_node = OctreeNode::Branch(*children);
                                assert forall|q: U8Vec3| #[trigger] node_get(
                                    OctreeNode::<T>::Leaf(base_type),
                                    q,
                                    level as nat,
                                ) == node_get(new_node, q, level as nat) by {
                                    lemma_child_index_bounds(q, level as nat);
                                    lemma_node_get_branch(new_node, q, level as nat);
                                    assert(children@[child_index(q, level as nat)] == OctreeNode::<
                                        T,
                                    >::Leaf(base_type));
                                }
                            }
                            proof {
                                lemma_child_index_bounds(pos, level as nat);
                                assert(children@[index as int] == OctreeNode::<T>::Leaf(base_type));
                                assert forall|j: int| 0 <= j < 8 && j != index implies #[trigger] old_children[j]
                                    == OctreeNode::<T>::Leaf(to) by {
                                    assert(children@[j] == old_children[j]);
                                }
                            }
                            *self = OctreeNode::Leaf(base_type);
                            true
                        },
                        None => {
                            proof {
                                lemma_child_index_bounds(pos, level as nat);
                                if forall|j: int| 0 <= j < 8 && j != index ==> #[trigger] old_children[j]
                                    == OctreeNode::<T>::Leaf(to) {
                                    assert forall|j: int| 0 <= j < 8 implies #[trigger] children@[j]
                                        == children@[0] by {
                                        if j != index {
                                            assert(children@[j] == old_children[j]);
                                        }
                                        if index != 0 {
                                            assert(children@[0] == old_children[0]);
                                        }
                                    }
                                }
                            }
                            false
                        },
                    }
                } else {
                    false
                }
            },
        }
    }

    /// Appends the leaves below this node at `level`, whose cube has corner `position` and side
    /// `size`, to `dst`.
    fn recursive_get_leafs(
        &self,
        level: u8,
        position: (u32, u32, u32),
        size: u32,
        dst: &mut Vec<((u32, u32, u32), u32, T)>,
    )
        requires
            level < 8,
            node_wf(*self, level as nat),
            position.0 + size <= 256,
            position.1 + size <= 256,
            position.2 + size <= 256,
        ensures
            final(dst)@ == old(dst)@ + node_leafs(*self, level as nat, position, size),
        decreases level,
    {
        if level == 0 {
            match self {
                OctreeNode::Leaf(t) => dst.push((position, size, *t)),
                OctreeNode::Branch(_) => {},
            }
            return ;
        }
        match self {
            OctreeNode::Leaf(t) => dst.push((position, size, *t)),
            OctreeNode::Branch(children) => {
                let half = size / 2;
                let ghost start = dst@;
                let mut index: usize = 0;
                while index < 8
                    invariant
                        0 <= index <= 8,
                        level > 0,
                        level < 8,
                        half == size / 2,
                        position.0 + size <= 256,
                        position.1 + size <= 256,
                        position.2 + size <= 256,
                        forall|i: int| 0 <= i < 8 ==> #[trigger] node_wf(children@[i], (level - 1) as nat),
                        dst@ == start + children_leafs(
                            children@,
                            level as nat,
                            position,
                            size,
                            index as nat,
                        ),
                    decreases 8 - index,
                {
                    let offset = index_to_offset(index);
                    proof {
                        assert(offset.0 <= 1 && offset.1 <= 1 && offset.2 <= 1);
                        assert(offset.0 * half <= half && offset.1 * half <= half && offset.2 * half
                            <= half) by (nonlinear_arith)
                            requires
                                offset.0 <= 1,
                                offset.1 <= 1,
                                offset.2 <= 1,
                        ;
                    }
                    let child_pos = (
                        position.0 + offset.0 * half,
                        position.1 + offset.1 * half,
                        position.2 + offset.2 * half,
                    );
                    children[index].recursive_get_leafs(level - 1, child_pos, half, dst);
                    proof {
                        assert(start + children_leafs(
                            children@,
                            level as nat,
                            position,
                            size,
                            (index + 1) as nat,
                        ) =~= dst@);
                    }
                    index = index + 1;
                }
            },
        }
    }
}

/// An octree of depth `DEPTH` over positions whose coordinates are below `2^DEPTH`:
/// uniform regions are stored as single leaves.
pub struct Octree<T, const DEPTH: u8> {
    root: OctreeNode<T>,
}

impl<T: OctreeValue, const DEPTH: u8> Octree<T, DEPTH> {
    /// The depth is between 1 and 7, and the root branches at most `DEPTH - 1` times.
    pub closed spec fn wf(&self) -> bool {
        &&& 1 <= DEPTH < 8
        &&& node_wf(self.root, (DEPTH - 1) as nat)
    }

    /// The value stored at `pos`.
    pub closed spec fn spec_get(&self, pos: U8Vec3) -> T {
        node_get(self.root, pos, (DEPTH - 1) as nat)
    }

    /// The root node.
    pub closed spec fn spec_root(&self) -> OctreeNode<T> {
        self.root
    }

    /// An octree holding `value` everywhere.
    pub fn uniform(value: T) -> (r: Self)
        requires
            1 <= DEPTH < 8,
        ensures
            r.wf(),
            forall|q: U8Vec3| #[trigger] r.spec_get(q) == value,
    {
        Self::from_root(OctreeNode::Leaf(value))
    }

    /// An octree with the given root; the depth must be below `8`.
    pub fn from_root(root: OctreeNode<T>) -> (r: Self)
        requires
            1 <= DEPTH < 8,
            node_wf(root, (DEPTH - 1) as nat),
        ensures
            r.wf(),
            r.spec_root() == root,
            forall|q: U8Vec3| #[trigger] r.spec_get(q) == node_get(root, q, (DEPTH - 1) as nat),
    {
        Self { root }
    }

    /// The value stored at `pos`.
    pub fn get(&self, pos: U8Vec3) -> (r: T)
        requires
            self.wf(),
        ensures
            r == self.spec_get(pos),
    {
        let mut node = &self.root;
        let mut level: u8 = DEPTH - 1;
        loop
            invariant
                level < DEPTH,
                1 <= DEPTH < 8,
                node_wf(*node, level as nat),
                node_get(*node, pos, level as nat) == self.spec_get(pos),
            decreases level,
        {
            match node {
                OctreeNode::Leaf(t) => return *t,
                OctreeNode::Branch(children) => {
                    let index = position_to_index(pos, level);
                    node = &children[index];
                    level = level - 1;
                },
            }
        }
    }

    /// Sets the value at `pos` to `to`: the positions [`set_reaches`] names (from the
    /// root) then hold `to`, all others keep their value. A leaf of another value above the
    /// lowest level is split along the path `split_path` builds, which follows bit `k - 1`
    /// of `pos` at the branch of level `k`. Octants that become leaves of one value on the
    /// way back up are merged (see [`set_merges`]).
    pub fn set(&mut self, pos: U8Vec3, to: T)
        requires
            old(self).wf(),
        ensures
            final(self).wf(),
            forall|q: U8Vec3|
                #[trigger] final(self).spec_get(q) == if set_reaches(
                    old(self).spec_root(),
                    pos,
                    q,
                    (DEPTH - 1) as nat,
                ) {
                    to
                } else {
                    old(self).spec_get(q)
                },
            set_merges(old(self).spec_root(), pos, to, (DEPTH - 1) as nat)
                ==> final(self).spec_root() == OctreeNode::Leaf(to),
            !set_merges(old(self).spec_root(), pos, to, (DEPTH - 1) as nat)
                && old(self).spec_root() is Branch ==> final(self).spec_root() is Branch,
    {
        self.root.recursive_set(to, pos, DEPTH - 1);
    }


    /// The leaves of the tree, in order of the octants: `(corner, side, value)` with the root cube
    /// at the origin with side `2^DEPTH`.
    pub fn leaf_vec(&self) -> (r: Vec<((u32, u32, u32), u32, T)>)
        requires
            self.wf(),
        ensures
            r@ == node_leafs(self.spec_root(), (DEPTH - 1) as nat, (0u32, 0u32, 0u32), (1u32 << (DEPTH as u32)) as u32),
    {
        let mut vec = Vec::new();
        let depth: u32 = DEPTH as u32;
        let size: u32 = 1u32 << depth;
        proof {
            assert(size <= 128) by (bit_vector)
                requires
                    size == 1u32 << depth,
                    depth < 8,
            ;
        }
        self.root.recursive_get_leafs(DEPTH - 1, (0, 0, 0), size, &mut vec);
        proof {
            assert(vec@ =~= Seq::empty() + node_leafs(self.root, (DEPTH - 1) as nat, (0u32, 0u32, 0u32), size));
        }
        vec
    }
}

/// Whether the descent by `p` from `node` at `level` meets only branches until level `0`.
pub open spec fn branches_to_bottom<T>(node: OctreeNode<T>, p: U8Vec3, level: nat) -> bool
    decreases level,
{
    level == 0 || match node {
        OctreeNode::Leaf(_) => false,
        OctreeNode::Branch(children) => branches_to_bottom(
            children@[child_index(p, level)],
            p,
            (level - 1) as nat,
        ),
    }
}

/// A set whose descent meets only branches reaches its own position.
proof fn lemma_set_reaches_bottom<T>(node: OctreeNode<T>, p: U8Vec3, level: nat)
    requires
        branches_to_bottom(node, p, level),
    ensures
        set_reaches(node, p, p, level),
    decreases level,
{
    if level > 0 {
        let children = node->Branch_0;
        lemma_set_reaches_bottom(children@[child_index(p, level)], p, (level - 1) as nat);
    }
}

/// After `set(pos, to)`, reading `pos` gives `to` when the descent by `pos` meets only
/// branches down to the lowest level, and every position the set does not reach keeps
/// its value.
pub proof fn law_read_after_write<T: OctreeValue, const DEPTH: u8>(
    before: Octree<T, DEPTH>,
    after: Octree<T, DEPTH>,
    pos: U8Vec3,
    to: T,
    other: U8Vec3,
)
    requires
        before.wf(),
        forall|q: U8Vec3|
            #[trigger] after.spec_get(q) == if set_reaches(
                before.spec_root(),
                pos,
                q,
                (DEPTH - 1) as nat,
            ) {
                to
            } else {
                before.spec_get(q)
            },
    ensures
        branches_to_bottom(before.spec_root(), pos, (DEPTH - 1) as nat) ==> after.spec_get(pos)
            == to,
        !set_reaches(before.spec_root(), pos, other, (DEPTH - 1) as nat) ==> after.spec_get(other)
            == before.spec_get(other),
{
    if branches_to_bottom(before.spec_root(), pos, (DEPTH - 1) as nat) {
        lemma_set_reaches_bottom(before.spec_root(), pos, (DEPTH - 1) as nat);
        assert(after.spec_get(pos) == to);
    }
    assert(after.spec_get(other) == if set_reaches(
        before.spec_root(),
        pos,
        other,
        (DEPTH - 1) as nat,
    ) {
        to
    } else {
        before.spec_get(other)
    });
}

/// Whether `p` lies in the cube with corner `corner` and side `side`.
pub open spec fn in_cube(p: U8Vec3, corner: (u32, u32, u32), side: u32) -> bool {
    &&& corner.0 <= p.x < corner.0 + side
    &&& corner.1 <= p.y < corner.1 + side
    &&& corner.2 <= p.z < corner.2 + side
}

/// Along one axis: the half of a cube of side `2^(l+1)`, whose corner is a multiple of its
/// side, that starts `o` halves past the corner has a corner that is a multiple of the half
/// side, and stays inside the range.
proof fn lemma_octant_corner(c: u32, s: u32, l: u32, o: u32, cc: u32)
    requires
        l < 8,
        s == 1u32 << ((l + 1) as u32),
        c & ((s - 1) as u32) == 0,
        c + s <= 256,
        o <= 1,
        cc == c + o * (s / 2),
    ensures
        s / 2 == 1u32 << l,
        s / 2 >= 1,
        cc & ((s / 2 - 1) as u32) == 0,
        cc + s / 2 <= 256,
        c <= cc,
        cc + s / 2 <= c + s,
{
    assert(l < 8 && s == 1u32 << ((l + 1) as u32) ==> s / 2 == 1u32 << l && s / 2 >= 1 && s == 2 * (s / 2))
        by (bit_vector);
    let h = s / 2;
    if o == 0 {
        assert(cc == c);
        assert(l < 8 && s == 1u32 << ((l + 1) as u32) && h == 1u32 << l && c & ((s - 1) as u32) == 0
            ==> c & ((h - 1) as u32) == 0) by (bit_vector);
    } else {
        assert(cc == c + h);
        assert(l < 8 && s == 1u32 << ((l + 1) as u32) && h == 1u32 << l && c & ((s - 1) as u32) == 0
            && c + s <= 256 ==> ((c + h) as u32) & ((h - 1) as u32) == 0) by (bit_vector);
    }
}

/// Along one axis: in that cube, the half that starts `o` halves past the corner holds
/// exactly the coordinates whose bit `l` is `o`.
proof fn lemma_octant_axis(c: u32, s: u32, l: u32, o: u32, cc: u32, v: u8)
    requires
        l < 8,
        s == 1u32 << ((l + 1) as u32),
        c & ((s - 1) as u32) == 0,
        c + s <= 256,
        o <= 1,
        cc == c + o * (s / 2),
        cc <= v < cc + s / 2,
    ensures
        ((v >> (l as u8)) & 1u8) as u32 == o,
        c <= v < c + s,
{
    lemma_octant_corner(c, s, l, o, cc);
    let w = v as u32;
    let l8 = l as u8;
    assert(l < 8 && l8 == l as u8 && w == v as u32 ==> ((v >> l8) & 1u8) as u32 == (w >> l) & 1u32)
        by (bit_vector);
    let h = s / 2;
    if o == 0 {
        assert(l < 8 && s == 1u32 << ((l + 1) as u32) && h == 1u32 << l && c & ((s - 1) as u32) == 0
            && c + s <= 256 && c <= w && w < c + h ==> (w >> l) & 1u32 == 0u32) by (bit_vector);
    } else {
        assert(l < 8 && s == 1u32 << ((l + 1) as u32) && h == 1u32 << l && c & ((s - 1) as u32) == 0
            && c + s <= 256 && c + h <= w && w < c + h + h ==> (w >> l) & 1u32 == 1u32) by (bit_vector);
    }
}

/// Every leaf listed below a node covers only positions inside the node's cube, and each
/// such position reads the leaf's value.
proof fn lemma_node_leafs_agree<T>(node: OctreeNode<T>, level: nat, pos: (u32, u32, u32), size: u32)
    requires
        level < 8,
        node_wf(node, level),
        size == 1u32 << ((level + 1) as u32),
        pos.0 & ((size - 1) as u32) == 0,
        pos.1 & ((size - 1) as u32) == 0,
        pos.2 & ((size - 1) as u32) == 0,
        pos.0 + size <= 256,
        pos.1 + size <= 256,
        pos.2 + size <= 256,
    ensures
        forall|k: int, p: U8Vec3|
            0 <= k < node_leafs(node, level, pos, size).len() && #[trigger] in_cube(
                p,
                node_leafs(node, level, pos, size)[k].0,
                node_leafs(node, level, pos, size)[k].1,
            ) ==> in_cube(p, pos, size) && node_get(node, p, level) == node_leafs(
                node,
                level,
                pos,
                size,
            )[k].2,
    decreases level, 9nat,
{
    match node {
        OctreeNode::Leaf(t) => {},
        OctreeNode::Branch(children) => {
            lemma_branch_wf(children, level);
            lemma_children_leafs_agree(children@, level, pos, size, 8);
            let leafs = node_leafs(node, level, pos, size);
            assert forall|k: int, p: U8Vec3|
                0 <= k < leafs.len() && #[trigger] in_cube(p, leafs[k].0, leafs[k].1) implies in_cube(
                p,
                pos,
                size,
            ) && node_get(node, p, level) == leafs[k].2 by {
                let cl = children_leafs(children@, level, pos, size, 8);
                assert(leafs == cl);
                assert(in_cube(p, cl[k].0, cl[k].1));
                lemma_node_get_branch(node, p, level);
            }
        },
    }
}

/// The leaves listed below the first `n` octants of a branch: each covers only positions
/// inside the branch's cube, and each such position reads the leaf's value in the octant
/// that its bits at `level` name.
proof fn lemma_children_leafs_agree<T>(
    children: Seq<OctreeNode<T>>,
    level: nat,
    pos: (u32, u32, u32),
    size: u32,
    n: nat,
)
    requires
        0 < level < 8,
        n <= 8,
        children.len() == 8,
        forall|i: int| 0 <= i < 8 ==> #[trigger] node_wf(children[i], (level - 1) as nat),
        size == 1u32 << ((level + 1) as u32),
        pos.0 & ((size - 1) as u32) == 0,
        pos.1 & ((size - 1) as u32) == 0,
        pos.2 & ((size - 1) as u32) == 0,
        pos.0 + size <= 256,
        pos.1 + size <= 256,
        pos.2 + size <= 256,
    ensures
        forall|k: int, p: U8Vec3|
            0 <= k < children_leafs(children, level, pos, size, n).len() && #[trigger] in_cube(
                p,
                children_leafs(children, level, pos, size, n)[k].0,
                children_leafs(children, level, pos, size, n)[k].1,
            ) ==> in_cube(p, pos, size) && 0 <= child_index(p, level) < n && node_get(
                children[child_index(p, level)],
                p,
                (level - 1) as nat,
            ) == children_leafs(children, level, pos, size, n)[k].2,
    decreases level, n,
{
    if n > 0 {
        lemma_children_leafs_agree(children, level, pos, size, (n - 1) as nat);
        let j = n - 1;
        let half = (size / 2) as u32;
        let off = child_offset(j);
        let cpos = (
            (pos.0 + off.0 * half) as u32,
            (pos.1 + off.1 * half) as u32,
            (pos.2 + off.2 * half) as u32,
        );
        let before = children_leafs(children, level, pos, size, (n - 1) as nat);
        let own = node_leafs(children[j], (level - 1) as nat, cpos, half);
        let all = children_leafs(children, level, pos, size, n);
        assert(all == before + own);
        assert(off.0 <= 1 && off.1 <= 1 && off.2 <= 1);
        assert(j == off.2 * 4 + off.1 * 2 + off.0) by {
            if j == 0 {} else if j == 1 {} else if j == 2 {} else if j == 3 {}
            else if j == 4 {} else if j == 5 {} else if j == 6 {} else {}
        }
        assert(half == 1u32 << (level as u32) && cpos.0 & ((half - 1) as u32) == 0 && cpos.1 & ((half - 1) as u32)
            == 0 && cpos.2 & ((half - 1) as u32) == 0 && cpos.0 + half <= 256 && cpos.1 + half <= 256
            && cpos.2 + half <= 256) by {
            lemma_octant_corner(pos.0, size, level as u32, off.0, cpos.0);
            lemma_octant_corner(pos.1, size, level as u32, off.1, cpos.1);
            lemma_octant_corner(pos.2, size, level as u32, off.2, cpos.2);
        }
        assert((level - 1 + 1) as u32 == level as u32);
        lemma_node_leafs_agree(children[j], (level - 1) as nat, cpos, half);
        assert forall|k: int, p: U8Vec3|
            0 <= k < all.len() && #[trigger] in_cube(p, all[k].0, all[k].1) implies in_cube(
            p,
            pos,
            size,
        ) && 0 <= child_index(p, level) < n && node_get(
            children[child_index(p, level)],
            p,
            (level - 1) as nat,
        ) == all[k].2 by {
            if k < before.len() {
                assert(all[k] == before[k]);
            } else {
                let k2 = k - before.len();
                assert(all[k] == own[k2]);
                assert(in_cube(p, own[k2].0, own[k2].1));
                assert(in_cube(p, cpos, half) && node_get(children[j], p, (level - 1) as nat)
                    == own[k2].2);
                lemma_octant_axis(pos.0, size, level as u32, off.0, cpos.0, p.x);
                lemma_octant_axis(pos.1, size, level as u32, off.1, cpos.1, p.y);
                lemma_octant_axis(pos.2, size, level as u32, off.2, cpos.2, p.z);
                assert(child_index(p, level) == j);
            }
        }
    }
}

/// The leaves `leaf_vec` lists agree with `get`: every position inside a listed leaf's
/// cube (corner included, corner plus side excluded, on each axis) reads that leaf's
/// value.
pub proof fn law_leaf_vec_agrees_with_get<T: OctreeValue, const DEPTH: u8>(
    tree: Octree<T, DEPTH>,
    leafs: Seq<((u32, u32, u32), u32, T)>,
    k: int,
    p: U8Vec3,
)
    requires
        tree.wf(),
        leafs == node_leafs(
            tree.spec_root(),
            (DEPTH - 1) as nat,
            (0u32, 0u32, 0u32),
            (1u32 << (DEPTH as u32)) as u32,
        ),
        0 <= k < leafs.len(),
        in_cube(p, leafs[k].0, leafs[k].1),
    ensures
        tree.spec_get(p) == leafs[k].2,
{
    let level = (DEPTH - 1) as nat;
    let size = (1u32 << (DEPTH as u32)) as u32;
    assert(((level + 1) as u32) == DEPTH as u32);
    assert(forall|m: u32| 0u32 & m == 0) by (bit_vector);
    let d = DEPTH as u32;
    assert(1 <= d < 8 ==> (1u32 << d) <= 128) by (bit_vector);
    lemma_node_leafs_agree(tree.spec_root(), level, (0u32, 0u32, 0u32), size);
    assert(in_cube(p, leafs[k].0, leafs[k].1));
    assert(node_get(tree.spec_root(), p, level) == leafs[k].2);
}

/// Reading below a branch at `level` goes into octant `x + 2 y + 4 z`, where `x`, `y` and
/// `z` are bit `level` of the position's coordinates.
pub proof fn law_get_picks_octant<T>(children: Box<[OctreeNode<T>; 8]>, p: U8Vec3, level: nat)
    requires
        0 < level < 8,
    ensures
        node_get(OctreeNode::Branch(children), p, level) == node_get(
            children@[((p.x >> (level as u8)) & 1u8) as int + 2 * (((p.y >> (level as u8)) & 1u8)
                as int) + 4 * (((p.z >> (level as u8)) & 1u8) as int)],
            p,
            (level - 1) as nat,
        ),
{
    lemma_node_get_branch(OctreeNode::Branch(children), p, level);
}

} // verus!
