//! A viewer that sees the chunks within a signed radius of a chunk.
use vstd::prelude::*;

use crate::vec3::IVec3;
use crate::viewer::{in_sphere, lex_lt, sphere_positions, MAX_SPHERE_RADIUS};

verus! {

/// Something that sees the chunks within `radius` of a chunk; a negative radius sees
/// none.
#[derive(Debug, Clone, Copy)]
pub struct VoxelViewer {
    pub radius: i32,
}

impl VoxelViewer {
    /// A viewer with the given radius.
    pub fn new(radius: i32) -> (r: Self)
        ensures
            r.radius == radius,
    {
        Self { radius }
    }

    /// The chunk positions within `radius` of `origin`, each once, in increasing
    /// `(x, y, z)` order.
    pub fn visible_positions(&self, origin: IVec3) -> (r: Vec<IVec3>)
        requires
            self.radius <= MAX_SPHERE_RADIUS,
            self.radius >= 0 ==> i32::MIN + self.radius <= origin.x <= i32::MAX - self.radius,
            self.radius >= 0 ==> i32::MIN + self.radius <= origin.y <= i32::MAX - self.radius,
            self.radius >= 0 ==> i32::MIN + self.radius <= origin.z <= i32::MAX - self.radius,
        ensures
            self.radius < 0 ==> r@.len() == 0,
            self.radius >= 0 ==> forall|p: IVec3|
                r@.contains(p) <==> in_sphere(origin, self.radius as int, p),
            forall|i: int, j: int| 0 <= i < j < r@.len() ==> lex_lt(#[trigger] r@[i], #[trigger] r@[j]),
    {
        sphere_positions(origin, self.radius)
    }
}

} // verus!
