//! What a viewer sees: the chunk positions within a sphere around it.
use vstd::prelude::*;

use crate::vec3::IVec3;

verus! {

/// Whether `p` lies within distance `radius` of `center` (on integer coordinates).
pub open spec fn in_sphere(center: IVec3, radius: int, p: IVec3) -> bool {
    let dx = p.x - center.x;
    let dy = p.y - center.y;
    let dz = p.z - center.z;
    dx * dx + dy * dy + dz * dz <= radius * radius
}

/// Strict lexicographic order on `(x, y, z)`.
pub open spec fn lex_lt(a: IVec3, b: IVec3) -> bool {
    a.x < b.x || (a.x == b.x && (a.y < b.y || (a.y == b.y && a.z < b.z)))
}

/// Whether the offset `(dx, dy, dz)` comes before `(x, y, z)` in the order the sphere
/// is walked: `x` slowest, `z` fastest.
pub open spec fn walked_before(dx: int, dy: int, dz: int, x: int, y: int, z: int) -> bool {
    dx < x || (dx == x && (dy < y || (dy == y && dz < z)))
}

/// A square is at most the square of a bound on the absolute value.
proof fn lemma_square_bound(a: int, r: int)
    requires
        -r <= a <= r,
    ensures
        a * a <= r * r,
        a * a >= 0,
{
    assert(a * a <= r * r && a * a >= 0) by (nonlinear_arith)
        requires
            -r <= a <= r,
    ;
}

/// Each offset of a point within distance `r` lies within `r`.
proof fn lemma_sphere_coords(dx: int, dy: int, dz: int, r: int)
    requires
        r >= 0,
        dx * dx + dy * dy + dz * dz <= r * r,
    ensures
        -r <= dx <= r,
        -r <= dy <= r,
        -r <= dz <= r,
{
    assert(dx * dx >= 0 && dy * dy >= 0 && dz * dz >= 0) by (nonlinear_arith);
    assert(-r <= dx <= r) by (nonlinear_arith)
        requires
            r >= 0,
            dx * dx <= r * r,
    ;
    assert(-r <= dy <= r) by (nonlinear_arith)
        requires
            r >= 0,
            dy * dy <= r * r,
    ;
    assert(-r <= dz <= r) by (nonlinear_arith)
        requires
            r >= 0,
            dz * dz <= r * r,
    ;
}

/// The largest radius whose squared offsets, summed over three axes, fit an `i32`.
pub const MAX_SPHERE_RADIUS: i32 = 26754;

/// Every position within distance `radius` of `position`, each once, in increasing
/// `(x, y, z)` order; none for a negative radius. The radius is bounded so that squared
/// lengths fit an `i32`, and the position so that every coordinate does.
pub fn sphere_positions(position: IVec3, radius: i32) -> (r: Vec<IVec3>)
    requires
        radius <= MAX_SPHERE_RADIUS,
        radius >= 0 ==> i32::MIN + radius <= position.x <= i32::MAX - radius,
        radius >= 0 ==> i32::MIN + radius <= position.y <= i32::MAX - radius,
        radius >= 0 ==> i32::MIN + radius <= position.z <= i32::MAX - radius,
    ensures
        radius < 0 ==> r@.len() == 0,
        radius >= 0 ==> forall|p: IVec3| r@.contains(p) <==> in_sphere(position, radius as int, p),
        forall|i: int, j: int| 0 <= i < j < r@.len() ==> lex_lt(#[trigger] r@[i], #[trigger] r@[j]),
{
    if radius < 0 {
        return Vec::new();
    }
    assert(radius * radius <= 715776516) by (nonlinear_arith)
        requires
            0 <= radius <= 26754,
    ;
    let radius_sq: i32 = radius * radius;
    proof {
        assert forall|p: IVec3| !(in_sphere(position, radius as int, p) && walked_before(
            p.x - position.x,
            p.y - position.y,
            p.z - position.z,
            -radius as int,
            -radius as int,
            -radius as int,
        )) by {
            if in_sphere(position, radius as int, p) {
                lemma_sphere_coords(p.x - position.x, p.y - position.y, p.z - position.z, radius as int);
            }
        }
    }
    let mut out: Vec<IVec3> = Vec::new();
    let mut x: i32 = -radius;
    while x <= radius
        invariant
            0 <= radius <= 26754,
            radius_sq == radius * radius,
            radius * radius <= 715776516,
            -radius <= x <= radius + 1,
            i32::MIN + radius <= position.x <= i32::MAX - radius,
            i32::MIN + radius <= position.y <= i32::MAX - radius,
            i32::MIN + radius <= position.z <= i32::MAX - radius,
            forall|p: IVec3|
                out@.contains(p) <==> in_sphere(position, radius as int, p) && walked_before(
                    p.x - position.x,
                    p.y - position.y,
                    p.z - position.z,
                    x as int,
                    -radius as int,
                    -radius as int,
                ),
            forall|i: int, j: int|
                0 <= i < j < out@.len() ==> lex_lt(#[trigger] out@[i], #[trigger] out@[j]),
            forall|i: int|
                0 <= i < out@.len() ==> (#[trigger] out@[i]).x - position.x < x,
        decreases radius + 1 - x,
    {
        let mut y: i32 = -radius;
        while y <= radius
            invariant
                0 <= radius <= 26754,
                radius_sq == radius * radius,
                radius * radius <= 715776516,
            radius * radius <= 715776516,
                -radius <= x <= radius,
                -radius <= y <= radius + 1,
                i32::MIN + radius <= position.x <= i32::MAX - radius,
                i32::MIN + radius <= position.y <= i32::MAX - radius,
                i32::MIN + radius <= position.z <= i32::MAX - radius,
                forall|p: IVec3|
                    out@.contains(p) <==> in_sphere(position, radius as int, p) && walked_before(
                        p.x - position.x,
                        p.y - position.y,
                        p.z - position.z,
                        x as int,
                        y as int,
                        -radius as int,
                    ),
                forall|i: int, j: int|
                    0 <= i < j < out@.len() ==> lex_lt(#[trigger] out@[i], #[trigger] out@[j]),
                forall|i: int|
                    0 <= i < out@.len() ==> walked_before(
                        (#[trigger] out@[i]).x - position.x,
                        out@[i].y - position.y,
                        0,
                        x as int,
                        y as int,
                        0,
                    ),
            decreases radius + 1 - y,
        {
            let mut z: i32 = -radius;
            while z <= radius
                invariant
                    0 <= radius <= 26754,
                    radius_sq == radius * radius,
                    radius * radius <= 715776516,
                radius * radius <= 715776516,
            radius * radius <= 715776516,
                    -radius <= x <= radius,
                    -radius <= y <= radius,
                    -radius <= z <= radius + 1,
                    i32::MIN + radius <= position.x <= i32::MAX - radius,
                    i32::MIN + radius <= position.y <= i32::MAX - radius,
                    i32::MIN + radius <= position.z <= i32::MAX - radius,
                    forall|p: IVec3|
                        out@.contains(p) <==> in_sphere(position, radius as int, p)
                            && walked_before(
                            p.x - position.x,
                            p.y - position.y,
                            p.z - position.z,
                            x as int,
                            y as int,
                            z as int,
                        ),
                    forall|i: int, j: int|
                        0 <= i < j < out@.len() ==> lex_lt(#[trigger] out@[i], #[trigger] out@[j]),
                    forall|i: int|
                        0 <= i < out@.len() ==> walked_before(
                            (#[trigger] out@[i]).x - position.x,
                            out@[i].y - position.y,
                            out@[i].z - position.z,
                            x as int,
                            y as int,
                            z as int,
                        ),
                decreases radius + 1 - z,
            {
                proof {
                    lemma_square_bound(x as int, radius as int);
                    lemma_square_bound(y as int, radius as int);
                    lemma_square_bound(z as int, radius as int);
                }
                let length_squared = x * x + y * y + z * z;
                if length_squared <= radius_sq {
                    let p = IVec3 { x: x + position.x, y: y + position.y, z: z + position.z };
                    let ghost before = out@;
                    out.push(p);
                    proof {
                        assert forall|q: IVec3| out@.contains(q) <==> in_sphere(
                            position,
                            radius as int,
                            q,
                        ) && walked_before(
                            q.x - position.x,
                            q.y - position.y,
                            q.z - position.z,
                            x as int,
                            y as int,
                            z + 1,
                        ) by {
                            if q == p {
                                assert(out@[out@.len() - 1] == p);
                            } else if before.contains(q) {
                                let k = choose|k: int| 0 <= k < before.len() && before[k] == q;
                                assert(out@[k] == q);
                            } else if out@.contains(q) {
                                let k = choose|k: int| 0 <= k < out@.len() && out@[k] == q;
                                if k < before.len() {
                                    assert(before[k] == q);
                                }
                            }
                        }
                        assert forall|i: int| 0 <= i < out@.len() implies walked_before(
                            (#[trigger] out@[i]).x - position.x,
                            out@[i].y - position.y,
                            out@[i].z - position.z,
                            x as int,
                            y as int,
                            z + 1,
                        ) by {
                            if i < before.len() {
                                assert(before[i] == out@[i]);
                            }
                        }
                        assert forall|i: int, j: int| 0 <= i < j < out@.len() implies lex_lt(
                            #[trigger] out@[i],
                            #[trigger] out@[j],
                        ) by {
                            if j < before.len() {
                                assert(before[i] == out@[i] && before[j] == out@[j]);
                            } else {
                                assert(before[i] == out@[i]);
                            }
                        }
                    }
                } else {
                    proof {
                        assert forall|q: IVec3| out@.contains(q) <==> in_sphere(
                            position,
                            radius as int,
                            q,
                        ) && walked_before(
                            q.x - position.x,
                            q.y - position.y,
                            q.z - position.z,
                            x as int,
                            y as int,
                            z + 1,
                        ) by {
                            if q.x - position.x == x && q.y - position.y == y && q.z - position.z
                                == z {
                                assert(!in_sphere(position, radius as int, q));
                            }
                        }
                    }
                }
                z = z + 1;
            }
            proof {
                assert forall|q: IVec3| out@.contains(q) <==> in_sphere(position, radius as int, q)
                    && walked_before(
                    q.x - position.x,
                    q.y - position.y,
                    q.z - position.z,
                    x as int,
                    y + 1,
                    -radius as int,
                ) by {
                    if in_sphere(position, radius as int, q) {
                        lemma_sphere_coords(q.x - position.x, q.y - position.y, q.z - position.z, radius as int);
                    }
                }
            }
            y = y + 1;
        }
        proof {
            assert forall|q: IVec3| out@.contains(q) <==> in_sphere(position, radius as int, q)
                && walked_before(
                q.x - position.x,
                q.y - position.y,
                q.z - position.z,
                x + 1,
                -radius as int,
                -radius as int,
            ) by {
                if in_sphere(position, radius as int, q) {
                    lemma_sphere_coords(q.x - position.x, q.y - position.y, q.z - position.z, radius as int);
                }
            }
        }
        x = x + 1;
    }
    proof {
        assert forall|q: IVec3| out@.contains(q) <==> in_sphere(position, radius as int, q) by {
            if in_sphere(position, radius as int, q) {
                lemma_sphere_coords(q.x - position.x, q.y - position.y, q.z - position.z, radius as int);
            }
        }
    }
    out
}

/// Every position within distance `radius` of `position`, each once, in increasing
/// `(x, y, z)` order. Positions whose coordinates would leave `i32` are left out by the
/// bound on `position`.
pub fn sphere_iter(position: IVec3, radius: u8) -> (r: Vec<IVec3>)
    requires
        i32::MIN + radius <= position.x <= i32::MAX - radius,
        i32::MIN + radius <= position.y <= i32::MAX - radius,
        i32::MIN + radius <= position.z <= i32::MAX - radius,
    ensures
        forall|p: IVec3| r@.contains(p) <==> in_sphere(position, radius as int, p),
        forall|i: int, j: int| 0 <= i < j < r@.len() ==> lex_lt(#[trigger] r@[i], #[trigger] r@[j]),
{
    sphere_positions(position, radius as i32)
}

/// Something that sees the chunks within `view_distance` of its own chunk.
#[derive(Debug, Clone, Copy)]
pub struct VoxelViewer {
    pub view_distance: u8,
}

impl VoxelViewer {
    /// The chunk positions this viewer sees from `chunk_pos`, as [`sphere_iter`] lists
    /// them.
    pub fn visible_positions(&self, chunk_pos: IVec3) -> (r: Vec<IVec3>)
        requires
            i32::MIN + self.view_distance <= chunk_pos.x <= i32::MAX - self.view_distance,
            i32::MIN + self.view_distance <= chunk_pos.y <= i32::MAX - self.view_distance,
            i32::MIN + self.view_distance <= chunk_pos.z <= i32::MAX - self.view_distance,
        ensures
            forall|p: IVec3| r@.contains(p) <==> in_sphere(chunk_pos, self.view_distance as int, p),
            forall|i: int, j: int| 0 <= i < j < r@.len() ==> lex_lt(#[trigger] r@[i], #[trigger] r@[j]),
    {
        sphere_iter(chunk_pos, self.view_distance)
    }
}

} // verus!
