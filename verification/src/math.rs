//! Signs, axes, directions and axis orderings.
use vstd::prelude::*;

pub mod axis;
pub mod axis_permutation;
pub mod signed_axis;

verus! {

/// The sign of a direction along an axis.
#[derive(Debug, Clone, Copy, PartialEq, Eq)]
pub enum Sign {
    Pos,
    Neg,
}

/// One of the three unsigned axes.
#[derive(Debug, Clone, Copy, PartialEq, Eq)]
pub enum Axis {
    X,
    Y,
    Z,
}

/// One of the six axis aligned directions, numbered `PosX = 0 .. NegZ = 5`.
#[derive(Debug, Clone, Copy, PartialEq, Eq)]
pub enum SignedAxis {
    PosX,
    NegX,
    PosY,
    NegY,
    PosZ,
    NegZ,
}

impl SignedAxis {
    /// The number of the direction: `PosX = 0, NegX = 1, PosY = 2, NegY = 3, PosZ = 4, NegZ = 5`.
    pub open spec fn spec_as_index(self) -> int {
        match self {
            SignedAxis::PosX => 0,
            SignedAxis::NegX => 1,
            SignedAxis::PosY => 2,
            SignedAxis::NegY => 3,
            SignedAxis::PosZ => 4,
            SignedAxis::NegZ => 5,
        }
    }

    /// The axis that the direction runs along.
    pub open spec fn spec_unsigned(self) -> Axis {
        match self {
            SignedAxis::PosX | SignedAxis::NegX => Axis::X,
            SignedAxis::PosY | SignedAxis::NegY => Axis::Y,
            SignedAxis::PosZ | SignedAxis::NegZ => Axis::Z,
        }
    }

    /// Whether the direction points along the positive half of its axis.
    pub open spec fn spec_positive(self) -> bool {
        match self {
            SignedAxis::PosX | SignedAxis::PosY | SignedAxis::PosZ => true,
            _ => false,
        }
    }

    /// The axis of the direction.
    pub fn as_unsigned(&self) -> (r: Axis)
        ensures
            r == self.spec_unsigned(),
    {
        match self {
            SignedAxis::PosX | SignedAxis::NegX => Axis::X,
            SignedAxis::PosY | SignedAxis::NegY => Axis::Y,
            SignedAxis::PosZ | SignedAxis::NegZ => Axis::Z,
        }
    }

    /// The number of the direction (`PosX = 0` up to `NegZ = 5`).
    pub fn as_index(&self) -> (r: usize)
        ensures
            r == self.spec_as_index(),
            r < 6,
    {
        match self {
            SignedAxis::PosX => 0,
            SignedAxis::NegX => 1,
            SignedAxis::PosY => 2,
            SignedAxis::NegY => 3,
            SignedAxis::PosZ => 4,
            SignedAxis::NegZ => 5,
        }
    }

    /// Whether the direction is positive: its number is even.
    pub fn is_positive(&self) -> (r: bool)
        ensures
            r == (self.spec_as_index() % 2 == 0),
            r == self.spec_positive(),
    {
        (self.as_index() % 2) == 0
    }
}

/// An ordering of the three axes, from the fastest varying to the slowest.
#[derive(Debug, Clone, Copy, PartialEq, Eq)]
pub enum AxisPermutation {
    XYZ,
    YZX,
    ZXY,
    XZY,
    YXZ,
    ZYX,
}

/// The linear index of `(a, b, c)` in a cube of side `length`, where `a` varies fastest.
pub open spec fn cubic_index(a: int, b: int, c: int, length: int) -> int {
    a + b * length + c * length * length
}

impl AxisPermutation {
    /// The coordinates `(x, y, z)` in the order of the permutation, fastest first.
    pub open spec fn spec_order(self, x: int, y: int, z: int) -> (int, int, int) {
        match self {
            AxisPermutation::XYZ => (x, y, z),
            AxisPermutation::ZXY => (z, x, y),
            AxisPermutation::YZX => (y, z, x),
            AxisPermutation::ZYX => (z, y, x),
            AxisPermutation::XZY => (x, z, y),
            AxisPermutation::YXZ => (y, x, z),
        }
    }

    /// The linear index of `(x, y, z)` when the axes are laid out in this order.
    pub open spec fn spec_linearize(self, x: int, y: int, z: int, length: int) -> int {
        let (a, b, c) = self.spec_order(x, y, z);
        cubic_index(a, b, c, length)
    }

    /// Linear index of the position `(x, y, z)` in a cube of side `LENGTH`
    /// whose axes are laid out in the order of `self`.
    pub fn linearize_cubic<const LENGTH: usize>(&self, x: usize, y: usize, z: usize) -> (r: usize)
        requires
            self.spec_linearize(x as int, y as int, z as int, LENGTH as int) <= usize::MAX,
        ensures
            r == self.spec_linearize(x as int, y as int, z as int, LENGTH as int),
    {
        let (a, b, c) = match self {
            AxisPermutation::XYZ => (x, y, z),
            AxisPermutation::ZXY => (z, x, y),
            AxisPermutation::YZX => (y, z, x),
            AxisPermutation::ZYX => (z, y, x),
            AxisPermutation::XZY => (x, z, y),
            AxisPermutation::YXZ => (y, x, z),
        };
        proof {
            lemma_cubic_index_parts(a as int, b as int, c as int, LENGTH as int);
        }
        a + b * LENGTH + c * LENGTH * LENGTH
    }

    /// The even permutation that starts with `axis`.
    pub fn even(axis: Axis) -> (r: Self)
        ensures
            r == match axis {
                Axis::X => AxisPermutation::XYZ,
                Axis::Y => AxisPermutation::YZX,
                Axis::Z => AxisPermutation::ZXY,
            },
    {
        match axis {
            Axis::X => AxisPermutation::XYZ,
            Axis::Y => AxisPermutation::YZX,
            Axis::Z => AxisPermutation::ZXY,
        }
    }

    /// The odd permutation that starts with `axis`.
    pub fn odd(axis: Axis) -> (r: Self)
        ensures
            r == match axis {
                Axis::X => AxisPermutation::XZY,
                Axis::Y => AxisPermutation::YXZ,
                Axis::Z => AxisPermutation::ZYX,
            },
    {
        match axis {
            Axis::X => AxisPermutation::XZY,
            Axis::Y => AxisPermutation::YXZ,
            Axis::Z => AxisPermutation::ZYX,
        }
    }
}

/// Each partial product and sum of the cubic index is bounded by the whole.
proof fn lemma_cubic_index_parts(a: int, b: int, c: int, length: int)
    requires
        a >= 0,
        b >= 0,
        c >= 0,
        length >= 0,
    ensures
        0 <= b * length <= cubic_index(a, b, c, length),
        0 <= length * length,
        0 <= c * length <= c * length * length || length == 0,
        0 <= c * length * length <= cubic_index(a, b, c, length),
        a + b * length <= cubic_index(a, b, c, length),
{
    assert(0 <= b * length) by (nonlinear_arith)
        requires
            b >= 0,
            length >= 0,
    ;
    assert(0 <= c * length * length) by (nonlinear_arith)
        requires
            c >= 0,
            length >= 0,
    ;
    assert(0 <= length * length) by (nonlinear_arith)
        requires
            length >= 0,
    ;
    assert(0 <= c * length <= c * length * length || length == 0) by (nonlinear_arith)
        requires
            c >= 0,
            length >= 0,
    ;
}


/// The parts of a cubic index inside a cube are read back by division: `a` is the rest
/// modulo `length`, `b` the rest of the quotient, `c` the quotient by `length²`; the index
/// lies below `length³`.
proof fn lemma_cubic_index_parts_back(a: int, b: int, c: int, length: int)
    requires
        0 <= a < length,
        0 <= b < length,
        0 <= c < length,
    ensures
        0 <= cubic_index(a, b, c, length) < length * length * length,
        cubic_index(a, b, c, length) % length == a,
        (cubic_index(a, b, c, length) / length) % length == b,
        (cubic_index(a, b, c, length) / length) / length == c,
{
    let m = b + length * c;
    let n = cubic_index(a, b, c, length);
    assert(n == a + length * m) by (nonlinear_arith)
        requires
            n == a + b * length + c * length * length,
            m == b + length * c,
    ;
    assert(0 <= m < length * length) by (nonlinear_arith)
        requires
            m == b + length * c,
            0 <= b < length,
            0 <= c < length,
    ;
    assert(0 <= n < length * length * length) by (nonlinear_arith)
        requires
            n == a + length * m,
            0 <= a < length,
            0 <= m < length * length,
    ;
    assert(n == m * length + a && m == c * length + b) by (nonlinear_arith)
        requires
            n == a + length * m,
            m == b + length * c,
    ;
    vstd::arithmetic::div_mod::lemma_fundamental_div_mod_converse(n, length, m, a);
    vstd::arithmetic::div_mod::lemma_fundamental_div_mod_converse(m, length, c, b);
}

/// Every index below `length³` is the cubic index of one triple inside the cube.
proof fn lemma_cubic_index_onto(n: int, length: int)
    requires
        0 <= n < length * length * length,
    ensures
        0 <= n % length < length,
        0 <= (n / length) % length < length,
        0 <= (n / length) / length < length,
        cubic_index(n % length, (n / length) % length, (n / length) / length, length) == n,
{
    assert(length > 0) by (nonlinear_arith)
        requires
            0 <= n < length * length * length,
    ;
    let a = n % length;
    let m = n / length;
    let b = m % length;
    let c = m / length;
    vstd::arithmetic::div_mod::lemma_fundamental_div_mod(n, length);
    vstd::arithmetic::div_mod::lemma_fundamental_div_mod(m, length);
    vstd::arithmetic::div_mod::lemma_mod_pos_bound(n, length);
    vstd::arithmetic::div_mod::lemma_mod_pos_bound(m, length);
    assert(0 <= m < length * length) by (nonlinear_arith)
        requires
            n == length * m + a,
            0 <= a < length,
            0 <= n < length * length * length,
            length > 0,
    ;
    assert(0 <= c < length) by (nonlinear_arith)
        requires
            m == length * c + b,
            0 <= b < length,
            0 <= m < length * length,
            length > 0,
    ;
    assert(cubic_index(a, b, c, length) == n) by (nonlinear_arith)
        requires
            n == length * m + a,
            m == length * c + b,
    ;
}

/// For a fixed order of the axes, `linearize_cubic` maps the positions of a cube of side
/// `length` one to one onto the indices `0 .. length³`: every position gets an index below
/// `length³`, two positions with one index are the same, and every such index is reached.
pub proof fn law_linearize_cubic_bijective(
    order: AxisPermutation,
    x: int,
    y: int,
    z: int,
    u: int,
    v: int,
    w: int,
    n: int,
    length: int,
)
    requires
        0 <= x < length,
        0 <= y < length,
        0 <= z < length,
        0 <= u < length,
        0 <= v < length,
        0 <= w < length,
    ensures
        0 <= order.spec_linearize(x, y, z, length) < length * length * length,
        order.spec_linearize(x, y, z, length) == order.spec_linearize(u, v, w, length) ==> x == u
            && y == v && z == w,
        0 <= n < length * length * length ==> exists|p: int, q: int, t: int|
            0 <= p < length && 0 <= q < length && 0 <= t < length && #[trigger] order.spec_linearize(
                p,
                q,
                t,
                length,
            ) == n,
{
    let (a, b, c) = order.spec_order(x, y, z);
    let (d, e, f) = order.spec_order(u, v, w);
    lemma_cubic_index_parts_back(a, b, c, length);
    lemma_cubic_index_parts_back(d, e, f, length);
    if 0 <= n < length * length * length {
        lemma_cubic_index_onto(n, length);
        let a0 = n % length;
        let b0 = (n / length) % length;
        let c0 = (n / length) / length;
        match order {
            AxisPermutation::XYZ => {
                assert(order.spec_linearize(a0, b0, c0, length) == n);
            },
            AxisPermutation::ZXY => {
                assert(order.spec_linearize(b0, c0, a0, length) == n);
            },
            AxisPermutation::YZX => {
                assert(order.spec_linearize(c0, a0, b0, length) == n);
            },
            AxisPermutation::ZYX => {
                assert(order.spec_linearize(c0, b0, a0, length) == n);
            },
            AxisPermutation::XZY => {
                assert(order.spec_linearize(a0, c0, b0, length) == n);
            },
            AxisPermutation::YXZ => {
                assert(order.spec_linearize(b0, a0, c0, length) == n);
            },
        }
    }
}

/// `linearize_cubic` lays the axes out in the order the variant names them, the first
/// letter varying fastest: one step along the first named axis moves the index by `1`,
/// along the second by `length`, along the third by `length²`, from `0` at the origin.
pub proof fn law_linearize_cubic_axis_order(order: AxisPermutation, x: int, y: int, z: int, length: int)
    ensures
        order == AxisPermutation::XYZ ==> order.spec_linearize(x, y, z, length) == x + y * length
            + z * length * length,
        order == AxisPermutation::XZY ==> order.spec_linearize(x, y, z, length) == x + z * length
            + y * length * length,
        order == AxisPermutation::YXZ ==> order.spec_linearize(x, y, z, length) == y + x * length
            + z * length * length,
        order == AxisPermutation::YZX ==> order.spec_linearize(x, y, z, length) == y + z * length
            + x * length * length,
        order == AxisPermutation::ZXY ==> order.spec_linearize(x, y, z, length) == z + x * length
            + y * length * length,
        order == AxisPermutation::ZYX ==> order.spec_linearize(x, y, z, length) == z + y * length
            + x * length * length,
{
}

} // verus!
