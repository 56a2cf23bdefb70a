//! Data related to voxel and chunk space.
use vstd::prelude::*;

verus! {

/// Side length of standard chunks.
pub const CHUNK_LENGTH: u8 = 16;

/// Number of voxels in a standard chunk: `CHUNK_LENGTH` cubed.
pub const VOXELS_IN_CHUNK: u16 = 4096;

/// The position of a chunk relative to the origin.
#[derive(Debug, Clone, Copy, PartialEq, Eq, Hash, Default)]
pub struct ChunkPos {
    pub x: i64,
    pub y: i64,
    pub z: i64,
}

impl ChunkPos {
    /// Creates a new `ChunkPos`.
    pub fn new(x: i64, y: i64, z: i64) -> (r: Self)
        ensures
            r == (ChunkPos { x, y, z }),
    {
        Self { x, y, z }
    }
}

/// A value that lies outside the bounds of a bounded coordinate.
#[derive(Debug, Clone, Copy, PartialEq, Eq)]
pub struct BoundsError<T>(pub T);

/// A `u8` bound to `[0, CHUNK_LENGTH)`.
///
/// Operations on local coordinates wrap around: past the maximum (`15`) they continue at
/// the minimum (`0`) and vice versa.
#[derive(Debug, Clone, Copy, PartialEq, Eq, PartialOrd, Ord, Hash, Default)]
pub struct LocalCoord(u8);

impl LocalCoord {
    /// The coordinate's value.
    pub closed spec fn spec_inner(self) -> u8 {
        self.0
    }

    /// The coordinate always lies in `[0, CHUNK_LENGTH)`.
    #[verifier::type_invariant]
    spec fn inv(self) -> bool {
        self.0 < CHUNK_LENGTH
    }

    /// The coordinate's value.
    pub fn inner(&self) -> (r: &u8)
        ensures
            *r == self.spec_inner(),
            *r < CHUNK_LENGTH,
    {
        proof {
            use_type_invariant(self);
        }
        &self.0
    }

    /// The coordinate's value.
    pub fn into_inner(self) -> (r: u8)
        ensures
            r == self.spec_inner(),
            r < CHUNK_LENGTH,
    {
        proof {
            use_type_invariant(self);
        }
        self.0
    }

    /// The coordinate with value `inner`, or `Err(BoundsError(inner))` when `inner` is not below
    /// `CHUNK_LENGTH`.
    pub fn bounded_wrap(inner: u8) -> (r: Result<Self, BoundsError<u8>>)
        ensures
            inner < CHUNK_LENGTH ==> (r matches Ok(c) && c.spec_inner() == inner),
            inner >= CHUNK_LENGTH ==> r == Err::<Self, BoundsError<u8>>(BoundsError(inner)),
    {
        if inner < CHUNK_LENGTH {
            Ok(LocalCoord(inner))
        } else {
            Err(BoundsError(inner))
        }
    }

    /// The coordinate with value `inner` wrapped into `[0, CHUNK_LENGTH)`.
    pub fn normalized_wrap(inner: u8) -> (r: Self)
        ensures
            r.spec_inner() == inner % CHUNK_LENGTH,
    {
        LocalCoord(inner % CHUNK_LENGTH)
    }

    /// The sum, wrapped.
    pub fn wrapping_add(self, rhs: Self) -> (r: Self)
        ensures
            r.spec_inner() == (self.spec_inner() + rhs.spec_inner()) % (CHUNK_LENGTH as int),
    {
        proof {
            use_type_invariant(self);
            use_type_invariant(rhs);
        }
        Self::normalized_wrap(self.0 + rhs.0)
    }

    /// The difference, wrapped.
    pub fn wrapping_sub(self, rhs: Self) -> (r: Self)
        ensures
            r.spec_inner() == (self.spec_inner() - rhs.spec_inner()) % (CHUNK_LENGTH as int),
    {
        proof {
            use_type_invariant(self);
            use_type_invariant(rhs);
        }
        Self::normalized_wrap(self.0 + CHUNK_LENGTH - rhs.0)
    }

    /// The product, wrapped.
    pub fn wrapping_mul(self, rhs: Self) -> (r: Self)
        ensures
            r.spec_inner() == (self.spec_inner() * rhs.spec_inner()) % (CHUNK_LENGTH as int),
    {
        proof {
            use_type_invariant(self);
            use_type_invariant(rhs);
            assert(self.0 * rhs.0 <= 225) by (nonlinear_arith)
                requires
                    self.0 < 16,
                    rhs.0 < 16,
            ;
        }
        Self::normalized_wrap(self.0 * rhs.0)
    }

    /// The quotient; the divisor must not be zero.
    pub fn wrapping_div(self, rhs: Self) -> (r: Self)
        requires
            rhs.spec_inner() != 0,
        ensures
            r.spec_inner() == self.spec_inner() / rhs.spec_inner(),
    {
        proof {
            use_type_invariant(self);
        }
        Self::normalized_wrap(self.0 / rhs.0)
    }

    /// The remainder; the divisor must not be zero.
    pub fn wrapping_rem(self, rhs: Self) -> (r: Self)
        requires
            rhs.spec_inner() != 0,
        ensures
            r.spec_inner() == self.spec_inner() % rhs.spec_inner(),
    {
        proof {
            use_type_invariant(self);
            use_type_invariant(rhs);
        }
        Self::normalized_wrap(self.0 % rhs.0)
    }
}

/// Representation of a voxel's position in local chunk space relative to the `-x, -y, -z`
/// corner of the chunk, by three bounded coordinates.
#[derive(Debug, Clone, Copy, PartialEq, Eq, Hash, Default)]
pub struct VLocalPos {
    pub x: LocalCoord,
    pub y: LocalCoord,
    pub z: LocalCoord,
}

/// The index of local position `(x, y, z)` in a chunk laid out `x` fastest, then `y`, then `z`.
pub open spec fn flat_index_of(x: int, y: int, z: int) -> int {
    x + y * (CHUNK_LENGTH as int) + z * (CHUNK_LENGTH as int) * (CHUNK_LENGTH as int)
}

impl VLocalPos {
    /// Creates a new `VLocalPos`.
    pub fn new(x: LocalCoord, y: LocalCoord, z: LocalCoord) -> (r: Self)
        ensures
            r == (VLocalPos { x, y, z }),
    {
        Self { x, y, z }
    }

    /// The index of the position in a chunk.
    pub open spec fn spec_flat_index(self) -> int {
        flat_index_of(
            self.x.spec_inner() as int,
            self.y.spec_inner() as int,
            self.z.spec_inner() as int,
        )
    }

    /// The index of the position in a chunk: `x + y * 16 + z * 256`.
    pub fn flat_index(&self) -> (r: usize)
        ensures
            r == self.spec_flat_index(),
            r < VOXELS_IN_CHUNK,
    {
        let x = *self.x.inner() as usize;
        let y = *self.y.inner() as usize;
        let z = *self.z.inner() as usize;
        assert(CHUNK_LENGTH == 16);
        x + y * 16 + z * 256
    }
}

/// A voxel's position in global space: the chunk's position and the position within the chunk.
#[derive(Debug, Clone, Copy, PartialEq, Eq, Hash, Default)]
pub struct VGlobalPos {
    pub chunk_pos: ChunkPos,
    pub local_pos: VLocalPos,
}

/// Subtracting what was added gives the coordinate back: `(a + b) - b == a`, wrapped.
pub proof fn law_wrapping_add_sub(a: LocalCoord, b: LocalCoord)
    requires
        a.spec_inner() < CHUNK_LENGTH,
        b.spec_inner() < CHUNK_LENGTH,
    ensures
        ((a.spec_inner() + b.spec_inner()) % (CHUNK_LENGTH as int) - b.spec_inner()) % (
        CHUNK_LENGTH as int) == a.spec_inner(),
{
}

/// The flat index of a local position, split into the bits of a side-`16` cube, gives
/// the position's coordinates back.
pub proof fn law_flat_index_subdivides(pos: VLocalPos)
    requires
        pos.x.spec_inner() < CHUNK_LENGTH,
        pos.y.spec_inner() < CHUNK_LENGTH,
        pos.z.spec_inner() < CHUNK_LENGTH,
    ensures
        crate::utils::subdivided(pos.spec_flat_index(), 4) == (
            pos.x.spec_inner() as int,
            pos.y.spec_inner() as int,
            pos.z.spec_inner() as int,
        ),
{
    vstd::arithmetic::power2::lemma2_to64();
    let x = pos.x.spec_inner() as int;
    let y = pos.y.spec_inner() as int;
    let z = pos.z.spec_inner() as int;
    let i = pos.spec_flat_index();
    assert(i == x + 16 * y + 256 * z);
    vstd::arithmetic::div_mod::lemma_fundamental_div_mod_converse(i, 16, y + 16 * z, x);
    vstd::arithmetic::div_mod::lemma_fundamental_div_mod_converse(y + 16 * z, 16, z, y);
    vstd::arithmetic::div_mod::lemma_fundamental_div_mod_converse(i, 256, z, x + 16 * y);
    vstd::arithmetic::div_mod::lemma_fundamental_div_mod_converse(z, 16, 0, z);
}

} // verus!
