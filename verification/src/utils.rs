//! Index helpers shared by the brick-based storage.
use vstd::prelude::*;

use vstd::arithmetic::power2::{
    lemma2_to64, lemma_pow2_adds, lemma_pow2_pos, lemma_pow2_strictly_increases, pow2,
};
use vstd::bits::{
    lemma_u64_low_bits_mask_is_mod, lemma_u64_pow2_no_overflow, lemma_u64_shl_is_mul,
    lemma_u64_shr_is_div, low_bits_mask,
};

use crate::vec3::U8Vec3;

verus! {

/// The coordinates of cell `index` in a cube of side `2^bits`, `x` varying fastest.
pub open spec fn subdivided(index: int, bits: nat) -> (int, int, int) {
    let side = pow2(bits) as int;
    (index % side, (index / side) % side, (index / (side * side)) % side)
}

/// Splits `index` into the coordinates of a cell in a cube of side `2^BITS`: the low
/// `BITS` bits are `x`, the next `y`, the next `z`.
pub fn subdivide_index<const BITS: u8>(index: usize) -> (r: U8Vec3)
    requires
        BITS < 8,
        index < pow2(3 * BITS as nat),
    ensures
        r.x == subdivided(index as int, BITS as nat).0,
        r.y == subdivided(index as int, BITS as nat).1,
        r.z == subdivided(index as int, BITS as nat).2,
{
    let bits: u64 = BITS as u64;
    let i: u64 = index as u64;
    let one: u64 = 1;
    proof {
        lemma_pow2_pos(bits as nat);
        lemma_pow2_strictly_increases(bits as nat, 8);
        lemma2_to64();
        lemma_u64_pow2_no_overflow(bits as nat);
        lemma_u64_shl_is_mul(one, bits);
        lemma_pow2_adds(bits as nat, bits as nat);
        lemma_pow2_adds(2 * bits as nat, bits as nat);
        lemma_pow2_strictly_increases(3 * bits as nat, 24);
    }
    let side: u64 = one << bits;
    let mask: u64 = side - 1;
    let hi = i >> bits;
    let top = i >> (bits * 2);
    proof {
        assert(low_bits_mask(bits as nat) == pow2(bits as nat) - 1);
        lemma_u64_low_bits_mask_is_mod(i, bits as nat);
        lemma_u64_low_bits_mask_is_mod(hi, bits as nat);
        lemma_u64_low_bits_mask_is_mod(top, bits as nat);
        lemma_u64_shr_is_div(i, bits);
        lemma_u64_shr_is_div(i, (bits * 2) as u64);
        assert(pow2(2 * bits as nat) == pow2(bits as nat) * pow2(bits as nat));
    }
    let x = i & mask;
    let y = hi & mask;
    let z = top & mask;
    U8Vec3 { x: x as u8, y: y as u8, z: z as u8 }
}

} // verus!
