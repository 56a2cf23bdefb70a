//! Bit windows inside `u64` words: the facts on which packed storage rests.
use vstd::prelude::*;

verus! {

/// The mask of the low `n` bits (`n < 64`).
pub open spec fn mask(n: u64) -> u64 {
    ((1u64 << n) - 1u64) as u64
}

/// Two shifted masks over disjoint bit ranges do not overlap.
pub proof fn lemma_masks_disjoint(a1: u64, n1: u64, a2: u64, n2: u64)
    by (bit_vector)
    requires
        n1 < 64,
        n2 < 64,
        a1 + n1 <= 64,
        a2 + n2 <= 64,
        a1 + n1 <= a2 || a2 + n2 <= a1,
    ensures
        ((((1u64 << n1) - 1u64) as u64) << a1) & ((((1u64 << n2) - 1u64) as u64) << a2) == 0,
        ((((1u64 << n2) - 1u64) as u64) << a2) & ((((1u64 << n1) - 1u64) as u64) << a1) == 0,
{
}

/// Overwriting the bits of `m` leaves the bits of a disjoint mask `k` unchanged.
pub proof fn lemma_write_keeps(w: u64, x: u64, m: u64, k: u64)
    by (bit_vector)
    requires
        m & k == 0,
    ensures
        ((w & !m) | (x & m)) & k == w & k,
{
}

/// A read of bits `[lo, lo + n)` depends only on those bits.
pub proof fn lemma_read_local(w: u64, w2: u64, lo: u64, n: u64)
    by (bit_vector)
    requires
        n < 64,
        lo + n <= 64,
        w & ((((1u64 << n) - 1u64) as u64) << lo) == w2 & ((((1u64 << n) - 1u64) as u64) << lo),
    ensures
        (w >> lo) & (((1u64 << n) - 1u64) as u64) == (w2 >> lo) & (((1u64 << n) - 1u64) as u64),
{
}

/// A read that spills from the top of `w0` (bits `[lo, b)`) into the bottom of `w1`
/// (bits `[0, lo + n - b)`) depends only on those bits.
#[verifier::rlimit(100)]
pub proof fn lemma_read_spill_local(w0: u64, v0: u64, w1: u64, v1: u64, lo: u64, n: u64, b: u64)
    by (bit_vector)
    requires
        0 < b <= 64,
        lo < b,
        n < b,
        lo + n > b,
        b == 64 || w0 >> b == 0,
        b == 64 || v0 >> b == 0,
        w0 & ((((1u64 << (b - lo) as u64) - 1u64) as u64) << lo) == v0 & ((((1u64 << (b
            - lo) as u64) - 1u64) as u64) << lo),
        w1 & ((((1u64 << (lo + n - b) as u64) - 1u64) as u64) << 0u64) == v1 & ((((1u64 << (lo
            + n - b) as u64) - 1u64) as u64) << 0u64),
    ensures
        ((w0 >> lo) | (w1 << (b - lo) as u64)) & (((1u64 << n) - 1u64) as u64) == ((v0 >> lo) | (
        v1 << (b - lo) as u64)) & (((1u64 << n) - 1u64) as u64),
{
}

/// Writing `d` into bits `[lo, lo + n)` of a `b`-bit word: the bits read back are `d`'s
/// low `n` bits, and the word stays within `b` bits.
pub proof fn lemma_write_read(w: u64, d: u64, lo: u64, n: u64, b: u64)
    by (bit_vector)
    requires
        0 < b <= 64,
        n < b,
        lo + n <= b,
        b == 64 || w >> b == 0,
    ensures
        ((((w & !((((1u64 << n) - 1u64) as u64) << lo)) | ((d << lo) & ((((1u64 << n)
            - 1u64) as u64) << lo))) >> lo) & (((1u64 << n) - 1u64) as u64)) == d & (((1u64
            << n) - 1u64) as u64),
        b == 64 || ((w & !((((1u64 << n) - 1u64) as u64) << lo)) | ((d << lo) & ((((1u64
            << n) - 1u64) as u64) << lo))) >> b == 0,
{
}

/// Writing `d` across the top bits `[lo, b)` of `w0` and the low bits of `w1`: the
/// spilled read gives back `d`'s low `n` bits, and both words stay within `b` bits.
#[verifier::rlimit(100)]
pub proof fn lemma_write_read_spill(w0: u64, w1: u64, d: u64, lo: u64, n: u64, b: u64)
    by (bit_vector)
    requires
        0 < b <= 64,
        lo < b,
        n < b,
        lo + n > b,
        b == 64 || w0 >> b == 0,
        b == 64 || w1 >> b == 0,
    ensures
        ((((w0 & !((((1u64 << (b - lo) as u64) - 1u64) as u64) << lo)) | ((d << lo) & ((((1u64
            << (b - lo) as u64) - 1u64) as u64) << lo))) >> lo) | (((w1 & !(((1u64 << (lo + n
            - b) as u64) - 1u64) as u64)) | ((d >> (b - lo) as u64) & (((1u64 << (lo + n
            - b) as u64) - 1u64) as u64))) << (b - lo) as u64)) & (((1u64 << n) - 1u64)
            as u64) == d & (((1u64 << n) - 1u64) as u64),
        b == 64 || ((w0 & !((((1u64 << (b - lo) as u64) - 1u64) as u64) << lo)) | ((d << lo)
            & ((((1u64 << (b - lo) as u64) - 1u64) as u64) << lo))) >> b == 0,
        b == 64 || ((w1 & !(((1u64 << (lo + n - b) as u64) - 1u64) as u64)) | ((d >> (b
            - lo) as u64) & (((1u64 << (lo + n - b) as u64) - 1u64) as u64))) >> b == 0,
        (((1u64 << (lo + n - b) as u64) - 1u64) as u64) == ((((1u64 << (lo + n - b) as u64)
            - 1u64) as u64) << 0u64),
{
}

} // verus!

verus! {

/// Reads and writes of an all-zero word give zero.
pub proof fn lemma_zero_word(lo: u64, s: u64, m: u64)
    by (bit_vector)
    ensures
        0u64 >> lo == 0,
        (0u64 >> lo) & m == 0,
        ((0u64 >> lo) | (0u64 << s)) & m == 0,
        0u64 & m == 0,
        m & 0u64 == 0,
{
}

/// A mask of fewer than `b` bits fits in a `b`-bit word.
pub proof fn lemma_mask_fits(n: u64, b: u64)
    by (bit_vector)
    requires
        n < b,
        b <= 64,
    ensures
        b == 64 || (((1u64 << n) - 1u64) as u64) >> b == 0,
{
}

/// Masking with the low `n` bits gives at most the mask, and keeps a value that fits.
pub proof fn lemma_mask_bound(x: u64, n: u64)
    by (bit_vector)
    requires
        n < 64,
    ensures
        x & (((1u64 << n) - 1u64) as u64) <= ((1u64 << n) - 1u64) as u64,
        x <= ((1u64 << n) - 1u64) as u64 ==> x & (((1u64 << n) - 1u64) as u64) == x,
        (x & (((1u64 << n) - 1u64) as u64)) & (((1u64 << n) - 1u64) as u64) == x & (((1u64 << n)
            - 1u64) as u64),
{
}

} // verus!

verus! {

/// A one shifted left by less than the width is positive.
pub proof fn lemma_one_shl(n: u64)
    by (bit_vector)
    requires
        n < 64,
    ensures
        1u64 << n >= 1,
{
}

} // verus!
