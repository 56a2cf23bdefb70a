//! Unsigned integers packed at a chosen bit width into words of a chosen integer type.
use vstd::prelude::*;

pub mod window;

use window::{
    lemma_mask_bound, lemma_mask_fits, lemma_masks_disjoint, lemma_read_local,
    lemma_read_spill_local, lemma_write_keeps, lemma_write_read, lemma_write_read_spill,
    lemma_one_shl, lemma_zero_word, mask,
};

verus! {

/// An unsigned integer type that can serve as the storage word of a [`PackedBits`].
///
/// Packed integers fill at most 64 bits of each word: the whole word for types up to 64
/// bits wide, the low half of a `u128`. A word is handled through the `u64` image of those
/// bits.
pub trait BitSize: Sized + Copy {
    /// The number of bits in the type.
    const BIT_SIZE: usize;

    /// The number of bits of a word that hold packed integers.
    spec fn spec_bit_size() -> nat;

    /// The packed bits of the value, as a `u64`.
    spec fn spec_word(self) -> u64;

    /// The packed part of a word is between 8 and 64 bits wide.
    proof fn lemma_bit_size()
        ensures
            8 <= Self::spec_bit_size() <= 64,
    ;

    /// The image of a value has no bits at or above the packed width.
    proof fn lemma_word_bound(x: Self)
        ensures
            Self::spec_bit_size() == 64 || x.spec_word() >> (Self::spec_bit_size() as u64) == 0,
    ;

    /// The number of bits of a word that hold packed integers.
    fn bit_size() -> (r: usize)
        ensures
            r == Self::spec_bit_size(),
    ;

    /// The packed bits of the value, as a `u64`.
    fn to_word(self) -> (r: u64)
        ensures
            r == self.spec_word(),
    ;

    /// The value of the type whose packed bits are `w` (and whose other bits are zero).
    fn from_word(w: u64) -> (r: Self)
        requires
            Self::spec_bit_size() == 64 || w >> (Self::spec_bit_size() as u64) == 0,
        ensures
            r.spec_word() == w,
    ;
}

impl BitSize for u8 {
    const BIT_SIZE: usize = 8;

    open spec fn spec_bit_size() -> nat {
        8
    }

    open spec fn spec_word(self) -> u64 {
        self as u64
    }

    proof fn lemma_bit_size() {
    }

    proof fn lemma_word_bound(x: Self) {
        assert((x as u64) >> 8u64 == 0) by (bit_vector);
    }

    fn bit_size() -> (r: usize) {
        8
    }

    fn to_word(self) -> (r: u64) {
        self as u64
    }

    fn from_word(w: u64) -> (r: Self) {
        assert(w >> 8u64 == 0 ==> (w as u8) as u64 == w) by (bit_vector);
        w as u8
    }
}

impl BitSize for u16 {
    const BIT_SIZE: usize = 16;

    open spec fn spec_bit_size() -> nat {
        16
    }

    open spec fn spec_word(self) -> u64 {
        self as u64
    }

    proof fn lemma_bit_size() {
    }

    proof fn lemma_word_bound(x: Self) {
        assert((x as u64) >> 16u64 == 0) by (bit_vector);
    }

    fn bit_size() -> (r: usize) {
        16
    }

    fn to_word(self) -> (r: u64) {
        self as u64
    }

    fn from_word(w: u64) -> (r: Self) {
        assert(w >> 16u64 == 0 ==> (w as u16) as u64 == w) by (bit_vector);
        w as u16
    }
}

impl BitSize for u32 {
    const BIT_SIZE: usize = 32;

    open spec fn spec_bit_size() -> nat {
        32
    }

    open spec fn spec_word(self) -> u64 {
        self as u64
    }

    proof fn lemma_bit_size() {
    }

    proof fn lemma_word_bound(x: Self) {
        assert((x as u64) >> 32u64 == 0) by (bit_vector);
    }

    fn bit_size() -> (r: usize) {
        32
    }

    fn to_word(self) -> (r: u64) {
        self as u64
    }

    fn from_word(w: u64) -> (r: Self) {
        assert(w >> 32u64 == 0 ==> (w as u32) as u64 == w) by (bit_vector);
        w as u32
    }
}

impl BitSize for u64 {
    const BIT_SIZE: usize = 64;

    open spec fn spec_bit_size() -> nat {
        64
    }

    open spec fn spec_word(self) -> u64 {
        self
    }

    proof fn lemma_bit_size() {
    }

    proof fn lemma_word_bound(x: Self) {
    }

    fn bit_size() -> (r: usize) {
        64
    }

    fn to_word(self) -> (r: u64) {
        self
    }

    fn from_word(w: u64) -> (r: Self) {
        w
    }
}

/// A `u128` word carries packed integers in its low 64 bits; its high half stays zero, so
/// indices of up to 63 bits can be stored in it.
impl BitSize for u128 {
    const BIT_SIZE: usize = 128;

    open spec fn spec_bit_size() -> nat {
        64
    }

    open spec fn spec_word(self) -> u64 {
        self as u64
    }

    proof fn lemma_bit_size() {
    }

    proof fn lemma_word_bound(x: Self) {
    }

    fn bit_size() -> (r: usize) {
        64
    }

    fn to_word(self) -> (r: u64) {
        self as u64
    }

    fn from_word(w: u64) -> (r: Self) {
        w as u128
    }
}

impl BitSize for usize {
    const BIT_SIZE: usize = usize::BITS as usize;

    open spec fn spec_bit_size() -> nat {
        usize::BITS as nat
    }

    open spec fn spec_word(self) -> u64 {
        self as u64
    }

    proof fn lemma_bit_size() {
    }

    proof fn lemma_word_bound(x: Self) {
        assert(usize::BITS == 64 || (x as u64) >> (usize::BITS as u64) == 0) by (bit_vector);
    }

    fn bit_size() -> (r: usize) {
        usize::BITS as usize
    }

    fn to_word(self) -> (r: u64) {
        self as u64
    }

    fn from_word(w: u64) -> (r: Self) {
        assert(usize::BITS == 64 || w >> (usize::BITS as u64) == 0 ==> (w as usize) as u64 == w)
            by (bit_vector);
        w as usize
    }
}

/// The low `n` bits set.
pub open spec fn low_mask(n: nat) -> u64 {
    mask(n as u64)
}

/// Element `i` of a sequence of `b`-bit words in which every element takes `bp` bits:
/// the bits `[i * bp, (i + 1) * bp)` of the little-endian concatenation of the words.
pub open spec fn packed_elem(words: Seq<u64>, bp: nat, b: nat, i: nat) -> u64 {
    let g = i * bp;
    let v = g / b;
    let lo = g % b;
    if lo + bp <= b {
        (words[v as int] >> (lo as u64)) & low_mask(bp)
    } else {
        ((words[v as int] >> (lo as u64)) | (words[v + 1 as int] << ((b - lo) as u64))) & low_mask(bp)
    }
}

/// The bits of word `k` that the global bit range `[g, g + n)` covers.
pub open spec fn window(g: int, n: int, b: int, k: int) -> u64 {
    let lo = if g - k * b > 0 {
        g - k * b
    } else {
        0
    };
    let hi = if g + n - k * b < b {
        g + n - k * b
    } else {
        b
    };
    if lo < hi {
        mask((hi - lo) as u64) << (lo as u64)
    } else {
        0
    }
}

/// The number of words that hold `total` bits.
pub open spec fn words_for(total: nat, b: nat) -> nat {
    ((total + b - 1) as nat / b) as nat
}

/// A packed array of `count` unsigned integers of `bits_per` bits each, stored in words of `I`.
#[derive(Clone, Debug)]
pub struct PackedBits<I: BitSize> {
    data: Vec<I>,
    bits_per: usize,
    count: usize,
    max_and_mask: I,
}

impl<I: BitSize> View for PackedBits<I> {
    type V = Seq<u64>;

    /// The stored integers, in order.
    closed spec fn view(&self) -> Seq<u64> {
        Seq::new(
            self.count as nat,
            |i: int|
                packed_elem(
                    self.words(),
                    self.bits_per as nat,
                    I::spec_bit_size(),
                    i as nat,
                ),
        )
    }
}

impl<I: BitSize> PackedBits<I> {
    /// The storage words as `u64` values.
    spec fn words(self) -> Seq<u64> {
        word_images(self.data@)
    }

    /// Widths fit the word, the words hold all the bits and the mask holds `bits_per` bits.
    pub closed spec fn wf(&self) -> bool {
        &&& 0 < self.bits_per < I::spec_bit_size()
        &&& self.bits_per * self.count <= usize::MAX
        &&& self.bits_per * self.count + I::spec_bit_size() - 1 <= usize::MAX
        &&& self.data@.len() == words_for(
            (self.bits_per * self.count) as nat,
            I::spec_bit_size(),
        )
        &&& self.max_and_mask.spec_word() == low_mask(self.bits_per as nat)
    }

    /// The number of bits per stored integer.
    pub closed spec fn spec_bits_per(&self) -> nat {
        self.bits_per as nat
    }

    /// Whether `bits_per` integers of `count` are storable in words of `I`:
    /// `0 < bits_per <` the packed width of `I`, and the total bit count (rounded up to a word) fits a `usize`.
    pub open spec fn valid_shape(bits_per: nat, count: nat) -> bool {
        &&& 0 < bits_per < I::spec_bit_size()
        &&& bits_per * count + I::spec_bit_size() - 1 <= usize::MAX
    }

    /// The shape of `self` is valid and every stored integer fits in `bits_per` bits.
    pub proof fn lemma_shape(&self)
        requires
            self.wf(),
        ensures
            Self::valid_shape(self.spec_bits_per(), self@.len()),
            self.spec_bits_per() < 64,
            forall|i: int| 0 <= i < self@.len() ==> #[trigger] self@[i] <= low_mask(self.spec_bits_per()),
            forall|i: int|
                0 <= i < self@.len() ==> #[trigger] (self@[i] & low_mask(self.spec_bits_per()))
                    == self@[i],
    {
        I::lemma_bit_size();
        assert forall|i: int| 0 <= i < self@.len() implies #[trigger] self@[i] <= low_mask(
            self.spec_bits_per(),
        ) && (self@[i] & low_mask(self.spec_bits_per())) == self@[i] by {
            let g = i as nat * self.bits_per as nat;
            let b = I::spec_bit_size();
            let lo = g % b;
            let w = self.words();
            let raw = if lo + self.bits_per <= b {
                w[(g / b) as int] >> (lo as u64)
            } else {
                (w[(g / b) as int] >> (lo as u64)) | (w[((g / b) + 1) as int] << ((b - lo) as u64))
            };
            lemma_mask_bound(raw, self.bits_per as u64);
            lemma_mask_bound(self@[i], self.bits_per as u64);
        }
    }

    /// The number of bits per stored integer.
    pub fn bits_per(&self) -> (r: usize)
        requires
            self.wf(),
        ensures
            r == self.spec_bits_per(),
    {
        self.bits_per
    }

    /// The number of stored integers.
    pub fn count(&self) -> (r: usize)
        requires
            self.wf(),
        ensures
            r == self@.len(),
    {
        self.count
    }

    /// Creates `count` integers of `bits_per` bits, all zero.
    ///
    /// `bits_per` must be positive and below the packed width of `I`, and `bits_per * count`
    /// (rounded up to whole words) must fit a `usize`.
    pub fn new(bits_per: usize, count: usize) -> (r: Self)
        requires
            Self::valid_shape(bits_per as nat, count as nat),
        ensures
            r.wf(),
            r.spec_bits_per() == bits_per,
            r@ == Seq::new(count as nat, |i: int| 0u64),
    {
        let b = I::bit_size();
        proof {
            I::lemma_bit_size();
            lemma_mul_nonneg(bits_per as int, count as int);
        }
        let total_bits = bits_per * count;
        let data_len = (total_bits + (b - 1)) / b;
        let mut data: Vec<I> = Vec::new();
        proof {
            lemma_zero_word(b as u64, 0, 0);
        }
        let zero = I::from_word(0);
        while data.len() < data_len
            invariant
                data.len() <= data_len,
                zero.spec_word() == 0,
                forall|k: int| 0 <= k < data.len() ==> #[trigger] data@[k].spec_word() == 0,
            decreases data_len - data.len(),
        {
            data.push(zero);
        }
        proof {
            lemma_mask_fits(bits_per as u64, b as u64);
            lemma_one_shl(bits_per as u64);
        }
        let max_and_mask = I::from_word(((1u64 << bits_per as u64) - 1) as u64);
        let r = Self { data, bits_per, count, max_and_mask };
        proof {
            assert forall|i: int| 0 <= i < count implies #[trigger] r@[i] == 0u64 by {
                let g = i as nat * bits_per as nat;
                lemma_mul_le(i as nat + 1, count as nat, bits_per as nat);
                lemma_mul_succ(i as int, bits_per as int);
                lemma_words_for(total_bits as nat, b as nat);
                lemma_word_index(g, bits_per as nat, b as nat, total_bits as nat, data_len as nat);
                let lo = g % (b as nat);
                lemma_zero_word(lo as u64, (b - lo) as u64, low_mask(bits_per as nat));
            }
            assert(r@ =~= Seq::new(count as nat, |i: int| 0u64));
        }
        r
    }

    /// The integer at `index`, for `index < self.count()`.
    pub fn get_unchecked(&self, index: usize) -> (r: I)
        requires
            self.wf(),
            index < self@.len(),
        ensures
            r.spec_word() == self@[index as int],
    {
        proof {
            I::lemma_bit_size();
        }
        let (v, lo, b) = self.locate(index);
        let word = self.data[v].to_word();
        let mut value = word >> lo as u64;
        let bits_to_end = b - lo;
        if self.bits_per > bits_to_end {
            let next_word = self.data[v + 1].to_word();
            value = value | (next_word << bits_to_end as u64);
        }
        let r = value & self.max_and_mask.to_word();
        proof {
            I::lemma_bit_size();
            lemma_fits_after_mask(value, self.bits_per as u64, b as u64);
        }
        I::from_word(r)
    }

    /// The integer at `index`.
    ///
    /// `index` must be below `self.count()`.
    pub fn get(&self, index: usize) -> (r: I)
        requires
            self.wf(),
            index < self@.len(),
        ensures
            r.spec_word() == self@[index as int],
    {
        self.get_unchecked(index)
    }

    /// Word index, bit offset inside the word, and word width of element `index`.
    fn locate(&self, index: usize) -> (r: (usize, usize, usize))
        requires
            index < self@.len(),
            self.wf(),
        ensures
            r.2 == I::spec_bit_size(),
            r.0 * r.2 + r.1 == index * self.bits_per,
            r.0 == (index * self.bits_per) as nat / (r.2 as nat),
            r.1 == (index * self.bits_per) as nat % (r.2 as nat),
            r.1 < r.2,
            r.0 < self.data@.len(),
            r.1 + self.bits_per > r.2 ==> r.0 + 1 < self.data@.len(),
    {
        let b = I::bit_size();
        proof {
            I::lemma_bit_size();
            lemma_words_for((self.bits_per * self.count) as nat, I::spec_bit_size());
            lemma_mul_le((index + 1) as nat, self.count as nat, self.bits_per as nat);
            lemma_mul_succ(index as int, self.bits_per as int);
            lemma_mul_nonneg(index as int, self.bits_per as int);
            lemma_word_index(
                (index * self.bits_per) as nat,
                self.bits_per as nat,
                b as nat,
                (self.bits_per * self.count) as nat,
                self.data@.len(),
            );
        }
        let global_index = index * self.bits_per;
        (global_index / b, global_index % b, b)
    }

    /// Stores the low `bits_per` bits of `data` at `index`, for `index < self.count()`.
    pub fn set_unchecked(&mut self, index: usize, data: I)
        requires
            old(self).wf(),
            index < old(self)@.len(),
        ensures
            final(self).wf(),
            final(self)@ == old(self)@.update(index as int, data.spec_word() & low_mask(
                old(self).spec_bits_per(),
            )),
            final(self).spec_bits_per() == old(self).spec_bits_per(),
    {
        proof {
            I::lemma_bit_size();
        }
        let ghost old_words = self.words();
        proof {
            lemma_words_bounded(self.data@);
            lemma_words_for((self.bits_per * self.count) as nat, I::spec_bit_size());
        }
        let (v, lo, b) = self.locate(index);
        let bits_to_end = b - lo;
        let d = data.to_word();
        let w0 = self.data[v].to_word();
        proof {
            I::lemma_word_bound(self.data@[v as int]);
        }
        if self.bits_per > bits_to_end {
            let spill = self.bits_per - bits_to_end;
            let w1 = self.data[v + 1].to_word();
            proof {
                lemma_one_shl(bits_to_end as u64);
                lemma_one_shl(spill as u64);
                I::lemma_word_bound(self.data@[v + 1]);
                lemma_write_read_spill(w0, w1, d, lo as u64, self.bits_per as u64, b as u64);
            }
            let mask0 = (((1u64 << bits_to_end as u64) - 1) as u64) << lo as u64;
            let new0 = (w0 & !mask0) | ((d << lo as u64) & mask0);
            let mask1 = ((1u64 << spill as u64) - 1) as u64;
            let new1 = (w1 & !mask1) | ((d >> bits_to_end as u64) & mask1);
            self.data.set(v, I::from_word(new0));
            self.data.set(v + 1, I::from_word(new1));
            proof {
                let g = index as nat * self.bits_per as nat;
                assert(self.words() =~= old_words.update(v as int, new0).update(v + 1, new1));
                lemma_words_bounded(self.data@);
                lemma_window_at(g as int, self.bits_per as int, b as int, v as int, lo as int);
                Self::lemma_set_words(
                    old_words,
                    self.words(),
                    self.bits_per as nat,
                    b as nat,
                    self.count as nat,
                    index as nat,
                    mask0,
                    mask1,
                    d << lo as u64,
                    d >> bits_to_end as u64,
                    true,
                );
            }
        } else {
            let mask0 = self.max_and_mask.to_word() << lo as u64;
            let new0 = (w0 & !mask0) | ((d << lo as u64) & mask0);
            proof {
                lemma_write_read(w0, d, lo as u64, self.bits_per as u64, b as u64);
            }
            self.data.set(v, I::from_word(new0));
            proof {
                let g = index as nat * self.bits_per as nat;
                assert(self.words() =~= old_words.update(v as int, new0));
                lemma_words_bounded(self.data@);
                lemma_window_at(g as int, self.bits_per as int, b as int, v as int, lo as int);
                Self::lemma_set_words(
                    old_words,
                    self.words(),
                    self.bits_per as nat,
                    b as nat,
                    self.count as nat,
                    index as nat,
                    mask0,
                    0,
                    d << lo as u64,
                    0,
                    false,
                );
            }
        }
        proof {
            assert(self@ =~= old(self)@.update(
                index as int,
                data.spec_word() & low_mask(old(self).spec_bits_per()),
            ));
        }
    }

    /// Stores the low `bits_per` bits of `data` at `index`.
    ///
    /// `index` must be below `self.count()`.
    pub fn set(&mut self, index: usize, data: I)
        requires
            old(self).wf(),
            index < old(self)@.len(),
        ensures
            final(self).wf(),
            final(self)@ == old(self)@.update(index as int, data.spec_word() & low_mask(
                old(self).spec_bits_per(),
            )),
            final(self).spec_bits_per() == old(self).spec_bits_per(),
    {
        self.set_unchecked(index, data);
    }

    /// After a write of element `index` that changed only its windows, element `index`
    /// reads back the written bits and every other element is unchanged.
    proof fn lemma_set_words(
        old_words: Seq<u64>,
        new_words: Seq<u64>,
        bp: nat,
        b: nat,
        count: nat,
        index: nat,
        mask0: u64,
        mask1: u64,
        x0: u64,
        x1: u64,
        spill: bool,
    )
        requires
            8 <= b <= 64,
            0 < bp < b,
            index < count,
            old_words.len() == new_words.len(),
            old_words.len() * b >= bp * count,
            forall|k: int| 0 <= k < old_words.len() ==> (b == 64 || #[trigger] old_words[k] >> (b as u64) == 0),
            forall|k: int| 0 <= k < new_words.len() ==> (b == 64 || #[trigger] new_words[k] >> (b as u64) == 0),
            ({
                let g = index * bp;
                let v = (g / b) as int;
                let lo = g % b;
                &&& spill == (lo + bp > b)
                &&& mask0 == window(g as int, bp as int, b as int, v)
                &&& spill ==> mask1 == window(g as int, bp as int, b as int, v + 1)
                &&& v < old_words.len()
                &&& spill ==> v + 1 < old_words.len()
                &&& forall|k: int|
                    0 <= k < old_words.len() && k != v && !(spill && k == v + 1) ==> new_words[k]
                        == old_words[k]
                &&& new_words[v] == ((old_words[v] & !mask0) | (x0 & mask0))
                &&& spill ==> new_words[v + 1] == ((old_words[v + 1] & !mask1) | (x1 & mask1))
            }),
        ensures
            forall|j: nat|
                j < count && j != index ==> #[trigger] packed_elem(new_words, bp, b, j)
                    == packed_elem(old_words, bp, b, j),
    {
        let g = index * bp;
        let v = (g / b) as int;
        assert forall|j: nat| j < count && j != index implies #[trigger] packed_elem(
            new_words,
            bp,
            b,
            j,
        ) == packed_elem(old_words, bp, b, j) by {
            let gj = j * bp;
            if j < index {
                lemma_mul_le(j + 1, index, bp);
                lemma_mul_succ(j as int, bp as int);
            } else {
                lemma_mul_le(index + 1, j, bp);
                lemma_mul_succ(index as int, bp as int);
            }
            lemma_mul_le(j + 1, count, bp);
            lemma_mul_succ(j as int, bp as int);
            lemma_word_index(gj, bp, b, bp * count, old_words.len());
            let vj = (gj / b) as int;
            assert forall|k: int| 0 <= k < old_words.len() implies #[trigger] (new_words[k]
                & window(gj as int, bp as int, b as int, k)) == (old_words[k] & window(
                gj as int,
                bp as int,
                b as int,
                k,
            )) by {
                if k == v {
                    let x = x0;
                    if j < index {
                        lemma_windows_disjoint(gj as int, bp as int, g as int, bp as int, b as int, k);
                    } else {
                        lemma_windows_disjoint(g as int, bp as int, gj as int, bp as int, b as int, k);
                    }
                    lemma_write_keeps(old_words[v], x, mask0, window(gj as int, bp as int, b as int, k));
                } else if spill && k == v + 1 {
                    let x = x1;
                    if j < index {
                        lemma_windows_disjoint(gj as int, bp as int, g as int, bp as int, b as int, k);
                    } else {
                        lemma_windows_disjoint(g as int, bp as int, gj as int, bp as int, b as int, k);
                    }
                    lemma_write_keeps(
                        old_words[v + 1],
                        x,
                        mask1,
                        window(gj as int, bp as int, b as int, k),
                    );
                }
            }
            lemma_elem_local(new_words, old_words, bp, b, j);
        }
    }

    /// The stored integers, in order.
    pub fn iter(&self) -> (r: Vec<I>)
        requires
            self.wf(),
        ensures
            r@.len() == self@.len(),
            forall|i: int| 0 <= i < r@.len() ==> #[trigger] r@[i].spec_word() == self@[i],
    {
        let mut r: Vec<I> = Vec::new();
        let mut idx: usize = 0;
        while idx < self.count
            invariant
                self.wf(),
                idx <= self@.len(),
                self.count == self@.len(),
                r@.len() == idx,
                forall|i: int| 0 <= i < r@.len() ==> #[trigger] r@[i].spec_word() == self@[i],
            decreases self.count - idx,
        {
            r.push(self.get_unchecked(idx));
            idx = idx + 1;
        }
        r
    }

    /// Changes the width of every integer to `bits_per`, keeping the low `bits_per` bits of each.
    ///
    /// The new shape must be valid (see [`PackedBits::new`]).
    pub fn set_bits_per(&mut self, bits_per: usize)
        requires
            old(self).wf(),
            Self::valid_shape(bits_per as nat, old(self)@.len()),
        ensures
            final(self).wf(),
            final(self).spec_bits_per() == bits_per,
            final(self)@ == Seq::new(
                old(self)@.len(),
                |i: int| old(self)@[i] & low_mask(bits_per as nat),
            ),
    {
        let mut new_self = Self::new(bits_per, self.count);
        let mut idx: usize = 0;
        while idx < self.count
            invariant
                idx <= self@.len(),
                self.count == self@.len(),
                new_self@.len() == self@.len(),
                new_self.spec_bits_per() == bits_per,
                new_self.wf(),
                self.wf(),
                forall|i: int|
                    0 <= i < idx ==> #[trigger] new_self@[i] == self@[i] & low_mask(
                        bits_per as nat,
                    ),
            decreases self.count - idx,
        {
            let val = self.get_unchecked(idx);
            new_self.set(idx, val);
            idx = idx + 1;
        }
        proof {
            assert(new_self@ =~= Seq::new(
                self@.len(),
                |i: int| self@[i] & low_mask(bits_per as nat),
            ));
        }
        *self = new_self;
    }

    /// Widens every integer by `amount` bits.
    ///
    /// The new width must stay below the packed width of `I`, and the new shape must be valid.
    pub fn increase_bits_per(&mut self, amount: usize)
        requires
            old(self).wf(),
            old(self).spec_bits_per() + amount <= usize::MAX,
            Self::valid_shape((old(self).spec_bits_per() + amount) as nat, old(self)@.len()),
        ensures
            final(self).wf(),
            final(self).spec_bits_per() == old(self).spec_bits_per() + amount,
            final(self)@ == old(self)@,
    {
        proof {
            self.lemma_shape();
            I::lemma_bit_size();
        }
        let bits_per = self.bits_per + amount;
        self.set_bits_per(bits_per);
        proof {
            assert forall|i: int| 0 <= i < self@.len() implies #[trigger] self@[i] == old(self)@[i] by {
                lemma_mask_widen(old(self)@[i], old(self).spec_bits_per() as u64, bits_per as u64);
            }
            assert(self@ =~= old(self)@);
        }
    }

    /// Widens every integer by one bit.
    pub fn increment(&mut self)
        requires
            old(self).wf(),
            Self::valid_shape((old(self).spec_bits_per() + 1) as nat, old(self)@.len()),
        ensures
            final(self).wf(),
            final(self).spec_bits_per() == old(self).spec_bits_per() + 1,
            final(self)@ == old(self)@,
    {
        proof {
            self.lemma_shape();
        }
        self.increase_bits_per(1);
    }

    /// Narrows every integer by `amount` bits.
    ///
    /// The width must stay positive, and every stored integer must fit the narrower width.
    pub fn decrease_bits_per(&mut self, amount: usize)
        requires
            old(self).wf(),
            amount < old(self).spec_bits_per(),
            forall|i: int|
                0 <= i < old(self)@.len() ==> #[trigger] old(self)@[i] <= low_mask(
                    (old(self).spec_bits_per() - amount) as nat,
                ),
        ensures
            final(self).wf(),
            final(self).spec_bits_per() == old(self).spec_bits_per() - amount,
            final(self)@ == old(self)@,
    {
        proof {
            self.lemma_shape();
            lemma_mul_le((self.bits_per - amount) as nat, self.bits_per as nat, self.count as nat);
            lemma_mul_is_commutative(self.bits_per as int - amount as int, self.count as int);
            lemma_mul_is_commutative(self.bits_per as int, self.count as int);
        }
        let bits_per = self.bits_per - amount;
        self.set_bits_per(bits_per);
        proof {
            assert forall|i: int| 0 <= i < self@.len() implies #[trigger] self@[i] == old(self)@[i] by {
                lemma_mask_bound(old(self)@[i], bits_per as u64);
            }
            assert(self@ =~= old(self)@);
        }
    }

    /// Narrows every integer by one bit.
    pub fn decrement(&mut self)
        requires
            old(self).wf(),
            1 < old(self).spec_bits_per(),
            forall|i: int|
                0 <= i < old(self)@.len() ==> #[trigger] old(self)@[i] <= low_mask(
                    (old(self).spec_bits_per() - 1) as nat,
                ),
        ensures
            final(self).wf(),
            final(self).spec_bits_per() == old(self).spec_bits_per() - 1,
            final(self)@ == old(self)@,
    {
        self.decrease_bits_per(1)
    }
}

/// The `u64` images of a sequence of words.
pub open spec fn word_images<I: BitSize>(data: Seq<I>) -> Seq<u64> {
    data.map_values(|w: I| w.spec_word())
}

/// The `u64` images of a sequence of words all fit the word width.
proof fn lemma_words_bounded<I: BitSize>(data: Seq<I>)
    ensures
        word_images(data).len() == data.len(),
        forall|k: int|
            0 <= k < data.len() ==> (I::spec_bit_size() == 64 || #[trigger] word_images(data)[k]
                >> (I::spec_bit_size() as u64) == 0),
{
    assert forall|k: int| 0 <= k < data.len() implies (I::spec_bit_size() == 64 || #[trigger] word_images(
        data,
    )[k] >> (I::spec_bit_size() as u64) == 0) by {
        I::lemma_word_bound(data[k]);
    }
}

/// The words that hold `total` bits hold at least `total` bits.
proof fn lemma_words_for(total: nat, b: nat)
    requires
        b > 0,
    ensures
        words_for(total, b) * b >= total,
{
    let q = words_for(total, b);
    let t = (total + b - 1) as nat;
    assert(q * b + t % b == t && t % b < b) by (nonlinear_arith)
        requires
            q == t / b,
            b > 0,
    ;
}

/// Masking to fewer than `b` bits leaves a value that fits a `b`-bit word.
proof fn lemma_fits_after_mask(x: u64, n: u64, b: u64)
    requires
        n < b <= 64,
    ensures
        b == 64 || (x & (((1u64 << n) - 1u64) as u64)) >> b == 0,
{
    assert(n < b <= 64 ==> b == 64 || (x & (((1u64 << n) - 1u64) as u64)) >> b == 0) by (bit_vector);
}

/// Widening a mask keeps the value of a number that fitted the narrower mask.
proof fn lemma_mask_widen(x: u64, n: u64, m: u64)
    requires
        n <= m < 64,
        x & (((1u64 << n) - 1u64) as u64) == x,
    ensures
        x & (((1u64 << m) - 1u64) as u64) == x,
{
    assert(n <= m < 64 && x & (((1u64 << n) - 1u64) as u64) == x ==> x & (((1u64 << m) - 1u64)
        as u64) == x) by (bit_vector);
}

proof fn lemma_mul_nonneg(a: int, b: int)
    requires
        a >= 0,
        b >= 0,
    ensures
        a * b >= 0,
{
    assert(a * b >= 0) by (nonlinear_arith)
        requires
            a >= 0,
            b >= 0,
    ;
}

proof fn lemma_mul_le(a: nat, b: nat, c: nat)
    requires
        a <= b,
    ensures
        a * c <= b * c,
        c * a <= c * b,
        a * c == c * a,
        b * c == c * b,
{
    assert(a * c <= b * c) by (nonlinear_arith)
        requires
            a <= b,
    ;
    assert(a * c == c * a && b * c == c * b) by (nonlinear_arith);
}

proof fn lemma_mul_succ(a: int, b: int)
    ensures
        (a + 1) * b == a * b + b,
        b * (a + 1) == b * a + b,
{
    assert((a + 1) * b == a * b + b && b * (a + 1) == b * a + b) by (nonlinear_arith);
}

proof fn lemma_mul_is_commutative(a: int, b: int)
    ensures
        a * b == b * a,
{
    assert(a * b == b * a) by (nonlinear_arith);
}

/// Where the bit `g` lies: word `g / b` at offset `g % b`; an element of `bp` bits that
/// ends within `total` bits lies within the words that hold `total` bits.
proof fn lemma_word_index(g: nat, bp: nat, b: nat, total: nat, len: nat)
    requires
        0 < bp < b,
        g + bp <= total,
        len * b >= total,
    ensures
        (g / b) * b + g % b == g,
        g % b < b,
        g / b < len,
        g % b + bp > b ==> g / b + 1 < len,
{
    let v = g / b;
    let lo = g % b;
    assert(v * b + lo == g && lo < b) by (nonlinear_arith)
        requires
            v == g / b,
            lo == g % b,
            b > 0,
    ;
    if v >= len {
        assert(v * b >= len * b) by (nonlinear_arith)
            requires
                v >= len,
                b > 0,
        ;
    }
    if lo + bp > b && v + 1 >= len {
        assert((v + 1) * b >= len * b) by (nonlinear_arith)
            requires
                v + 1 >= len,
                b > 0,
        ;
        assert((v + 1) * b == v * b + b) by (nonlinear_arith);
    }
}

/// The windows of element `g` in its first word and, when it spills, in the next word.
proof fn lemma_window_at(g: int, bp: int, b: int, v: int, lo: int)
    requires
        0 < bp < b <= 64,
        0 <= lo < b,
        v >= 0,
        g == v * b + lo,
    ensures
        lo + bp <= b ==> window(g, bp, b, v) == mask(bp as u64) << (lo as u64),
        lo + bp > b ==> window(g, bp, b, v) == mask((b - lo) as u64) << (lo as u64),
        lo + bp > b ==> window(g, bp, b, v + 1) == mask((lo + bp - b) as u64) << 0u64,
{
    assert((v + 1) * b == v * b + b) by (nonlinear_arith);
}

/// The windows of two disjoint bit ranges do not overlap.
proof fn lemma_windows_disjoint(g1: int, n1: int, g2: int, n2: int, b: int, k: int)
    requires
        0 < n1 < b,
        0 < n2 < b,
        b <= 64,
        0 <= g1,
        g1 + n1 <= g2,
    ensures
        window(g1, n1, b, k) & window(g2, n2, b, k) == 0,
        window(g2, n2, b, k) & window(g1, n1, b, k) == 0,
{
    let kb = k * b;
    let lo1 = if g1 - kb > 0 {
        g1 - kb
    } else {
        0
    };
    let hi1 = if g1 + n1 - kb < b {
        g1 + n1 - kb
    } else {
        b
    };
    let lo2 = if g2 - kb > 0 {
        g2 - kb
    } else {
        0
    };
    let hi2 = if g2 + n2 - kb < b {
        g2 + n2 - kb
    } else {
        b
    };
    if lo1 < hi1 && lo2 < hi2 {
        lemma_masks_disjoint(
            lo1 as u64,
            (hi1 - lo1) as u64,
            lo2 as u64,
            (hi2 - lo2) as u64,
        );
    } else {
        lemma_zero_word(0, 0, window(g1, n1, b, k));
        lemma_zero_word(0, 0, window(g2, n2, b, k));
    }
}

/// An element's value depends only on the bits of its windows.
proof fn lemma_elem_local(w1: Seq<u64>, w2: Seq<u64>, bp: nat, b: nat, j: nat)
    requires
        8 <= b <= 64,
        0 < bp < b,
        w1.len() == w2.len(),
        (j * bp) / b < w1.len(),
        (j * bp) % b + bp > b ==> (j * bp) / b + 1 < w1.len(),
        forall|k: int| 0 <= k < w1.len() ==> (b == 64 || #[trigger] w1[k] >> (b as u64) == 0),
        forall|k: int| 0 <= k < w2.len() ==> (b == 64 || #[trigger] w2[k] >> (b as u64) == 0),
        forall|k: int|
            0 <= k < w1.len() ==> #[trigger] (w1[k] & window((j * bp) as int, bp as int, b as int, k))
                == (w2[k] & window((j * bp) as int, bp as int, b as int, k)),
    ensures
        packed_elem(w1, bp, b, j) == packed_elem(w2, bp, b, j),
{
    let g = j * bp;
    let v = g / b;
    let lo = g % b;
    assert(v * b + lo == g && lo < b) by (nonlinear_arith)
        requires
            v == g / b,
            lo == g % b,
            b > 0,
    ;
    lemma_window_at(g as int, bp as int, b as int, v as int, lo as int);
    assert(w1[v as int] & window(g as int, bp as int, b as int, v as int) == w2[v as int] & window(
        g as int,
        bp as int,
        b as int,
        v as int,
    ));
    if lo + bp <= b {
        lemma_read_local(w1[v as int], w2[v as int], lo as u64, bp as u64);
    } else {
        assert(w1[v + 1 as int] & window(g as int, bp as int, b as int, v + 1 as int) == w2[v + 1 as int] & window(
            g as int,
            bp as int,
            b as int,
            v + 1 as int,
        ));
        lemma_read_spill_local(
            w1[v as int],
            w2[v as int],
            w1[v + 1 as int],
            w2[v + 1 as int],
            lo as u64,
            bp as u64,
            b as u64,
        );
    }
}

/// After `set(index, data)`, element `index` reads the low `bits_per` bits of `data` and
/// every other element reads as before.
pub proof fn law_read_after_write<I: BitSize>(
    before: PackedBits<I>,
    after: PackedBits<I>,
    index: int,
    other: int,
    data: I,
)
    requires
        before.wf(),
        0 <= index < before@.len(),
        after@ == before@.update(index, data.spec_word() & low_mask(before.spec_bits_per())),
    ensures
        after@[index] == data.spec_word() & low_mask(before.spec_bits_per()),
        0 <= other < before@.len() && other != index ==> after@[other] == before@[other],
        after@.len() == before@.len(),
{
}

/// One call of a mutator of [`PackedBits`] on a well-formed value, as the contracts
/// describe it: `set` (or `set_unchecked`) replaces one stored integer; `set_bits_per`
/// masks every stored integer to the new width; `increase_bits_per`, `decrease_bits_per`,
/// `increment` and `decrement` change the width and keep every stored integer.
pub open spec fn packed_step<I: BitSize>(before: PackedBits<I>, after: PackedBits<I>) -> bool {
    &&& before.wf()
    &&& after.wf()
    &&& {
        ||| (exists|index: int, w: u64|
            0 <= index < before@.len() && after@ == #[trigger] before@.update(index, w))
            && after.spec_bits_per() == before.spec_bits_per()
        ||| after@ == Seq::new(
            before@.len(),
            |i: int| before@[i] & low_mask(after.spec_bits_per()),
        )
        ||| after@ == before@
    }
}

/// However many mutator calls follow one another, the number of stored integers stays the
/// one the value was made with.
pub proof fn law_count_never_changes<I: BitSize>(states: Seq<PackedBits<I>>)
    requires
        states.len() > 0,
        forall|i: int| 0 <= i < states.len() - 1 ==> packed_step(#[trigger] states[i], states[i + 1]),
    ensures
        forall|i: int| 0 <= i < states.len() ==> #[trigger] states[i]@.len() == states[0]@.len(),
    decreases states.len(),
{
    if states.len() > 1 {
        let prefix = states.drop_last();
        assert forall|i: int| 0 <= i < prefix.len() - 1 implies packed_step(
            #[trigger] prefix[i],
            prefix[i + 1],
        ) by {
            assert(packed_step(states[i], states[i + 1]));
        }
        law_count_never_changes(prefix);
        let k = states.len() - 2;
        assert(packed_step(states[k], states[k + 1]));
        assert(prefix[k] == states[k]);
        assert forall|i: int| 0 <= i < states.len() implies #[trigger] states[i]@.len()
            == states[0]@.len() by {
            if i < states.len() - 1 {
                assert(prefix[i] == states[i]);
            }
        }
    }
}

} // verus!
