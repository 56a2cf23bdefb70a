//! Pallets: sorted lists of distinct items, each with the number of times it is used.
use vstd::prelude::*;

use vstd::arithmetic::power2::{lemma_pow2_strictly_increases, lemma_pow2_unfold, pow2};
use vstd::bits::{lemma_u64_pow2_no_overflow, lemma_u64_shl_is_mul};

use crate::bits::low_mask;

verus! {

broadcast use vstd::seq_lib::group_seq_properties;

/// A variant's count would pass `u16::MAX`.
#[derive(Debug, Clone, Copy, PartialEq, Eq)]
pub struct CountOverflow;

/// A variant's count would drop below `0`.
#[derive(Debug, Clone, Copy, PartialEq, Eq)]
pub struct CountUnderflow;

/// An item that a [`Pallet`] can hold: items are ordered by an integer key, and the key
/// tells items apart.
pub trait PalletItem: Copy {
    /// The key by which items are ordered.
    spec fn spec_key(self) -> int;

    /// The key by which items are ordered.
    fn key(&self) -> (r: u64)
        ensures
            r == self.spec_key(),
    ;

    /// Items with equal keys are equal.
    proof fn lemma_key_injective(a: Self, b: Self)
        requires
            a.spec_key() == b.spec_key(),
        ensures
            a == b,
    ;
}

/// Unsigned integers are ordered and told apart by their value.
impl PalletItem for u8 {
    open spec fn spec_key(self) -> int {
        self as int
    }

    fn key(&self) -> (r: u64) {
        *self as u64
    }

    proof fn lemma_key_injective(a: Self, b: Self) {
    }
}

impl PalletItem for u16 {
    open spec fn spec_key(self) -> int {
        self as int
    }

    fn key(&self) -> (r: u64) {
        *self as u64
    }

    proof fn lemma_key_injective(a: Self, b: Self) {
    }
}

impl PalletItem for u32 {
    open spec fn spec_key(self) -> int {
        self as int
    }

    fn key(&self) -> (r: u64) {
        *self as u64
    }

    proof fn lemma_key_injective(a: Self, b: Self) {
    }
}

impl PalletItem for u64 {
    open spec fn spec_key(self) -> int {
        self as int
    }

    fn key(&self) -> (r: u64) {
        *self
    }

    proof fn lemma_key_injective(a: Self, b: Self) {
    }
}

/// A data piece in a [`Pallet`] that stores both its `inner` data and its `count`.
#[derive(Debug, Clone, Copy, PartialEq, Eq)]
pub struct Variant<T> {
    inner: T,
    pub count: u16,
}

impl<T: Copy> Variant<T> {
    /// The `inner` data.
    pub closed spec fn spec_inner(self) -> T {
        self.inner
    }

    /// The `count`.
    pub closed spec fn spec_count(self) -> u16 {
        self.count
    }

    /// Creates a new `Variant`.
    pub fn new(inner: T, count: u16) -> (r: Self)
        ensures
            r.spec_inner() == inner,
            r.spec_count() == count,
    {
        Self { inner, count }
    }

    /// The `inner` data.
    pub fn inner(&self) -> (r: T)
        ensures
            r == self.spec_inner(),
    {
        self.inner
    }

    /// Increases `count` by `1`; `Err(CountOverflow)`, with nothing changed, when `count` is
    /// `u16::MAX`.
    pub fn increment(&mut self) -> (r: Result<(), CountOverflow>)
        ensures
            final(self).spec_inner() == old(self).spec_inner(),
            r is Ok <==> old(self).spec_count() < u16::MAX,
            r is Ok ==> final(self).spec_count() == old(self).spec_count() + 1,
            r is Err ==> final(self).spec_count() == old(self).spec_count(),
    {
        match self.count.checked_add(1) {
            Some(c) => {
                self.count = c;
                Ok(())
            },
            None => Err(CountOverflow),
        }
    }

    /// Decreases `count` by `1`; `Err(CountUnderflow)`, with nothing changed, when `count` is `0`.
    pub fn decrement(&mut self) -> (r: Result<(), CountUnderflow>)
        ensures
            final(self).spec_inner() == old(self).spec_inner(),
            r is Ok <==> old(self).spec_count() > 0,
            r is Ok ==> final(self).spec_count() == old(self).spec_count() - 1,
            r is Err ==> final(self).spec_count() == old(self).spec_count(),
    {
        match self.count.checked_sub(1) {
            Some(c) => {
                self.count = c;
                Ok(())
            },
            None => Err(CountUnderflow),
        }
    }
}

/// Either `Gotten(index)` or `Inserted(index)`.
#[derive(Debug, Clone, Copy, PartialEq, Eq)]
pub enum GetOrInsertResult {
    Gotten(usize),
    Inserted(usize),
}

/// The key of a variant's data.
pub open spec fn vkey<T: PalletItem>(v: Variant<T>) -> int {
    v.spec_inner().spec_key()
}

/// Where bisecting `s[lo..hi]` for `key` ends: halve at `mid = lo + (hi - lo) / 2`,
/// answering `Ok(mid)` on a variant with that key and `Err(lo)` once the range is empty. It
/// depends on the variants' keys and on `key` alone.
pub open spec fn bisect<T: PalletItem>(s: Seq<Variant<T>>, key: int, lo: int, hi: int) -> Result<
    usize,
    usize,
>
    decreases hi - lo,
{
    if lo < hi {
        let mid = lo + (hi - lo) / 2;
        if vkey(s[mid]) < key {
            bisect(s, key, mid + 1, hi)
        } else if vkey(s[mid]) > key {
            bisect(s, key, lo, mid)
        } else {
            Ok(mid as usize)
        }
    } else {
        Err(lo as usize)
    }
}

/// The variants are sorted by key.
pub open spec fn sorted<T: PalletItem>(s: Seq<Variant<T>>) -> bool {
    forall|i: int, j: int| 0 <= i < j < s.len() ==> vkey(s[i]) <= vkey(s[j])
}

/// The variants are sorted by key, and no two share a key.
pub open spec fn strictly_sorted<T: PalletItem>(s: Seq<Variant<T>>) -> bool {
    forall|i: int, j: int| 0 <= i < j < s.len() ==> vkey(s[i]) < vkey(s[j])
}

/// The number of bits in the binary representation of `n`.
pub open spec fn bits_for(n: nat) -> nat
    decreases n,
{
    if n == 0 {
        0
    } else {
        1 + bits_for(n / 2)
    }
}

/// The minimum number of bits needed to index `len` items: `0` for none, `1` for one.
pub open spec fn req_bits_for(len: nat) -> nat {
    if len <= 1 {
        len
    } else {
        bits_for((len - 1) as nat)
    }
}

/// Sorted `Vec<Variant>` with helper functions.
pub struct Pallet<T> {
    inner: Vec<Variant<T>>,
}

impl<T: PalletItem> View for Pallet<T> {
    type V = Seq<Variant<T>>;

    closed spec fn view(&self) -> Seq<Variant<T>> {
        self.inner@
    }
}

impl<T: PalletItem> Pallet<T> {
    /// The variants are sorted by key.
    pub open spec fn wf(&self) -> bool {
        sorted(self@)
    }

    /// Creates a new pallet from a `Vec<Variant<T>>`, sorting it by key.
    ///
    /// The `Vec<Variant<T>>` doesn't need to be sorted.
    pub fn new(inner: Vec<Variant<T>>) -> (r: Self)
        ensures
            r.wf(),
            r@.to_multiset() == inner@.to_multiset(),
    {
        let mut out: Vec<Variant<T>> = Vec::new();
        let mut i: usize = 0;
        while i < inner.len()
            invariant
                i <= inner@.len(),
                sorted(out@),
                out@.to_multiset() == inner@.take(i as int).to_multiset(),
            decreases inner@.len() - i,
        {
            let v = inner[i];
            let k = v.inner.key();
            let mut j: usize = 0;
            while j < out.len() && out[j].inner.key() <= k
                invariant
                    j <= out@.len(),
                    forall|m: int| 0 <= m < j ==> vkey(#[trigger] out@[m]) <= k,
                decreases out@.len() - j,
            {
                j = j + 1;
            }
            proof {
                vstd::seq_lib::to_multiset_insert(out@, j as int, v);
                assert(inner@.take(i + 1) =~= inner@.take(i as int).push(v));
                vstd::seq_lib::to_multiset_build(inner@.take(i as int), v);
                let ghost old_out = out@;
                assert forall|a: int, b: int|
                    0 <= a < b < old_out.len() + 1 implies vkey(
                    #[trigger] old_out.insert(j as int, v)[a],
                ) <= vkey(#[trigger] old_out.insert(j as int, v)[b]) by {
                    if j < old_out.len() {
                        assert(vkey(old_out[j as int]) > k);
                    }
                }
            }
            out.insert(j, v);
            i = i + 1;
        }
        proof {
            assert(inner@.take(inner@.len() as int) =~= inner@);
        }
        Self { inner: out }
    }

    /// The number of variants.
    pub fn len(&self) -> (r: usize)
        ensures
            r == self@.len(),
    {
        self.inner.len()
    }

    /// Searches for the variant whose data has the key of `variant`'s data:
    /// `Ok(index)` of a match, or `Err(index)` where such a variant would be inserted.
    /// Among variants with equal keys, which one is found is fixed by the keys alone.
    pub fn binary_search(&self, variant: &Variant<T>) -> (r: Result<usize, usize>)
        requires
            self.wf(),
        ensures
            r == bisect(self@, vkey(*variant), 0, self@.len() as int),
            match r {
                Ok(i) => i < self@.len() && vkey(self@[i as int]) == vkey(*variant),
                Err(i) => i <= self@.len() && (forall|j: int|
                    0 <= j < i ==> vkey(#[trigger] self@[j]) < vkey(*variant)) && (forall|j: int|
                    i <= j < self@.len() ==> vkey(#[trigger] self@[j]) > vkey(*variant)),
            },
    {
        let key = variant.inner.key();
        let mut lo: usize = 0;
        let mut hi: usize = self.inner.len();
        while lo < hi
            invariant
                lo <= hi <= self@.len(),
                sorted(self@),
                key == vkey(*variant),
                forall|j: int| 0 <= j < lo ==> vkey(#[trigger] self@[j]) < key,
                forall|j: int| hi <= j < self@.len() ==> vkey(#[trigger] self@[j]) > key,
                bisect(self@, key as int, lo as int, hi as int) == bisect(
                    self@,
                    key as int,
                    0,
                    self@.len() as int,
                ),
            decreases hi - lo,
        {
            let mid = lo + (hi - lo) / 2;
            let mid_key = self.inner[mid].inner.key();
            if mid_key < key {
                lo = mid + 1;
            } else if mid_key > key {
                hi = mid;
            } else {
                return Ok(mid);
            }
        }
        Err(lo)
    }

    /// The variant at `idx`, if there is one.
    pub fn get(&self, idx: usize) -> (r: Option<&Variant<T>>)
        ensures
            idx < self@.len() ==> r == Some(&self@[idx as int]),
            idx >= self@.len() ==> r is None,
    {
        if idx < self.inner.len() {
            Some(&self.inner[idx])
        } else {
            None
        }
    }

    /// Gets a value if it exists, inserts it if it doesn't.
    ///
    /// Returns `Gotten(index)` of a variant holding `data`, or `Inserted(index)` of a new
    /// variant holding `data` with a `count` of `1`.
    pub fn get_or_insert(&mut self, data: T) -> (r: GetOrInsertResult)
        requires
            old(self).wf(),
        ensures
            final(self).wf(),
            match r {
                GetOrInsertResult::Gotten(i) => {
                    &&& i < old(self)@.len()
                    &&& final(self)@ == old(self)@
                    &&& vkey(old(self)@[i as int]) == data.spec_key()
                },
                GetOrInsertResult::Inserted(i) => {
                    &&& i <= old(self)@.len()
                    &&& final(self)@ == old(self)@.insert(i as int, final(self)@[i as int])
                    &&& final(self)@[i as int].spec_inner() == data
                    &&& final(self)@[i as int].spec_count() == 1
                    &&& forall|j: int|
                        0 <= j < old(self)@.len() ==> vkey(#[trigger] old(self)@[j])
                            != data.spec_key()
                },
            },
    {
        let variant = Variant::new(data, 1);
        match self.binary_search(&variant) {
            Ok(i) => GetOrInsertResult::Gotten(i),
            Err(i) => {
                proof {
                    let ghost s = self@;
                    assert forall|a: int, b: int|
                        0 <= a < b < s.len() + 1 implies vkey(
                        #[trigger] s.insert(i as int, variant)[a],
                    ) <= vkey(#[trigger] s.insert(i as int, variant)[b]) by {}
                }
                self.inner.insert(i, variant);
                GetOrInsertResult::Inserted(i)
            },
        }
    }

    /// Decreases the `count` of the variant at `index` by `1`, removing the variant instead when
    /// its `count` is at most `1`.
    ///
    /// Returns `true` if a variant was removed (later indices shifted down), `false` if the
    /// count was decremented without removal. `index` must be in bounds.
    pub fn decrement_index(&mut self, index: usize) -> (r: bool)
        requires
            old(self).wf(),
            index < old(self)@.len(),
        ensures
            final(self).wf(),
            r == (old(self)@[index as int].spec_count() <= 1),
            r ==> final(self)@ == old(self)@.remove(index as int),
            !r ==> final(self)@ == old(self)@.update(index as int, final(self)@[index as int]),
            !r ==> final(self)@[index as int].spec_inner() == old(self)@[index as int].spec_inner(),
            !r ==> final(self)@[index as int].spec_count() == old(self)@[index as int].spec_count() - 1,
    {
        let mut variant = self.inner[index];
        let should_remove = variant.count <= 1;
        if should_remove {
            self.inner.remove(index);
        } else {
            let _ = variant.decrement();
            self.inner.set(index, variant);
        }
        should_remove
    }

    /// Increases the `count` of the variant at `index` by `1`; `Err(CountOverflow)`, with
    /// nothing changed, when the count is `u16::MAX`.
    ///
    /// `index` must be in bounds.
    pub fn increment_index(&mut self, index: usize) -> (r: Result<(), CountOverflow>)
        requires
            old(self).wf(),
            index < old(self)@.len(),
        ensures
            final(self).wf(),
            r is Ok <==> old(self)@[index as int].spec_count() < u16::MAX,
            r is Err ==> final(self)@ == old(self)@,
            r is Ok ==> final(self)@ == old(self)@.update(index as int, final(self)@[index as int]),
            r is Ok ==> final(self)@[index as int].spec_inner() == old(
                self,
            )@[index as int].spec_inner(),
            r is Ok ==> final(self)@[index as int].spec_count() == old(self)@[index as int].spec_count() + 1,
    {
        let mut variant = self.inner[index];
        let r = variant.increment();
        if r.is_ok() {
            self.inner.set(index, variant);
        }
        r
    }

    /// The minimum number of bits required to index this pallet.
    pub fn req_bits(&self) -> (r: usize)
        ensures
            r == req_bits_for(self@.len()),
    {
        let len = self.inner.len();
        if len == 0 {
            0
        } else if len == 1 {
            1
        } else {
            let mut x = len - 1;
            let mut bits: usize = 0;
            proof {
                lemma_bits_for_le((len - 1) as nat);
            }
            while x > 0
                invariant
                    bits + bits_for(x as nat) == bits_for((len - 1) as nat),
                    bits_for((len - 1) as nat) <= len - 1,
                decreases x,
            {
                x = x / 2;
                bits = bits + 1;
            }
            bits
        }
    }
}

/// A number takes at most as many bits as its value.
pub proof fn lemma_bits_for_le(n: nat)
    ensures
        bits_for(n) <= n,
    decreases n,
{
    if n > 0 {
        lemma_bits_for_le(n / 2);
    }
}

/// `n` lies below `2^bits_for(n)`, and at or above `2^(bits_for(n) - 1)` when positive.
pub proof fn lemma_bits_for_pow2(n: nat)
    ensures
        n < pow2(bits_for(n)),
        n >= 1 ==> pow2((bits_for(n) - 1) as nat) <= n,
        n >= 1 ==> bits_for(n) >= 1,
    decreases n,
{
    vstd::arithmetic::power2::lemma2_to64();
    if n > 0 {
        lemma_bits_for_pow2(n / 2);
        lemma_pow2_unfold(bits_for(n));
        assert(pow2(bits_for(n)) == 2 * pow2(bits_for(n / 2)));
        assert(n < pow2(bits_for(n)));
        if n / 2 >= 1 {
            lemma_pow2_unfold((bits_for(n) - 1) as nat);
        } else {
            assert(pow2(0) == 1) by {
                vstd::arithmetic::power2::lemma2_to64();
            }
        }
    }
}

/// The bits needed to index `len` items: at least one, enough for `len` items, and no more
/// than needed (`len` exceeds the count that one bit fewer can index).
pub proof fn lemma_req_bits(len: nat)
    requires
        len >= 1,
    ensures
        req_bits_for(len) >= 1,
        len <= pow2(req_bits_for(len)),
        len >= 2 ==> pow2((req_bits_for(len) - 1) as nat) < len,
{
    vstd::arithmetic::power2::lemma2_to64();
    if len >= 2 {
        lemma_bits_for_pow2((len - 1) as nat);
    }
}

/// The bits needed to index `len` items are the fewest `r >= 1` with `len <= 2^r`.
pub proof fn lemma_req_bits_least(len: nat, r: nat)
    requires
        len >= 1,
        r >= 1,
        len <= pow2(r),
    ensures
        req_bits_for(len) <= r,
{
    lemma_req_bits(len);
    if req_bits_for(len) > r {
        lemma_pow2_monotone(r, (req_bits_for(len) - 1) as nat);
    }
}

/// One more item needs at most one more bit; one fewer (of at least two) at most one fewer.
pub proof fn lemma_req_bits_step(len: nat)
    requires
        len >= 1,
    ensures
        req_bits_for(len) <= req_bits_for(len + 1) <= req_bits_for(len) + 1,
{
    lemma_req_bits(len);
    lemma_req_bits(len + 1);
    lemma_pow2_unfold(req_bits_for(len) + 1);
    lemma_req_bits_least(len + 1, req_bits_for(len) + 1);
    lemma_req_bits_least(len, req_bits_for(len + 1));
}

/// Every index below `len` fits in `req_bits_for(len)` bits.
pub proof fn lemma_req_bits_mask(len: nat, v: nat)
    requires
        v < len,
        req_bits_for(len) < 64,
    ensures
        v <= low_mask(req_bits_for(len)),
{
    lemma_req_bits(len);
    let r = req_bits_for(len);
    lemma_u64_pow2_no_overflow(r);
    lemma_u64_shl_is_mul(1, r as u64);
}

proof fn lemma_pow2_monotone(a: nat, b: nat)
    requires
        a <= b,
    ensures
        pow2(a) <= pow2(b),
{
    if a < b {
        lemma_pow2_strictly_increases(a, b);
    }
}

/// One call of `increment` or `decrement` on a variant, successful or not, as their
/// contracts describe it: the data stays and the count moves by at most one.
pub open spec fn count_step<T: Copy>(before: Variant<T>, after: Variant<T>) -> bool {
    &&& after.spec_inner() == before.spec_inner()
    &&& after.spec_count() == before.spec_count() || after.spec_count() == before.spec_count() + 1
        || after.spec_count() + 1 == before.spec_count()
}

/// However many count changes follow one another, a variant keeps the data it was made
/// with.
pub proof fn law_inner_survives_counting<T: Copy>(states: Seq<Variant<T>>)
    requires
        states.len() > 0,
        forall|i: int| 0 <= i < states.len() - 1 ==> count_step(#[trigger] states[i], states[i + 1]),
    ensures
        forall|i: int| 0 <= i < states.len() ==> #[trigger] states[i].spec_inner()
            == states[0].spec_inner(),
    decreases states.len(),
{
    if states.len() > 1 {
        let prefix = states.drop_last();
        assert forall|i: int| 0 <= i < prefix.len() - 1 implies count_step(
            #[trigger] prefix[i],
            prefix[i + 1],
        ) by {
            assert(count_step(states[i], states[i + 1]));
        }
        law_inner_survives_counting(prefix);
        let k = states.len() - 2;
        assert(count_step(states[k], states[k + 1]));
        assert(prefix[k] == states[k]);
        assert forall|i: int| 0 <= i < states.len() implies #[trigger] states[i].spec_inner()
            == states[0].spec_inner() by {
            if i < states.len() - 1 {
                assert(prefix[i] == states[i]);
            }
        }
    }
}

} // verus!
