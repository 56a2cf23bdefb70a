//! Chunks stored as a pallet of voxel kinds and packed indices into it.
use vstd::prelude::*;

use vstd::multiset::Multiset;

use crate::bits::{low_mask, PackedBits};
use crate::chunk::pallet::{
    lemma_req_bits, lemma_req_bits_mask, lemma_req_bits_step, req_bits_for, strictly_sorted,
    vkey, GetOrInsertResult, Pallet, PalletItem, Variant,
};
use crate::chunk::space::VOXELS_IN_CHUNK;
use crate::voxel::Voxel;

verus! {

broadcast use {
    vstd::seq_lib::group_seq_properties,
    vstd::multiset::group_multiset_axioms,
    vstd::seq_lib::to_multiset_update,
    vstd::seq_lib::to_multiset_contains,
    vstd::seq_lib::to_multiset_remove,
    vstd::seq_lib::to_multiset_len,
};

/// Errors of packed index storage.
#[derive(Debug, Clone, Copy, PartialEq, Eq)]
pub enum PackedIntsError {
    /// Indices would take zero bits.
    ZeroBitsPer,
    /// Indices would take as many bits as a word or more.
    MaxedBitsPer,
    /// An index lies outside the stored range.
    IndexOutOfBounds,
}

/// The voxels that the packed pallet indices point at.
pub open spec fn decode(pallet: Seq<Variant<Voxel>>, packed: Seq<u64>) -> Seq<Voxel> {
    Seq::new(packed.len(), |i: int| pallet[packed[i] as int].spec_inner())
}

/// Every variant is present, and its count is the number of voxels of its kind.
pub open spec fn counts_match(pallet: Seq<Variant<Voxel>>, m: Multiset<Voxel>) -> bool {
    forall|k: int|
        0 <= k < pallet.len() ==> #[trigger] pallet[k].spec_count() as nat == m.count(
            pallet[k].spec_inner(),
        ) && pallet[k].spec_count() >= 1
}

/// The direction in which stored pallet indices are shifted.
enum Remap {
    Up,
    Down,
}

/// A stored pallet index after a shift of the indices at or above `min`.
spec fn shifted(v: u64, min: nat, up: bool) -> int {
    if v >= min {
        if up {
            v + 1
        } else {
            v - 1
        }
    } else {
        v as int
    }
}

/// A chunk stored as a `Pallet` and packed indices into it.
/// The packed indices take the fewest bits that index the pallet.
///
/// This is more efficient data storage for sparse chunks.
/// For complex chunks this is slower and less memory efficient than a raw `ArrayChunk`.
pub struct PalletChunk {
    pallet: Pallet<Voxel>,
    packed: PackedBits<usize>,
}

impl View for PalletChunk {
    type V = Seq<Voxel>;

    /// The voxels of the chunk, in flat index order.
    closed spec fn view(&self) -> Seq<Voxel> {
        decode(self.pallet@, self.packed@)
    }
}

impl PalletChunk {
    /// The pallet is strictly sorted and each of its variants counts the voxels of its kind; the
    /// indices point into the pallet and take the fewest bits that index it.
    pub closed spec fn wf(&self) -> bool {
        &&& self.pallet.wf()
        &&& strictly_sorted(self.pallet@)
        &&& 1 <= self.pallet@.len() <= VOXELS_IN_CHUNK
        &&& self.packed.wf()
        &&& self.packed@.len() == VOXELS_IN_CHUNK
        &&& self.packed.spec_bits_per() == req_bits_for(self.pallet@.len())
        &&& forall|i: int|
            0 <= i < VOXELS_IN_CHUNK ==> #[trigger] self.packed@[i] < self.pallet@.len()
        &&& counts_match(self.pallet@, self@.to_multiset())
    }

    /// The chunk's pallet: the kinds of voxel it holds, each with its count.
    pub closed spec fn spec_pallet(&self) -> Seq<Variant<Voxel>> {
        self.pallet@
    }

    /// The bit width of the stored pallet indices.
    pub closed spec fn spec_index_bits(&self) -> nat {
        self.packed.spec_bits_per()
    }

    /// A chunk holds `VOXELS_IN_CHUNK` voxels.
    pub proof fn lemma_len(&self)
        requires
            self.wf(),
        ensures
            self@.len() == VOXELS_IN_CHUNK,
    {
    }

    /// Creates a chunk from a pallet, every voxel pointing at the pallet's first variant,
    /// with indices as wide as the pallet needs.
    ///
    /// Returns `Err(PackedIntsError::ZeroBitsPer)` for an empty pallet and
    /// `Err(PackedIntsError::MaxedBitsPer)` when the indices would take a whole word. The
    /// chunk is well formed when the pallet holds a single variant whose count is
    /// `VOXELS_IN_CHUNK`; for other pallets the counts do not describe the chunk.
    pub fn new(pallet: Pallet<Voxel>) -> (r: Result<Self, PackedIntsError>)
        requires
            pallet.wf(),
        ensures
            pallet@.len() == 0 ==> r == Err::<Self, PackedIntsError>(PackedIntsError::ZeroBitsPer),
            pallet@.len() > 0 && req_bits_for(pallet@.len()) >= usize::BITS ==> r == Err::<
                Self,
                PackedIntsError,
            >(PackedIntsError::MaxedBitsPer),
            pallet@.len() > 0 && req_bits_for(pallet@.len()) < usize::BITS ==> (r matches Ok(c)
                && c.spec_pallet() == pallet@ && c.spec_index_bits() == req_bits_for(pallet@.len())
                && c@ == Seq::new(VOXELS_IN_CHUNK as nat, |i: int| pallet@[0].spec_inner())),
            pallet@.len() == 1 && pallet@[0].spec_count() == VOXELS_IN_CHUNK ==> (r matches Ok(c)
                && c.wf()),
    {
        let bits = pallet.req_bits();
        if bits == 0 {
            return Err(PackedIntsError::ZeroBitsPer);
        }
        if bits >= usize::BITS as usize {
            return Err(PackedIntsError::MaxedBitsPer);
        }
        proof {
            assert(bits * VOXELS_IN_CHUNK + usize::BITS - 1 <= usize::MAX) by (nonlinear_arith)
                requires
                    bits < usize::BITS,
                    usize::BITS == 32 || usize::BITS == 64,
            ;
        }
        let packed = PackedBits::<usize>::new(bits, VOXELS_IN_CHUNK as usize);
        let r = Self { packed, pallet };
        proof {
            let v = r@;
            assert(v =~= Seq::new(VOXELS_IN_CHUNK as nat, |i: int| pallet@[0].spec_inner()));
            if pallet@.len() == 1 && pallet@[0].spec_count() == VOXELS_IN_CHUNK {
                lemma_constant_count(v, pallet@[0].spec_inner());
            }
        }
        Ok(r)
    }

    /// A chunk filled with `voxel`.
    pub fn filled(voxel: Voxel) -> (r: Self)
        ensures
            r.wf(),
            r@ == Seq::new(VOXELS_IN_CHUNK as nat, |i: int| voxel),
    {
        let mut variants: Vec<Variant<Voxel>> = Vec::new();
        variants.push(Variant::new(voxel, VOXELS_IN_CHUNK));
        let pallet = Pallet::new(variants);
        proof {
            let s = variants@;
            assert(pallet@.to_multiset().len() == s.to_multiset().len());
            assert(s.to_multiset().count(s[0]) > 0);
            assert(pallet@.len() == 1);
            assert(pallet@.to_multiset().count(pallet@[0]) > 0);
            assert(s.contains(pallet@[0]));
        }
        let bits = pallet.req_bits();
        let packed = PackedBits::<usize>::new(bits, VOXELS_IN_CHUNK as usize);
        let r = Self { packed, pallet };
        proof {
            let v = r@;
            assert(v =~= Seq::new(VOXELS_IN_CHUNK as nat, |i: int| voxel));
            lemma_constant_count(v, voxel);
        }
        r
    }

    /// The voxel stored at `idx`; `Err(PackedIntsError::IndexOutOfBounds)` when
    /// `idx >= VOXELS_IN_CHUNK`.
    pub fn get(&self, idx: usize) -> (r: Result<Voxel, PackedIntsError>)
        requires
            self.wf(),
        ensures
            idx < VOXELS_IN_CHUNK ==> r == Ok::<Voxel, PackedIntsError>(self@[idx as int]),
            idx >= VOXELS_IN_CHUNK ==> r == Err::<Voxel, PackedIntsError>(
                PackedIntsError::IndexOutOfBounds,
            ),
    {
        match self.get_variant(idx) {
            Ok(variant) => Ok(variant.inner()),
            Err(e) => Err(e),
        }
    }

    /// The variant stored at `idx`; `Err(PackedIntsError::IndexOutOfBounds)` when
    /// `idx >= VOXELS_IN_CHUNK`.
    pub fn get_variant(&self, idx: usize) -> (r: Result<&Variant<Voxel>, PackedIntsError>)
        requires
            self.wf(),
        ensures
            idx < VOXELS_IN_CHUNK ==> (r matches Ok(v) && v.spec_inner() == self@[idx as int]
                && v.spec_count() as nat == self@.to_multiset().count(self@[idx as int])),
            idx >= VOXELS_IN_CHUNK ==> r == Err::<&Variant<Voxel>, PackedIntsError>(
                PackedIntsError::IndexOutOfBounds,
            ),
    {
        if idx >= self.packed.count() {
            return Err(PackedIntsError::IndexOutOfBounds);
        }
        let pallet_idx = self.packed.get(idx);
        match self.pallet.get(pallet_idx) {
            Some(v) => Ok(v),
            None => {
                proof {
                    assert(false);
                }
                Err(PackedIntsError::IndexOutOfBounds)
            },
        }
    }

    /// Sets the voxel stored at `target_idx`; `Err(PackedIntsError::IndexOutOfBounds)`, with
    /// nothing changed, when `target_idx >= VOXELS_IN_CHUNK`.
    #[verifier::rlimit(100)]
    #[verifier::spinoff_prover]
    pub fn set(&mut self, target_idx: usize, voxel: Voxel) -> (r: Result<(), PackedIntsError>)
        requires
            old(self).wf(),
        ensures
            final(self).wf(),
            target_idx < VOXELS_IN_CHUNK ==> r is Ok && final(self)@ == old(self)@.update(
                target_idx as int,
                voxel,
            ),
            target_idx >= VOXELS_IN_CHUNK ==> r == Err::<(), PackedIntsError>(
                PackedIntsError::IndexOutOfBounds,
            ) && final(self)@ == old(self)@,
    {
        if target_idx >= self.packed.count() {
            return Err(PackedIntsError::IndexOutOfBounds);
        }
        proof {
            self.packed.lemma_shape();
        }
        let ghost p0 = self.pallet@;
        let ghost q0 = self.packed@;
        let ghost v0 = self@;
        let ghost bits = self.packed.spec_bits_per();
        let ghost t = target_idx as int;
        let ghost x0 = v0[t];
        let ghost m1 = v0.to_multiset().remove(x0);
        let pallet_idx = self.packed.get(target_idx);
        let removed = match self.pallet.get(pallet_idx) {
            Some(v) => *v,
            None => {
                proof {
                    assert(false);
                }
                return Err(PackedIntsError::IndexOutOfBounds);
            },
        };
        let rm_idx = match self.pallet.binary_search(&removed) {
            Ok(i) => i,
            Err(_) => {
                proof {
                    assert(vkey(p0[pallet_idx as int]) == vkey(removed));
                    assert(false);
                }
                return Err(PackedIntsError::IndexOutOfBounds);
            },
        };
        proof {
            if rm_idx != pallet_idx {
                if rm_idx < pallet_idx {
                    assert(vkey(p0[rm_idx as int]) < vkey(p0[pallet_idx as int]));
                } else {
                    assert(vkey(p0[pallet_idx as int]) < vkey(p0[rm_idx as int]));
                }
            }
            assert forall|i: int| 0 <= i < VOXELS_IN_CHUNK implies #[trigger] q0[i] <= low_mask(
                bits,
            ) by {
                lemma_req_bits_mask(p0.len(), q0[i] as nat);
            }
        }
        let was_shifted = self.pallet.decrement_index(rm_idx);
        let ghost p1 = self.pallet@;
        if was_shifted {
            self.remap(pallet_idx + 1, Remap::Down);
        }
        let ghost q1 = self.packed@;
        proof {
            lemma_after_decrement(p0, q0, v0, t, pallet_idx as int, was_shifted, p1, q1, bits);
        }
        let result = self.pallet.get_or_insert(voxel);
        match result {
            GetOrInsertResult::Gotten(voxel_idx) => {
                proof {
                    Voxel::lemma_key_injective(p1[voxel_idx as int].spec_inner(), voxel);
                    lemma_req_bits_mask(p0.len(), voxel_idx as nat);
                    lemma_mask_keeps_index(voxel_idx as u64, bits);
                }
                self.packed.set(target_idx, voxel_idx);
                proof {
                    assert(m1.count(voxel) < VOXELS_IN_CHUNK) by {
                        lemma_multiset_count_le_len(v0.remove(t), voxel);
                    }
                }
                let inc = self.pallet.increment_index(voxel_idx);
                if was_shifted {
                    if self.pallet.req_bits() < self.packed.bits_per() {
                        proof {
                            lemma_req_bits_step(p1.len());
                            lemma_req_bits(p1.len());
                            lemma_indices_fit_fewer_bits(self.packed@, p1.len(), bits);
                        }
                        self.packed.decrement();
                    }
                }
                proof {
                    if was_shifted {
                        lemma_req_bits_step(p1.len());
                    }
                    self.lemma_finish(v0, t, voxel, m1, p1, q1);
                }
            },
            GetOrInsertResult::Inserted(voxel_idx) => {
                proof {
                    lemma_req_bits_step(p1.len());
                    if was_shifted {
                        lemma_req_bits_step(p1.len());
                    }
                    lemma_absent_not_counted(v0, t, p1, q1, voxel, m1);
                    lemma_req_bits_small(p1.len() + 1);
                }
                if self.pallet.req_bits() > self.packed.bits_per() {
                    self.packed.increment();
                }
                let ghost bits2 = self.packed.spec_bits_per();
                proof {
                    lemma_req_bits_mask(p1.len() + 1, p1.len() as nat);
                    assert forall|i: int| 0 <= i < VOXELS_IN_CHUNK implies #[trigger] self.packed@[i]
                        <= low_mask(bits2) by {
                        if i != t {
                            assert(q1[i] < p1.len());
                        }
                    }
                }
                self.remap(voxel_idx, Remap::Up);
                let ghost q2 = self.packed@;
                proof {
                    lemma_req_bits_mask(p1.len() + 1, voxel_idx as nat);
                    lemma_mask_keeps_index(voxel_idx as u64, bits2);
                }
                self.packed.set(target_idx, voxel_idx);
                proof {
                    let p2 = self.pallet@;
                    assert forall|i: int| #![trigger q2[i]] 0 <= i < VOXELS_IN_CHUNK && i != t implies self.packed@[i]
                        == q2[i] && q2[i] < p2.len() && p2[q2[i] as int].spec_inner()
                        == v0[i] by {
                        assert(q1[i] < p1.len());
                        lemma_req_bits_mask(p1.len() + 1, (q1[i] + 1) as nat);
                        lemma_mask_keeps_index(q1[i], bits2);
                        lemma_mask_keeps_index((q1[i] + 1) as u64, bits2);
                    }
                    self.lemma_finish_inserted(v0, t, voxel, m1, p1, q2);
                }
            },
        }
        Ok(())
    }

    /// After the target was rewritten through a found variant: the chunk is well formed and
    /// holds the old voxels with the target replaced.
    proof fn lemma_finish(
        &self,
        v0: Seq<Voxel>,
        t: int,
        voxel: Voxel,
        m1: Multiset<Voxel>,
        p1: Seq<Variant<Voxel>>,
        q1: Seq<u64>,
    )
        requires
            0 <= t < VOXELS_IN_CHUNK,
            v0.len() == VOXELS_IN_CHUNK,
            m1 == v0.to_multiset().remove(v0[t]),
            strictly_sorted(p1),
            1 <= p1.len() <= VOXELS_IN_CHUNK,
            counts_match(p1, m1),
            self.pallet.wf(),
            self.packed.wf(),
            self.packed@.len() == VOXELS_IN_CHUNK,
            self.pallet@.len() == p1.len(),
            self.packed.spec_bits_per() == req_bits_for(p1.len()),
            ({
                let vi = self.packed@[t] as int;
                &&& 0 <= vi < p1.len()
                &&& self.pallet@ == p1.update(vi, self.pallet@[vi])
                &&& self.pallet@[vi].spec_inner() == voxel
                &&& p1[vi].spec_inner() == voxel
                &&& self.pallet@[vi].spec_count() == p1[vi].spec_count() + 1
            }),
            forall|i: int|
                #![trigger q1[i]]
                0 <= i < VOXELS_IN_CHUNK && i != t ==> self.packed@[i] == q1[i] && q1[i] < p1.len()
                    && p1[q1[i] as int].spec_inner() == v0[i],
        ensures
            self.wf(),
            self@ == v0.update(t, voxel),
    {
        let vi = self.packed@[t] as int;
        assert(self@ =~= v0.update(t, voxel)) by {
            assert forall|i: int| 0 <= i < VOXELS_IN_CHUNK implies #[trigger] self@[i] == v0.update(
                t,
                voxel,
            )[i] by {
                if i != t {
                    assert(q1[i] < p1.len());
                    assert(self.pallet@[q1[i] as int].spec_inner() == p1[q1[i] as int].spec_inner());
                }
            }
        }
        let m2 = self@.to_multiset();
        assert(v0.contains(v0[t]));
        assert forall|y: Voxel| #[trigger] m2.count(y) == m1.count(y) + (if y == voxel {
            1int
        } else {
            0int
        }) by {}
        assert(strictly_sorted(self.pallet@)) by {
            assert forall|a: int, b: int| 0 <= a < b < self.pallet@.len() implies vkey(
                self.pallet@[a],
            ) < vkey(self.pallet@[b]) by {
                assert(vkey(p1[a]) < vkey(p1[b]));
            }
        }
        assert forall|i: int| 0 <= i < VOXELS_IN_CHUNK implies #[trigger] self.packed@[i]
            < self.pallet@.len() by {
            if i != t {
                assert(q1[i] < p1.len());
            }
        }
        assert forall|k: int| 0 <= k < self.pallet@.len() implies #[trigger] self.pallet@[k].spec_count() as nat
            == m2.count(self.pallet@[k].spec_inner()) && self.pallet@[k].spec_count() >= 1 by {
            if k != vi {
                assert(self.pallet@[k] == p1[k]);
                assert(vkey(p1[k]) != vkey(p1[vi]));
            }
        }
    }

    /// After the target was rewritten through a newly inserted variant: the chunk is well
    /// formed and holds the old voxels with the target replaced.
    proof fn lemma_finish_inserted(
        &self,
        v0: Seq<Voxel>,
        t: int,
        voxel: Voxel,
        m1: Multiset<Voxel>,
        p1: Seq<Variant<Voxel>>,
        q2: Seq<u64>,
    )
        requires
            0 <= t < VOXELS_IN_CHUNK,
            v0.len() == VOXELS_IN_CHUNK,
            m1 == v0.to_multiset().remove(v0[t]),
            m1.count(voxel) == 0,
            strictly_sorted(p1),
            p1.len() <= VOXELS_IN_CHUNK,
            counts_match(p1, m1),
            self.pallet.wf(),
            self.packed.wf(),
            self.packed@.len() == VOXELS_IN_CHUNK,
            self.pallet@.len() == p1.len() + 1,
            self.packed.spec_bits_per() == req_bits_for(p1.len() + 1),
            forall|j: int| 0 <= j < p1.len() ==> vkey(#[trigger] p1[j]) != voxel.spec_key(),
            ({
                let vi = self.packed@[t] as int;
                &&& 0 <= vi <= p1.len()
                &&& self.pallet@ == p1.insert(vi, self.pallet@[vi])
                &&& self.pallet@[vi].spec_inner() == voxel
                &&& self.pallet@[vi].spec_count() == 1
            }),
            forall|i: int|
                #![trigger q2[i]]
                0 <= i < VOXELS_IN_CHUNK && i != t ==> self.packed@[i] == q2[i] && q2[i]
                    < self.pallet@.len() && self.pallet@[q2[i] as int].spec_inner() == v0[i],
        ensures
            self.wf(),
            self@ == v0.update(t, voxel),
    {
        let vi = self.packed@[t] as int;
        assert(self@ =~= v0.update(t, voxel)) by {
            assert forall|i: int| 0 <= i < VOXELS_IN_CHUNK implies #[trigger] self@[i] == v0.update(
                t,
                voxel,
            )[i] by {
                if i != t {
                    assert(q2[i] < self.pallet@.len());
                }
            }
        }
        let m2 = self@.to_multiset();
        assert(v0.contains(v0[t]));
        assert forall|y: Voxel| #[trigger] m2.count(y) == m1.count(y) + (if y == voxel {
            1int
        } else {
            0int
        }) by {}
        assert(strictly_sorted(self.pallet@)) by {
            assert forall|a: int, b: int| 0 <= a < b < self.pallet@.len() implies vkey(
                self.pallet@[a],
            ) < vkey(self.pallet@[b]) by {
                assert(self.pallet@[a] == if a < vi {
                    p1[a]
                } else if a == vi {
                    self.pallet@[vi]
                } else {
                    p1[a - 1]
                });
                assert(self.pallet@[b] == if b < vi {
                    p1[b]
                } else if b == vi {
                    self.pallet@[vi]
                } else {
                    p1[b - 1]
                });
                if a != vi && b != vi {
                    if a < vi && b > vi {
                        assert(vkey(p1[a]) < vkey(p1[b - 1]) || a == b - 1);
                    }
                }
                assert(vkey(self.pallet@[a]) <= vkey(self.pallet@[b]));
                if vkey(self.pallet@[a]) == vkey(self.pallet@[b]) {
                    if a == vi {
                        assert(vkey(p1[b - 1]) != voxel.spec_key());
                    } else if b == vi {
                        assert(vkey(p1[a]) != voxel.spec_key());
                    } else {
                        let a0 = if a < vi {
                            a
                        } else {
                            a - 1
                        };
                        let b0 = if b < vi {
                            b
                        } else {
                            b - 1
                        };
                        assert(a0 < b0);
                        assert(vkey(p1[a0]) < vkey(p1[b0]));
                    }
                }
            }
        }
        assert forall|k: int| 0 <= k < self.pallet@.len() implies #[trigger] self.pallet@[k].spec_count() as nat
            == m2.count(self.pallet@[k].spec_inner()) && self.pallet@[k].spec_count() >= 1 by {
            if k != vi {
                let k0 = if k < vi {
                    k
                } else {
                    k - 1
                };
                assert(self.pallet@[k] == p1[k0]);
                assert(vkey(p1[k0]) != voxel.spec_key());
            }
        }
        assert forall|i: int| 0 <= i < VOXELS_IN_CHUNK implies #[trigger] self.packed@[i]
            < self.pallet@.len() by {
            if i != t {
                assert(q2[i] < self.pallet@.len());
            }
        }
        lemma_pallet_len_bound(self.pallet@, self@);
    }

    /// Shifts every stored pallet index at or above `min_pallet_idx` up or down by one.
    fn remap(&mut self, min_pallet_idx: usize, remap: Remap)
        requires
            old(self).packed.wf(),
            old(self).packed.spec_bits_per() < usize::BITS,
            remap is Down ==> min_pallet_idx >= 1,
            forall|i: int|
                0 <= i < old(self).packed@.len() ==> #[trigger] old(self).packed@[i] <= low_mask(
                    old(self).packed.spec_bits_per(),
                ),
        ensures
            final(self).pallet == old(self).pallet,
            final(self).packed.wf(),
            final(self).packed.spec_bits_per() == old(self).packed.spec_bits_per(),
            final(self).packed@.len() == old(self).packed@.len(),
            forall|i: int|
                0 <= i < old(self).packed@.len() ==> #[trigger] final(self).packed@[i] == (shifted(
                    old(self).packed@[i],
                    min_pallet_idx as nat,
                    remap is Up,
                ) as u64) & low_mask(old(self).packed.spec_bits_per()),
    {
        let ghost q = self.packed@;
        let count = self.packed.count();
        let mut idx: usize = 0;
        while idx < count
            invariant
                self.pallet == old(self).pallet,
                self.packed.wf(),
                self.packed.spec_bits_per() == old(self).packed.spec_bits_per(),
                old(self).packed.spec_bits_per() < usize::BITS,
                self.packed@.len() == q.len(),
                q == old(self).packed@,
                count == q.len(),
                idx <= count,
                remap is Down ==> min_pallet_idx >= 1,
                forall|i: int| 0 <= i < q.len() ==> #[trigger] q[i] <= low_mask(
                    old(self).packed.spec_bits_per(),
                ),
                forall|i: int| 0 <= i < idx ==> #[trigger] self.packed@[i] == (shifted(
                    q[i],
                    min_pallet_idx as nat,
                    remap is Up,
                ) as u64) & low_mask(old(self).packed.spec_bits_per()),
                forall|i: int| idx <= i < q.len() ==> #[trigger] self.packed@[i] == q[i],
            decreases count - idx,
        {
            let pallet_idx = self.packed.get(idx);
            if pallet_idx >= min_pallet_idx {
                proof {
                    lemma_mask_below_usize(self.packed.spec_bits_per());
                }
                let new_pallet_index = match remap {
                    Remap::Up => pallet_idx + 1,
                    Remap::Down => pallet_idx - 1,
                };
                self.packed.set(idx, new_pallet_index);
            } else {
                proof {
                    lemma_mask_keeps_index(q[idx as int], self.packed.spec_bits_per());
                }
            }
            idx = idx + 1;
        }
    }
}

/// After the target's variant was decremented (and, when it was removed, the indices above it
/// shifted down): the pallet is still strictly sorted, its counts describe the voxels other
/// than the target, and those voxels still decode to their kinds.
proof fn lemma_after_decrement(
    p0: Seq<Variant<Voxel>>,
    q0: Seq<u64>,
    v0: Seq<Voxel>,
    t: int,
    pidx: int,
    removed: bool,
    p1: Seq<Variant<Voxel>>,
    q1: Seq<u64>,
    bits: nat,
)
    requires
        v0 == decode(p0, q0),
        q0.len() == VOXELS_IN_CHUNK,
        0 <= t < VOXELS_IN_CHUNK,
        strictly_sorted(p0),
        counts_match(p0, v0.to_multiset()),
        forall|i: int| 0 <= i < VOXELS_IN_CHUNK ==> #[trigger] q0[i] < p0.len(),
        q0[t] == pidx,
        bits < 64,
        forall|i: int| 0 <= i < VOXELS_IN_CHUNK ==> #[trigger] q0[i] <= low_mask(bits),
        removed == (p0[pidx].spec_count() <= 1),
        removed ==> p1 == p0.remove(pidx),
        !removed ==> p1 == p0.update(pidx, p1[pidx]),
        !removed ==> p1[pidx].spec_inner() == p0[pidx].spec_inner(),
        !removed ==> p1[pidx].spec_count() == p0[pidx].spec_count() - 1,
        q1.len() == q0.len(),
        removed ==> forall|i: int|
            0 <= i < VOXELS_IN_CHUNK ==> #[trigger] q1[i] == (shifted(q0[i], (pidx + 1) as nat, false)
                as u64) & low_mask(bits),
        !removed ==> q1 == q0,
    ensures
        strictly_sorted(p1),
        counts_match(p1, v0.to_multiset().remove(v0[t])),
        forall|i: int|
            #![trigger q1[i]]
            0 <= i < VOXELS_IN_CHUNK && i != t ==> q1[i] < p1.len() && p1[q1[i] as int].spec_inner()
                == v0[i],
        q1[t] <= p1.len(),
        p1.len() <= p0.len() <= p1.len() + 1,
        p1.len() >= 1,
{
    let x0 = v0[t];
    let m1 = v0.to_multiset().remove(x0);
    assert(v0.contains(x0));
    assert(v0.to_multiset().count(x0) >= 1);
    if removed {
        lemma_sole_holder(v0, t, x0);
        assert forall|i: int| #![trigger q1[i]] 0 <= i < VOXELS_IN_CHUNK && i != t implies q1[i] < p1.len()
            && p1[q1[i] as int].spec_inner() == v0[i] by {
            assert(v0[i] == p0[q0[i] as int].spec_inner());
            if q0[i] == pidx {
                assert(v0[i] == x0);
            }
            lemma_mask_keeps_index(q0[i], bits);
            if q0[i] > pidx {
                lemma_mask_keeps_index((q0[i] - 1) as u64, bits);
                assert(q1[i] == q0[i] - 1);
                assert(p1[q0[i] - 1] == p0[q0[i] as int]);
            } else {
                assert(q1[i] == q0[i]);
                assert(p1[q0[i] as int] == p0[q0[i] as int]);
            }
        }
        lemma_mask_keeps_index(q0[t], bits);
    } else {
        assert forall|i: int| #![trigger q1[i]] 0 <= i < VOXELS_IN_CHUNK && i != t implies q1[i] < p1.len()
            && p1[q1[i] as int].spec_inner() == v0[i] by {
            assert(v0[i] == p0[q0[i] as int].spec_inner());
            assert(p1[q0[i] as int].spec_inner() == p0[q0[i] as int].spec_inner());
        }
    }
    let other = if t == 0 {
        1int
    } else {
        0int
    };
    assert(q1[other] < p1.len());
    assert(strictly_sorted(p1)) by {
        assert forall|a: int, b: int| 0 <= a < b < p1.len() implies vkey(p1[a]) < vkey(p1[b]) by {
            if removed {
                let a0 = if a < pidx {
                    a
                } else {
                    a + 1
                };
                let b0 = if b < pidx {
                    b
                } else {
                    b + 1
                };
                assert(p1[a] == p0[a0]);
                assert(p1[b] == p0[b0]);
            } else {
                assert(vkey(p0[a]) < vkey(p0[b]));
            }
        }
    }
    assert forall|k: int| 0 <= k < p1.len() implies #[trigger] p1[k].spec_count() as nat == m1.count(
        p1[k].spec_inner(),
    ) && p1[k].spec_count() >= 1 by {
        if removed {
            let k0 = if k < pidx {
                k
            } else {
                k + 1
            };
            assert(p1[k] == p0[k0]);
            if k0 < pidx {
                assert(vkey(p0[k0]) < vkey(p0[pidx]));
            } else {
                assert(vkey(p0[pidx]) < vkey(p0[k0]));
            }
        } else if k != pidx {
            assert(p1[k] == p0[k]);
            if k < pidx {
                assert(vkey(p0[k]) < vkey(p0[pidx]));
            } else {
                assert(vkey(p0[pidx]) < vkey(p0[k]));
            }
        }
    }
}

/// Masking keeps an index that lies below a count that the mask can index.
proof fn lemma_mask_keeps_index(v: u64, bits: nat)
    requires
        bits < 64,
        v <= low_mask(bits),
    ensures
        v & low_mask(bits) == v,
{
    crate::bits::window::lemma_mask_bound(v, bits as u64);
}

/// The mask of fewer bits than a `usize` has lies below `usize::MAX`.
proof fn lemma_mask_below_usize(bits: nat)
    requires
        bits < usize::BITS,
    ensures
        low_mask(bits) < usize::MAX,
{
    let b = bits as u64;
    assert(b < 32 ==> (((1u64 << b) - 1u64) as u64) < 0xffff_ffffu64) by (bit_vector);
    assert(b < 64 ==> (((1u64 << b) - 1u64) as u64) < 0xffff_ffff_ffff_ffffu64) by (bit_vector);
    assert(usize::BITS == 32 || usize::BITS == 64);
}

/// A count of up to 4097 items needs at most 13 bits.
proof fn lemma_req_bits_small(len: nat)
    requires
        1 <= len <= VOXELS_IN_CHUNK + 1,
    ensures
        req_bits_for(len) <= 13,
        req_bits_for(len) < usize::BITS,
        req_bits_for(len) * VOXELS_IN_CHUNK + usize::BITS - 1 <= usize::MAX,
{
    vstd::arithmetic::power2::lemma2_to64();
    crate::chunk::pallet::lemma_req_bits_least(len, 13);
    lemma_req_bits(len);
}

/// In a sequence whose elements all equal `a`, `a` occurs once per element.
proof fn lemma_constant_count(s: Seq<Voxel>, a: Voxel)
    requires
        forall|i: int| 0 <= i < s.len() ==> #[trigger] s[i] == a,
    ensures
        s.to_multiset().count(a) == s.len(),
        forall|b: Voxel| b != a ==> #[trigger] s.to_multiset().count(b) == 0,
    decreases s.len(),
{
    if s.len() > 0 {
        let s2 = s.drop_last();
        lemma_constant_count(s2, a);
        assert(s =~= s2.push(s.last()));
        vstd::seq_lib::to_multiset_build(s2, s.last());
    } else {
        assert(s.to_multiset() =~= Multiset::empty());
    }
}

/// When `a` occurs once and at `t`, it occurs nowhere else.
proof fn lemma_sole_holder(s: Seq<Voxel>, t: int, a: Voxel)
    requires
        0 <= t < s.len(),
        s[t] == a,
        s.to_multiset().count(a) == 1,
    ensures
        forall|i: int| 0 <= i < s.len() && i != t ==> #[trigger] s[i] != a,
{
    let r = s.remove(t);
    assert(r.to_multiset().count(a) == 0);
    assert forall|i: int| 0 <= i < s.len() && i != t implies #[trigger] s[i] != a by {
        let j = if i < t {
            i
        } else {
            i - 1
        };
        assert(r[j] == s[i]);
        if s[i] == a {
            assert(r.contains(a));
        }
    }
}

/// An element occurs no more often than the length of the sequence.
proof fn lemma_multiset_count_le_len(s: Seq<Voxel>, a: Voxel)
    ensures
        s.to_multiset().count(a) <= s.len(),
    decreases s.len(),
{
    if s.len() > 0 {
        let s2 = s.drop_last();
        lemma_multiset_count_le_len(s2, a);
        assert(s =~= s2.push(s.last()));
        vstd::seq_lib::to_multiset_build(s2, s.last());
    } else {
        assert(s.to_multiset() =~= Multiset::empty());
    }
}

/// A kind absent from the pallet does not occur among the voxels other than the target.
proof fn lemma_absent_not_counted(
    v0: Seq<Voxel>,
    t: int,
    p1: Seq<Variant<Voxel>>,
    q1: Seq<u64>,
    voxel: Voxel,
    m1: Multiset<Voxel>,
)
    requires
        0 <= t < v0.len(),
        q1.len() == v0.len(),
        m1 == v0.to_multiset().remove(v0[t]),
        forall|j: int| 0 <= j < p1.len() ==> vkey(#[trigger] p1[j]) != voxel.spec_key(),
        forall|i: int|
            0 <= i < v0.len() && i != t ==> q1[i] < p1.len() && #[trigger] p1[q1[i] as int].spec_inner()
                == v0[i],
    ensures
        m1.count(voxel) == 0,
{
    let r = v0.remove(t);
    assert(r.to_multiset() == m1);
    if r.contains(voxel) {
        let j = choose|j: int| 0 <= j < r.len() && r[j] == voxel;
        let i = if j < t {
            j
        } else {
            j + 1
        };
        assert(v0[i] == voxel);
        assert(vkey(p1[q1[i] as int]) == voxel.spec_key());
    }
}

/// Indices below a count that one bit fewer can index fit in one bit fewer.
proof fn lemma_indices_fit_fewer_bits(q: Seq<u64>, len: nat, bits: nat)
    requires
        len >= 1,
        bits < 64,
        req_bits_for(len) == bits - 1,
        forall|i: int| 0 <= i < q.len() ==> #[trigger] q[i] < len,
    ensures
        forall|i: int| 0 <= i < q.len() ==> #[trigger] q[i] <= low_mask((bits - 1) as nat),
{
    assert forall|i: int| 0 <= i < q.len() implies #[trigger] q[i] <= low_mask((bits - 1) as nat) by {
        lemma_req_bits_mask(len, q[i] as nat);
    }
}

/// A strictly sorted pallet whose variants all occur among the voxels has no more variants
/// than there are voxels.
proof fn lemma_pallet_len_bound(pallet: Seq<Variant<Voxel>>, v: Seq<Voxel>)
    requires
        strictly_sorted(pallet),
        counts_match(pallet, v.to_multiset()),
    ensures
        pallet.len() <= v.len(),
{
    let inners = pallet.map_values(|x: Variant<Voxel>| x.spec_inner());
    assert(inners.no_duplicates()) by {
        assert forall|a: int, b: int| 0 <= a < inners.len() && 0 <= b < inners.len() && a != b implies inners[a]
            != inners[b] by {
            if a < b {
                assert(vkey(pallet[a]) < vkey(pallet[b]));
            } else {
                assert(vkey(pallet[b]) < vkey(pallet[a]));
            }
        }
    }
    inners.unique_seq_to_set();
    v.lemma_cardinality_of_set();
    vstd::seq_lib::seq_to_set_is_finite(v);
    assert(inners.to_set().subset_of(v.to_set())) by {
        assert forall|y: Voxel| inners.to_set().contains(y) implies v.to_set().contains(y) by {
            let k = choose|k: int| 0 <= k < inners.len() && inners[k] == y;
            assert(pallet[k].spec_count() >= 1);
            assert(v.to_multiset().count(y) >= 1);
            assert(v.contains(y));
        }
    }
    vstd::set_lib::lemma_len_subset(inners.to_set(), v.to_set());
}

/// After `set(index, voxel)` succeeds, `get(index)` gives `voxel` and every other index
/// gives what it gave before.
pub proof fn law_read_after_write(
    before: PalletChunk,
    after: PalletChunk,
    index: int,
    other: int,
    voxel: Voxel,
)
    requires
        before.wf(),
        0 <= index < VOXELS_IN_CHUNK,
        after@ == before@.update(index, voxel),
    ensures
        after@[index] == voxel,
        0 <= other < VOXELS_IN_CHUNK && other != index ==> after@[other] == before@[other],
{
    before.lemma_len();
}

/// The pallet lists each kind of voxel the chunk holds exactly once, in increasing order,
/// with the number of voxels of that kind; the stored indices use the fewest bits that can
/// tell the pallet's entries apart.
pub proof fn law_pallet_describes_chunk(chunk: PalletChunk)
    requires
        chunk.wf(),
    ensures
        strictly_sorted(chunk.spec_pallet()),
        counts_match(chunk.spec_pallet(), chunk@.to_multiset()),
        chunk.spec_index_bits() == req_bits_for(chunk.spec_pallet().len()),
        forall|i: int| 0 <= i < VOXELS_IN_CHUNK ==> #[trigger] listed(chunk.spec_pallet(), chunk@[i]),
{
    assert forall|i: int| 0 <= i < VOXELS_IN_CHUNK implies #[trigger] listed(chunk.spec_pallet(), chunk@[i]) by {
        let k = chunk.packed@[i] as int;
        assert(0 <= k < chunk.pallet@.len());
        assert(chunk@[i] == chunk.spec_pallet()[k].spec_inner());
    }
}

/// Whether `voxel` is the kind of some entry of `pallet`.
pub open spec fn listed(pallet: Seq<Variant<Voxel>>, voxel: Voxel) -> bool {
    exists|k: int| 0 <= k < pallet.len() && #[trigger] pallet[k].spec_inner() == voxel
}

} // verus!
