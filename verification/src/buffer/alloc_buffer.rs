//! Slabs whose data is written straight into their buffers: this side decides which slab
//! (and which range of it) takes each piece of data, and when a slab is made or dropped;
//! the caller creates the buffers and writes the bytes.
use vstd::prelude::*;

use core::marker::PhantomData;

use crate::buffer::allocator::aligned_up;
use crate::buffer::offset::{
    alloc_bin_size, allocator_allocate, allocator_capacity, allocator_free, allocator_live, allocator_new,
    allocator_refuses,
    allocator_total_free_space, ranges_disjoint, SlabAllocator, SlabHandle,
};

verus! {

/// Sizes that govern the slabs.
#[derive(Clone, Copy, Debug)]
pub struct AllocBufferSettings {
    pub slab_size: u32,
    pub large_threshold: usize,
}

impl Default for AllocBufferSettings {
    fn default() -> (r: Self)
        ensures
            r.slab_size == 16777216,
            r.large_threshold == 8388608,
    {
        Self { slab_size: 16777216, large_threshold: 8388608 }
    }
}

/// The number of bytes `len` bytes of elements of `elem_size` bytes take in a buffer:
/// rounded up to a multiple of four when the element size is not one.
pub fn padded_len(len: usize, elem_size: usize) -> (r: usize)
    requires
        len <= usize::MAX - 3,
    ensures
        elem_size % 4 == 0 ==> r == len,
        elem_size % 4 != 0 ==> r == aligned_up(len as int),
{
    if elem_size % 4 == 0 {
        len
    } else if len % 4 == 0 {
        len
    } else {
        len + (4 - len % 4)
    }
}

/// A slab's allocator with the size of its buffer.
pub struct AllocSlab {
    allocator: SlabAllocator,
    size: u32,
}

impl AllocSlab {
    /// The live allocations of the slab, each with its `(offset, size)`.
    pub closed spec fn live(&self) -> Map<SlabHandle, (u32, u32)> {
        allocator_live(self.allocator)
    }

    /// The size of the slab's buffer.
    pub closed spec fn size(&self) -> u32 {
        self.size
    }

    /// Whether the slab's allocator, as it stands, refuses `len` bytes.
    pub closed spec fn refuses(&self, len: u32) -> bool {
        allocator_refuses(self.allocator, len)
    }

    /// The allocator manages exactly the buffer.
    pub closed spec fn wf(&self) -> bool {
        allocator_capacity(self.allocator) == self.size
    }

    /// Whether the slab's free space is its whole buffer: so when nothing is live, and
    /// not while something of positive size is.
    pub fn is_empty(&self) -> (r: bool)
        requires
            self.wf(),
        ensures
            self.live().dom().is_empty() ==> r,
            (exists|a: SlabHandle| #[trigger] self.live().contains_key(a) && self.live()[a].1 > 0)
                ==> !r,
    {
        allocator_total_free_space(&self.allocator) == self.size
    }
}

/// Data placed in a slab: the slab's key and the allocation with its offset and size.
pub struct Allocation<T> {
    allocation: SlabHandle,
    offset: u32,
    size: u32,
    slab_key: usize,
    _marker: PhantomData<T>,
}

impl<T> Allocation<T> {
    /// The slab's key.
    pub closed spec fn spec_slab_key(&self) -> usize {
        self.slab_key
    }

    /// The allocation within the slab.
    pub closed spec fn spec_handle(&self) -> SlabHandle {
        self.allocation
    }

    /// The offset within the slab's buffer, in bytes.
    pub closed spec fn spec_byte_offset(&self) -> u32 {
        self.offset
    }

    /// The number of bytes placed.
    pub closed spec fn spec_byte_size(&self) -> u32 {
        self.size
    }

    /// The offset within the slab's buffer, in bytes.
    pub fn byte_offset(&self) -> (r: u32)
        ensures
            r == self.spec_byte_offset(),
    {
        self.offset
    }

    /// The offset within the slab's buffer, in elements of `T`.
    pub fn offset(&self) -> (r: u32)
        requires
            vstd::layout::size_of::<T>() > 0,
        ensures
            r == self.spec_byte_offset() as int / vstd::layout::size_of::<T>() as int,
    {
        let elem = core::mem::size_of::<T>();
        if elem > self.offset as usize {
            proof {
                assert(self.spec_byte_offset() as int / elem as int == 0) by (nonlinear_arith)
                    requires
                        0 <= self.spec_byte_offset() < elem,
                ;
            }
            0
        } else {
            self.offset / (elem as u32)
        }
    }

    /// The slab's key.
    pub fn slab_key(&self) -> (r: usize)
        ensures
            r == self.spec_slab_key(),
    {
        self.slab_key
    }
}

/// Every slab among the first `n` slots refuses `len` bytes.
pub open spec fn slabs_refuse_before(slots: Seq<Option<AllocSlab>>, n: int, len: u32) -> bool {
    forall|j: int|
        0 <= j < n && j < slots.len() && (#[trigger] slots[j]) is Some ==> slots[j]->0.refuses(len)
}

/// Whether data of `len` bytes may go into a slab that already exists.
pub open spec fn small_enough(settings: AllocBufferSettings, len: int) -> bool {
    settings.large_threshold >= len
}

/// The slabs, each under a key that stays while the slab lives; keys of dropped slabs are
/// given out again, the last dropped first.
pub struct InnerAllocBuffer<T> {
    slabs: Vec<Option<AllocSlab>>,
    free_keys: Vec<usize>,
    settings: AllocBufferSettings,
    _marker: PhantomData<T>,
}

impl<T> InnerAllocBuffer<T> {
    /// The slab under each key, `None` where none lives.
    pub closed spec fn slots(&self) -> Seq<Option<AllocSlab>> {
        self.slabs@
    }

    /// The keys to give out again, the next one last.
    pub closed spec fn free_keys(&self) -> Seq<usize> {
        self.free_keys@
    }

    /// The sizes that govern the slabs.
    pub closed spec fn spec_settings(&self) -> AllocBufferSettings {
        self.settings
    }

    /// The sizes that govern the slabs.
    pub fn settings(&self) -> (r: AllocBufferSettings)
        ensures
            r == self.spec_settings(),
    {
        self.settings
    }

    /// Every slab is well formed; the free keys are distinct and name empty slots.
    pub closed spec fn wf(&self) -> bool {
        &&& forall|i: int|
            0 <= i < self.slabs@.len() && (#[trigger] self.slabs@[i]) is Some ==> self.slabs@[i]->0.wf()
        &&& self.free_keys@.no_duplicates()
        &&& forall|j: int|
            0 <= j < self.free_keys@.len() ==> #[trigger] self.free_keys@[j] < self.slabs@.len()
                && self.slabs@[self.free_keys@[j] as int] is None
    }

    /// No slab yet.
    pub fn new(settings: AllocBufferSettings) -> (r: Self)
        ensures
            r.wf(),
            r.slots() == Seq::<Option<AllocSlab>>::empty(),
            r.free_keys() == Seq::<usize>::empty(),
            r.spec_settings() == settings,
    {
        Self { slabs: Vec::new(), free_keys: Vec::new(), settings, _marker: PhantomData }
    }

    /// Places `len` bytes. Data no larger than `large_threshold` goes into the first slab
    /// (by key) that takes it; otherwise, or when none does, into a new slab of
    /// `max(slab_size, len)` bytes, whose size comes back so that its buffer can be
    /// created. `None` when even the new slab refuses; nothing changes then. The new slab
    /// does not refuse data whose size class fits it.
    pub fn store(&mut self, len: usize) -> (r: Option<(Allocation<T>, Option<u32>)>)
        requires
            old(self).wf(),
            len <= u32::MAX,
        ensures
            final(self).wf(),
            final(self).spec_settings() == old(self).spec_settings(),
            r is None ==> final(self).free_keys() == old(self).free_keys() && final(self).slots()
                == old(self).slots(),
            r is None && small_enough(old(self).spec_settings(), len as int) ==> slabs_refuse_before(
                old(self).slots(),
                old(self).slots().len() as int,
                len as u32,
            ),
            r matches Some((a, made)) ==> if made is None {
                slabs_refuse_before(old(self).slots(), a.spec_slab_key() as int, len as u32)
                    && !old(self).slots()[a.spec_slab_key() as int]->0.refuses(len as u32)
            } else {
                small_enough(old(self).spec_settings(), len as int) ==> slabs_refuse_before(
                    old(self).slots(),
                    old(self).slots().len() as int,
                    len as u32,
                )
            },
            r matches Some((a, made)) ==> placed(
                old(self).slots(),
                old(self).free_keys(),
                final(self).slots(),
                final(self).free_keys(),
                a.spec_slab_key() as int,
                a.spec_handle(),
                a.spec_byte_offset(),
                len as u32,
                made,
                if old(self).spec_settings().slab_size >= len {
                    old(self).spec_settings().slab_size
                } else {
                    len as u32
                },
            ) && a.spec_byte_size() == len && (made is None ==> small_enough(
                old(self).spec_settings(),
                len as int,
            )),
            alloc_bin_size(len as u32) <= (if old(self).spec_settings().slab_size >= len {
                old(self).spec_settings().slab_size
            } else {
                len as u32
            }) ==> r is Some,
    {
        let ghost old_slabs = self.slabs@;
        if self.settings.large_threshold >= len {
            let mut key: usize = 0;
            while key < self.slabs.len()
                invariant
                    key <= self.slabs@.len(),
                    self.slabs@.len() == old_slabs.len(),
                    old_slabs == old(self).slabs@,
                    old(self).wf(),
                    self.free_keys@ == old(self).free_keys@,
                    self.settings == old(self).settings,
                    small_enough(self.settings, len as int),
                    len <= u32::MAX,
                    self.slabs@ == old_slabs,
                    slabs_refuse_before(old_slabs, key as int, len as u32),
                decreases self.slabs@.len() - key,
            {
                if self.slabs[key].is_some() {
                    let mut slot: Option<AllocSlab> = None;
                    std::mem::swap(&mut slot, &mut self.slabs[key]);
                    let mut slab = slot.unwrap();
                    let placed = allocator_allocate(&mut slab.allocator, len as u32);
                    self.slabs[key] = Some(slab);
                    if placed.is_none() {
                        assert(self.slabs@ =~= old_slabs);
                    }
                    if let Some((allocation, offset)) = placed {
                        proof {
                            assert forall|j: int| 0 <= j < self.free_keys@.len() implies #[trigger] self.free_keys@[j]
                                < self.slabs@.len() && self.slabs@[self.free_keys@[j] as int] is None by {
                                assert(old(self).slabs@[old(self).free_keys@[j] as int] is None);
                            }
                        }
                        return Some(
                            (
                                Allocation {
                                    allocation,
                                    offset,
                                    size: len as u32,
                                    slab_key: key,
                                    _marker: PhantomData,
                                },
                                None,
                            ),
                        );
                    }
                }
                key = key + 1;
            }
        }
        let size = if self.settings.slab_size >= len as u32 {
            self.settings.slab_size
        } else {
            len as u32
        };
        let mut slab = AllocSlab { allocator: allocator_new(size), size };
        let ghost live0 = slab.live();
        assert(live0 =~= Map::<SlabHandle, (u32, u32)>::empty());
        let (allocation, offset) = match allocator_allocate(&mut slab.allocator, len as u32) {
            Some(p) => p,
            None => return None,
        };
        let ghost old_keys = self.free_keys@;
        let key = match self.free_keys.pop() {
            Some(key) => {
                proof {
                    assert(old_keys.last() == key);
                    assert(old_slabs[key as int] is None);
                }
                self.slabs[key] = Some(slab);
                key
            },
            None => {
                self.slabs.push(Some(slab));
                self.slabs.len() - 1
            },
        };
        proof {
            assert(self.slabs@[key as int] is Some);
            assert(self.slabs@[key as int]->0.live() == live0.insert(allocation, (offset, len as u32)));
            assert(forall|j: int| 0 <= j < old_slabs.len() && j != key ==> j < self.slabs@.len() && same_slab(#[trigger] self.slabs@[j], old_slabs[j]));
            assert forall|j: int| 0 <= j < self.free_keys@.len() implies #[trigger] self.free_keys@[j]
                < self.slabs@.len() && self.slabs@[self.free_keys@[j] as int] is None by {
                assert(old_slabs[old_keys[j] as int] is None);
            }
        }
        Some(
            (
                Allocation { allocation, offset, size: len as u32, slab_key: key, _marker: PhantomData },
                Some(size),
            ),
        )
    }

    /// Frees an allocation; when its slab then has all its space free, the slab is
    /// dropped and its key kept for reuse. Returns whether the slab was dropped.
    pub fn free(&mut self, allocation: Allocation<T>) -> (r: bool)
        requires
            old(self).wf(),
            allocation.spec_slab_key() < old(self).slots().len(),
            old(self).slots()[allocation.spec_slab_key() as int] is Some,
            old(self).slots()[allocation.spec_slab_key() as int]->0.live().contains_key(
                allocation.spec_handle(),
            ),
        ensures
            final(self).wf(),
            final(self).spec_settings() == old(self).spec_settings(),
            final(self).slots().len() == old(self).slots().len(),
            ({
                let k = allocation.spec_slab_key() as int;
                let before = old(self).slots()[k]->0;
                let remaining = before.live().remove(allocation.spec_handle());
                &&& forall|j: int|
                    0 <= j < old(self).slots().len() && j != k ==> same_slab(
                        #[trigger] final(self).slots()[j],
                        old(self).slots()[j],
                    )
                &&& r ==> final(self).slots()[k] is None && final(self).free_keys() == old(
                    self,
                ).free_keys().push(k as usize)
                &&& !r ==> final(self).free_keys() == old(self).free_keys() && final(self).slots()[k] is Some
                    && final(self).slots()[k]->0.live() == remaining && final(self).slots()[k]->0.size()
                    == before.size()
                &&& remaining.dom().is_empty() ==> r
                &&& (exists|a: SlabHandle| #[trigger] remaining.contains_key(a) && remaining[a].1 > 0)
                    ==> !r
            }),
    {
        let key = allocation.slab_key;
        let mut slot: Option<AllocSlab> = None;
        std::mem::swap(&mut slot, &mut self.slabs[key]);
        let mut slab = slot.unwrap();
        allocator_free(&mut slab.allocator, allocation.allocation);
        assert(slab.live() == old(self).slabs@[key as int]->0.live().remove(allocation.allocation));
        assert(slab.wf());
        let empty = slab.is_empty();
        if empty {
            proof {
                assert(!old(self).free_keys@.contains(key)) by {
                    if old(self).free_keys@.contains(key) {
                        let j = choose|j: int| 0 <= j < old(self).free_keys@.len() && old(self).free_keys@[j] == key;
                        assert(old(self).slabs@[old(self).free_keys@[j] as int] is None);
                    }
                }
            }
            self.free_keys.push(key);
        } else {
            self.slabs[key] = Some(slab);
        }
        proof {
            assert forall|j: int| 0 <= j < self.free_keys@.len() implies #[trigger] self.free_keys@[j]
                < self.slabs@.len() && self.slabs@[self.free_keys@[j] as int] is None by {
                if j < old(self).free_keys@.len() {
                    assert(old(self).slabs@[old(self).free_keys@[j] as int] is None);
                }
            }
        }
        proof {
            let k = key as int;
            let remaining = old(self).slabs@[k]->0.live().remove(allocation.allocation);
            assert(remaining == slab.live());
            if empty {
                assert(self.slabs@[k] is None);
            } else {
                assert(self.slabs@[k] == Some(slab));
            }
            assert forall|j: int| 0 <= j < old(self).slabs@.len() && j != k implies same_slab(
                #[trigger] self.slabs@[j],
                old(self).slabs@[j],
            ) by {
                assert(self.slabs@[j] == old(self).slabs@[j]);
            }
        }
        empty
    }
}

/// Whether two slots hold the same thing, as far as a slab is described by.
pub open spec fn same_slab(a: Option<AllocSlab>, b: Option<AllocSlab>) -> bool {
    match (a, b) {
        (None, None) => true,
        (Some(x), Some(y)) => x.live() == y.live() && x.size() == y.size(),
        _ => false,
    }
}

/// `len` bytes were placed with `handle` at `offset` in slot `k`: in the slab that lived
/// there (`made` is `None`), or in a new slab of `fresh_size` bytes (`made` is
/// `Some(fresh_size)`) put under the last free key or, when there is none, under a new key
/// at the end. Every other slot is kept.
pub open spec fn placed(
    old_slots: Seq<Option<AllocSlab>>,
    old_keys: Seq<usize>,
    slots: Seq<Option<AllocSlab>>,
    keys: Seq<usize>,
    k: int,
    handle: SlabHandle,
    offset: u32,
    len: u32,
    made: Option<u32>,
    fresh_size: u32,
) -> bool {
    let before = if made is None {
        old_slots[k]->0.live()
    } else {
        Map::<SlabHandle, (u32, u32)>::empty()
    };
    &&& 0 <= k < slots.len()
    &&& slots[k] is Some
    &&& !before.contains_key(handle)
    &&& slots[k]->0.live() == before.insert(handle, (offset, len))
    &&& offset + len <= slots[k]->0.size()
    &&& forall|b: SlabHandle| #[trigger] before.contains_key(b) ==> ranges_disjoint((offset, len), before[b])
    &&& forall|j: int| 0 <= j < old_slots.len() && j != k ==> j < slots.len() && same_slab(#[trigger] slots[j], old_slots[j])
    &&& match made {
        None => k < old_slots.len() && old_slots[k] is Some && slots[k]->0.size() == old_slots[k]->0.size()
            && keys == old_keys && slots.len() == old_slots.len(),
        Some(size) => size == fresh_size && slots[k]->0.size() == size && if old_keys.len() > 0 {
            k == old_keys.last() && keys == old_keys.drop_last() && slots.len() == old_slots.len()
        } else {
            k == old_slots.len() && keys == old_keys && slots.len() == old_slots.len() + 1
        },
    }
}

} // verus!
