//! Stores byte data in a growing list of slabs and keeps track of which slabs changed
//! since the last synchronisation.
use vstd::prelude::*;

use core::marker::PhantomData;

use crate::buffer::offset::{alloc_bin_size, SlabHandle};
use crate::buffer::slab::{bytes_at, queue_bytes, queue_wf, Slab, SlabAllocation, SlabInfo};

verus! {

/// The alignment every slab size is rounded up to, in bytes.
pub const COPY_BUFFER_ALIGNMENT: u64 = 4;

/// One mebibyte.
pub const MIB: u64 = 1048576;

/// Sizes that govern new slabs.
#[derive(Clone, Copy, Debug)]
pub struct BufferAllocatorSettings {
    pub slab_size: u64,
    pub large_threshold: u64,
}

impl Default for BufferAllocatorSettings {
    fn default() -> (r: Self)
        ensures
            r.slab_size == 16 * MIB,
            r.large_threshold == 8 * MIB,
    {
        Self { slab_size: 16 * MIB, large_threshold: 8 * MIB }
    }
}

/// `n` rounded up to the next multiple of [`COPY_BUFFER_ALIGNMENT`].
pub open spec fn aligned_up(n: int) -> int {
    if n % 4 == 0 {
        n
    } else {
        n + (4 - n % 4)
    }
}

/// The size of a slab made for `len` bytes: the configured slab size, or more when the
/// data needs it.
pub open spec fn new_slab_size(slab_size: int, len: int) -> int {
    if slab_size >= aligned_up(len) {
        slab_size
    } else {
        aligned_up(len)
    }
}

/// Whether two slab slots hold the same thing, as far as what a slab is described by.
pub open spec fn same_slot(a: Option<Slab>, b: Option<Slab>) -> bool {
    match (a, b) {
        (None, None) => true,
        (Some(x), Some(y)) => x.live() == y.live() && x.pending() == y.pending() && x.freeing()
            == y.freeing() && x.capacity() == y.capacity() && x.has_writes() == y.has_writes(),
        _ => false,
    }
}

/// The slots `b` keep every slot of `a` but the one at `except`: its flag and its slab.
pub open spec fn slots_agree_except(
    a: Seq<(bool, Option<Slab>)>,
    b: Seq<(bool, Option<Slab>)>,
    except: int,
) -> bool {
    forall|j: int|
        0 <= j < a.len() && j != except ==> j < b.len() && (#[trigger] b[j]).0 == a[j].0
            && same_slot(b[j].1, a[j].1)
}

/// `data` was stored with `handle` at `offset` in slot `i`, which is marked changed: in
/// the slab that was there, or else in a new slab of `fresh_size` bytes put in the last
/// recycled slot or, when none is recycled, in a slot added at the end. Every other slot
/// is kept.
pub open spec fn stored_at(
    old_slots: Seq<(bool, Option<Slab>)>,
    old_recycled: Seq<usize>,
    slots: Seq<(bool, Option<Slab>)>,
    recycled: Seq<usize>,
    i: int,
    handle: SlabHandle,
    offset: u32,
    data: Seq<u8>,
    fresh_size: int,
) -> bool {
    let fresh = !(i < old_slots.len() && old_slots[i].1 is Some);
    let before_live = if fresh {
        Map::<SlabHandle, (u32, u32)>::empty()
    } else {
        old_slots[i].1->0.live()
    };
    let before_pending = if fresh {
        Map::<int, u8>::empty()
    } else {
        old_slots[i].1->0.pending()
    };
    &&& 0 <= i < slots.len()
    &&& slots[i].0
    &&& slots[i].1 is Some
    &&& slots[i].1->0.live() == before_live.insert(handle, (offset, data.len() as u32))
    &&& slots[i].1->0.pending() == before_pending.union_prefer_right(bytes_at(offset as int, data))
    &&& slots[i].1->0.has_writes()
    &&& fresh ==> slots[i].1->0.capacity() == fresh_size && slots[i].1->0.freeing()
        == Seq::<SlabHandle>::empty()
    &&& !fresh ==> slots[i].1->0.capacity() == old_slots[i].1->0.capacity()
        && slots[i].1->0.freeing() == old_slots[i].1->0.freeing()
    &&& slots_agree_except(old_slots, slots, i)
    &&& if !fresh {
        recycled == old_recycled && slots.len() == old_slots.len()
    } else if old_recycled.len() > 0 {
        i == old_recycled.last() && recycled == old_recycled.drop_last() && slots.len()
            == old_slots.len()
    } else {
        i == old_slots.len() && recycled == old_recycled && slots.len() == old_slots.len() + 1
    }
}

/// Every slab among the first `n` slots refuses `len` bytes.
pub open spec fn refused_before(slots: Seq<(bool, Option<Slab>)>, n: int, len: u32) -> bool {
    forall|j: int|
        0 <= j < n && j < slots.len() && (#[trigger] slots[j]).1 is Some ==> slots[j].1->0.refuses(
            len,
        )
}

/// What a synchronisation does to one changed slot: a dropped slab sends `None`; a slab
/// carries out its waiting frees, hands over its waiting writes (with its size) and keeps
/// nothing waiting; `None` when no write, not even an empty one, waited.
pub open spec fn synced(before: Option<Slab>, after: Option<Slab>, info: Option<SlabInfo>) -> bool {
    match before {
        None => after is None && info is None,
        Some(b) => {
            &&& after is Some
            &&& after->0.live() == b.live().remove_keys(b.freeing().to_set())
            &&& after->0.pending().dom().is_empty()
            &&& !after->0.has_writes()
            &&& after->0.freeing() == Seq::<SlabHandle>::empty()
            &&& after->0.capacity() == b.capacity()
            &&& if !b.has_writes() {
                info is None
            } else {
                &&& info is Some
                &&& info->0.size == b.capacity()
                &&& queue_wf(info->0.queue@)
                &&& info->0.queue@.len() > 0
                &&& queue_bytes(info->0.queue@) == b.pending()
            }
        },
    }
}

/// Data stored through a [`BufferAllocator`]: the slab it went to and its place there.
pub struct BufferAllocation<T> {
    slab_index: usize,
    slab_allocation: SlabAllocation,
    _phantom: PhantomData<T>,
}

impl<T> BufferAllocation<T> {
    /// The slab the data went to.
    pub closed spec fn spec_slab_index(&self) -> usize {
        self.slab_index
    }

    /// The allocation within the slab.
    pub closed spec fn spec_handle(&self) -> SlabHandle {
        self.slab_allocation.allocation
    }

    /// The data's offset within the slab, in bytes.
    pub closed spec fn spec_byte_offset(&self) -> u32 {
        self.slab_allocation.offset
    }

    /// The data's size, in bytes.
    pub closed spec fn spec_byte_size(&self) -> u32 {
        self.slab_allocation.size
    }

    /// The slab the data went to.
    pub fn slab_index(&self) -> (r: usize)
        ensures
            r == self.spec_slab_index(),
    {
        self.slab_index
    }

    /// The data's offset within the slab, in bytes.
    pub fn byte_offset(&self) -> (r: u32)
        ensures
            r == self.spec_byte_offset(),
    {
        self.slab_allocation.offset
    }

    /// The data's size, in bytes.
    pub fn byte_size(&self) -> (r: u32)
        ensures
            r == self.spec_byte_size(),
    {
        self.slab_allocation.size
    }

    /// The data's offset within the slab, in elements of `T`.
    pub fn offset(&self) -> (r: u32)
        requires
            vstd::layout::size_of::<T>() > 0,
            self.spec_byte_offset() as int % vstd::layout::size_of::<T>() as int == 0,
        ensures
            r == self.spec_byte_offset() as int / vstd::layout::size_of::<T>() as int,
    {
        let elem = core::mem::size_of::<T>();
        if elem > self.slab_allocation.offset as usize {
            proof {
                assert(self.spec_byte_offset() as int / elem as int == 0) by (nonlinear_arith)
                    requires
                        0 <= self.spec_byte_offset() < elem,
                ;
            }
            0
        } else {
            let r = self.slab_allocation.offset / (elem as u32);
            r
        }
    }

    /// The data's size, in elements of `T`.
    pub fn size(&self) -> (r: u32)
        requires
            vstd::layout::size_of::<T>() > 0,
            self.spec_byte_size() as int % vstd::layout::size_of::<T>() as int == 0,
        ensures
            r == self.spec_byte_size() as int / vstd::layout::size_of::<T>() as int,
    {
        let elem = core::mem::size_of::<T>();
        if elem > self.slab_allocation.size as usize {
            proof {
                assert(self.spec_byte_size() as int / elem as int == 0) by (nonlinear_arith)
                    requires
                        0 <= self.spec_byte_size() < elem,
                ;
            }
            0
        } else {
            self.slab_allocation.size / (elem as u32)
        }
    }
}

/// Stores data in slabs, making a new slab when none has room, and keeps for each slab
/// whether it changed since the last synchronisation.
pub struct BufferAllocator<T> {
    slabs: Vec<(bool, Option<Slab>)>,
    recycle: Vec<usize>,
    _phantom: PhantomData<T>,
}

impl<T> BufferAllocator<T> {
    /// The slab slots: whether each changed since the last synchronisation, and its slab,
    /// `None` where the slab was dropped.
    pub closed spec fn slots(&self) -> Seq<(bool, Option<Slab>)> {
        self.slabs@
    }

    /// The indices of dropped slabs, whose slots are used again first.
    pub closed spec fn recycled(&self) -> Seq<usize> {
        self.recycle@
    }

    /// Every slab is well formed; the recycled indices are distinct and name empty slots.
    pub closed spec fn wf(&self) -> bool {
        &&& forall|i: int|
            0 <= i < self.slabs@.len() && (#[trigger] self.slabs@[i]).1 is Some ==> self.slabs@[i].1->0.wf()
        &&& self.recycle@.no_duplicates()
        &&& forall|j: int|
            0 <= j < self.recycle@.len() ==> #[trigger] self.recycle@[j] < self.slabs@.len()
                && self.slabs@[self.recycle@[j] as int].1 is None
    }

    /// An allocator with no slab.
    pub fn new() -> (r: Self)
        ensures
            r.wf(),
            r.slots() == Seq::<(bool, Option<Slab>)>::empty(),
            r.recycled() == Seq::<usize>::empty(),
    {
        Self { slabs: Vec::new(), recycle: Vec::new(), _phantom: PhantomData }
    }

    /// Stores `data` in the first slab that takes it, else in a new slab (in a recycled
    /// slot when there is one) of `settings.slab_size` bytes or, when the data needs
    /// more, of its size rounded up to the copy alignment. `None` when every slab, the
    /// new one too, refuses the data; nothing changes then. The new slab does not refuse
    /// the data when the data's size class fits it.
    pub fn store(&mut self, data: &[u8], settings: &BufferAllocatorSettings) -> (r: Option<
        BufferAllocation<T>,
    >)
        requires
            old(self).wf(),
            data@.len() <= u32::MAX - 3,
            settings.slab_size <= u32::MAX,
        ensures
            final(self).wf(),
            r is None ==> final(self).recycled() == old(self).recycled() && final(self).slots()
                == old(self).slots() && refused_before(
                old(self).slots(),
                old(self).slots().len() as int,
                data@.len() as u32,
            ),
            r matches Some(ba) ==> {
                let i = ba.spec_slab_index() as int;
                if i < old(self).slots().len() && old(self).slots()[i].1 is Some {
                    refused_before(old(self).slots(), i, data@.len() as u32) && !old(
                        self,
                    ).slots()[i].1->0.refuses(data@.len() as u32)
                } else {
                    refused_before(
                        old(self).slots(),
                        old(self).slots().len() as int,
                        data@.len() as u32,
                    )
                }
            },
            r matches Some(ba) ==> stored_at(
                old(self).slots(),
                old(self).recycled(),
                final(self).slots(),
                final(self).recycled(),
                ba.spec_slab_index() as int,
                ba.spec_handle(),
                ba.spec_byte_offset(),
                data@,
                new_slab_size(settings.slab_size as int, data@.len() as int),
            ) && ba.spec_byte_size() == data@.len(),
            alloc_bin_size(data@.len() as u32) <= new_slab_size(
                settings.slab_size as int,
                data@.len() as int,
            ) ==> r is Some,
    {
        let ghost old_slabs = self.slabs@;
        let mut slab_index: usize = 0;
        while slab_index < self.slabs.len()
            invariant
                slab_index <= self.slabs@.len(),
                self.slabs@.len() == old_slabs.len(),
                self.recycle@ == old(self).recycle@,
                data@.len() <= u32::MAX - 3,
                old(self).wf(),
                old_slabs == old(self).slabs@,
                self.slabs@ == old_slabs,
                refused_before(old_slabs, slab_index as int, data@.len() as u32),
            decreases self.slabs@.len() - slab_index,
        {
            if self.slabs[slab_index].1.is_some() {
                let mut slot: (bool, Option<Slab>) = (false, None);
                std::mem::swap(&mut slot, &mut self.slabs[slab_index]);
                let (dirty, slab_opt) = slot;
                let mut slab = slab_opt.unwrap();
                let stored = slab.try_store(data);
                match stored {
                    Some(slab_allocation) => {
                        self.slabs[slab_index] = (true, Some(slab));
                        proof {
                            assert forall|j: int| 0 <= j < self.recycle@.len() implies #[trigger] self.recycle@[j]
                                < self.slabs@.len() && self.slabs@[self.recycle@[j] as int].1 is None by {
                                assert(old(self).slabs@[old(self).recycle@[j] as int].1 is None);
                            }
                        }
                        return Some(
                            BufferAllocation { slab_index, slab_allocation, _phantom: PhantomData },
                        );
                    },
                    None => {
                        self.slabs[slab_index] = (dirty, Some(slab));
                        assert(self.slabs@ =~= old_slabs);
                    },
                }
            }
            slab_index = slab_index + 1;
        }
        let len = data.len() as u64;
        let rem = len % COPY_BUFFER_ALIGNMENT;
        let aligned = if rem == 0 {
            len
        } else {
            len + (COPY_BUFFER_ALIGNMENT - rem)
        };
        let slab_size = if settings.slab_size >= aligned {
            settings.slab_size
        } else {
            aligned
        };
        let mut slab = Slab::new(slab_size as u32);
        let slab_allocation = match slab.try_store(data) {
            Some(a) => a,
            None => return None,
        };
        assert(slab_size == new_slab_size(settings.slab_size as int, data@.len() as int));
        let ghost loop_slabs = self.slabs@;
        let ghost old_recycle = self.recycle@;
        let slab_index = match self.recycle.pop() {
            Some(slab_index) => {
                proof {
                    assert(old_recycle.last() == slab_index);
                    assert(old_slabs[slab_index as int].1 is None);
                }
                self.slabs[slab_index] = (true, Some(slab));
                slab_index
            },
            None => {
                self.slabs.push((true, Some(slab)));
                self.slabs.len() - 1
            },
        };
        proof {
            assert(slots_agree_except(old_slabs, self.slabs@, slab_index as int));
        }
        Some(BufferAllocation { slab_index, slab_allocation, _phantom: PhantomData })
    }
    /// Queues the data's allocation to be freed at the next synchronisation; when the
    /// slab then reports all its space free, the slab is dropped, its slot marked changed
    /// and kept for reuse. `Err` when the data's slab was dropped; nothing changes then.
    pub fn free(&mut self, buffer_allocation: &BufferAllocation<T>) -> (r: Result<(), ()>)
        requires
            old(self).wf(),
            buffer_allocation.spec_slab_index() < old(self).slots().len(),
            old(self).slots()[buffer_allocation.spec_slab_index() as int].1 matches Some(s) ==> (
            s.live().contains_key(buffer_allocation.spec_handle()) && !s.freeing().contains(
                buffer_allocation.spec_handle(),
            )),
        ensures
            final(self).wf(),
            ({
                let i = buffer_allocation.spec_slab_index() as int;
                match old(self).slots()[i].1 {
                    None => r is Err && final(self).slots() == old(self).slots()
                        && final(self).recycled() == old(self).recycled(),
                    Some(s) => {
                        let kept = final(self).slots()[i].1 is Some;
                        &&& r is Ok
                        &&& slots_agree_except(old(self).slots(), final(self).slots(), i)
                        &&& final(self).slots().len() == old(self).slots().len()
                        &&& kept ==> final(self).recycled() == old(self).recycled()
                            && final(self).slots()[i].0 == old(self).slots()[i].0
                            && final(self).slots()[i].1->0.live() == s.live()
                            && final(self).slots()[i].1->0.pending() == s.pending()
                            && final(self).slots()[i].1->0.has_writes() == s.has_writes()
                            && final(self).slots()[i].1->0.capacity() == s.capacity()
                            && final(self).slots()[i].1->0.freeing() == s.freeing().push(
                            buffer_allocation.spec_handle(),
                        )
                        &&& !kept ==> final(self).recycled() == old(self).recycled().push(
                            i as usize,
                        ) && final(self).slots()[i].0
                        &&& (exists|a: SlabHandle| #[trigger] s.live().contains_key(a)
                            && s.live()[a].1 > 0) ==> kept
                    },
                }
            }),
    {
        let i = buffer_allocation.slab_index;
        if self.slabs[i].1.is_none() {
            return Err(());
        }
        let mut slot: (bool, Option<Slab>) = (false, None);
        std::mem::swap(&mut slot, &mut self.slabs[i]);
        let (dirty, slab_opt) = slot;
        let mut slab = slab_opt.unwrap();
        slab.free(buffer_allocation.slab_allocation.allocation);
        if slab.is_empty() {
            proof {
                assert(!old(self).recycle@.contains(i)) by {
                    if old(self).recycle@.contains(i) {
                        let j = choose|j: int|
                            0 <= j < old(self).recycle@.len() && old(self).recycle@[j] == i;
                        assert(old(self).slabs@[old(self).recycle@[j] as int].1 is None);
                    }
                }
            }
            self.slabs[i] = (true, None);
            self.recycle.push(i);
        } else {
            self.slabs[i] = (dirty, Some(slab));
        }
        proof {
            assert forall|j: int| 0 <= j < self.recycle@.len() implies #[trigger] self.recycle@[j]
                < self.slabs@.len() && self.slabs@[self.recycle@[j] as int].1 is None by {
                if j < old(self).recycle@.len() {
                    assert(old(self).slabs@[old(self).recycle@[j] as int].1 is None);
                }
            }
        }
        Ok(())
    }

    /// For each slot changed since the last synchronisation, in order: its index and what
    /// its slab sends (see [`synced`]); the slot is then marked unchanged. Slots that did
    /// not change are left alone.
    pub fn sync_info(&mut self) -> (r: Vec<(usize, Option<SlabInfo>)>)
        requires
            old(self).wf(),
        ensures
            final(self).wf(),
            final(self).recycled() == old(self).recycled(),
            final(self).slots().len() == old(self).slots().len(),
            forall|k: int|
                0 <= k < r@.len() ==> (#[trigger] r@[k]).0 < old(self).slots().len() && old(
                    self,
                ).slots()[r@[k].0 as int].0 && synced(
                    old(self).slots()[r@[k].0 as int].1,
                    final(self).slots()[r@[k].0 as int].1,
                    r@[k].1,
                ),
            forall|k: int, l: int| 0 <= k < l < r@.len() ==> #[trigger] r@[k].0 < #[trigger] r@[l].0,
            forall|j: int|
                0 <= j < old(self).slots().len() && #[trigger] old(self).slots()[j].0 ==> exists|
                    k: int,
                | 0 <= k < r@.len() && r@[k].0 == j,
            forall|j: int|
                0 <= j < old(self).slots().len() ==> !(#[trigger] final(self).slots()[j]).0,
            forall|j: int|
                0 <= j < old(self).slots().len() && !old(self).slots()[j].0 ==> same_slot(
                    (#[trigger] final(self).slots()[j]).1,
                    old(self).slots()[j].1,
                ),
    {
        let ghost old_slabs = self.slabs@;
        let mut out: Vec<(usize, Option<SlabInfo>)> = Vec::new();
        let mut index: usize = 0;
        while index < self.slabs.len()
            invariant
                index <= self.slabs@.len(),
                self.slabs@.len() == old_slabs.len(),
                old_slabs == old(self).slabs@,
                old(self).wf(),
                self.recycle@ == old(self).recycle@,
                forall|j: int|
                    0 <= j < self.slabs@.len() ==> (#[trigger] self.slabs@[j]).1 is None == old_slabs[j].1 is None
                        && (self.slabs@[j].1 is Some ==> self.slabs@[j].1->0.wf()),
                forall|k: int|
                    0 <= k < out@.len() ==> (#[trigger] out@[k]).0 < index && old_slabs[out@[k].0 as int].0
                        && synced(old_slabs[out@[k].0 as int].1, self.slabs@[out@[k].0 as int].1, out@[k].1),
                forall|k: int, l: int| 0 <= k < l < out@.len() ==> #[trigger] out@[k].0 < #[trigger] out@[l].0,
                forall|j: int|
                    0 <= j < index && #[trigger] old_slabs[j].0 ==> exists|k: int|
                        0 <= k < out@.len() && out@[k].0 == j,
                forall|j: int| 0 <= j < index ==> !(#[trigger] self.slabs@[j]).0,
                forall|j: int|
                    index <= j < self.slabs@.len() ==> #[trigger] self.slabs@[j] == old_slabs[j],
                forall|j: int|
                    0 <= j < index && !old_slabs[j].0 ==> same_slot(
                        (#[trigger] self.slabs@[j]).1,
                        old_slabs[j].1,
                    ),
            decreases self.slabs@.len() - index,
        {
            let ghost before = out@;
            if self.slabs[index].0 {
                let mut slot: (bool, Option<Slab>) = (false, None);
                std::mem::swap(&mut slot, &mut self.slabs[index]);
                let (_, slab_opt) = slot;
                let (slab_opt, info) = match slab_opt {
                    Some(mut slab) => {
                        let info = slab.slab_info();
                        (Some(slab), info)
                    },
                    None => (None, None),
                };
                self.slabs[index] = (false, slab_opt);
                out.push((index, info));
                proof {
                    assert(out@[out@.len() - 1].0 == index);
                    assert forall|k: int| 0 <= k < out@.len() implies (#[trigger] out@[k]).0 <= index by {
                        if k < before.len() {
                            assert(before[k] == out@[k]);
                        }
                    }
                }
            }
            proof {
                assert forall|j: int| 0 <= j <= index && #[trigger] old_slabs[j].0 implies exists|
                    k: int,
                | 0 <= k < out@.len() && out@[k].0 == j by {
                    if j < index {
                        let k = choose|k: int| 0 <= k < before.len() && before[k].0 == j;
                        assert(out@[k] == before[k]);
                    } else {
                        assert(out@[out@.len() - 1].0 == j);
                    }
                }
            }
            index = index + 1;
        }
        proof {
            assert forall|j: int| 0 <= j < self.recycle@.len() implies #[trigger] self.recycle@[j]
                < self.slabs@.len() && self.slabs@[self.recycle@[j] as int].1 is None by {
                assert(old(self).slabs@[old(self).recycle@[j] as int].1 is None);
            }
        }
        out
    }
}

} // verus!
