//! The sub-allocator that hands out ranges of a slab, as the library sees it.
//!
//! An allocator is described by the allocations that are live in it (each with its
//! offset and size) and by the capacity it was made with. The items below are the
//! only places where the library calls into `offset_allocator`.
use vstd::prelude::*;

use offset_allocator::{Allocation, Allocator};

use vstd::arithmetic::power2::pow2;

verus! {

/// An `offset_allocator::Allocator` over `u32` offsets. Verus cannot take the crate's own
/// declaration of it (it is bound by the crate's `NodeIndex` trait), so it is held here,
/// and what the library knows of it is what the items below state.
#[verifier::external_body]
pub struct SlabAllocator {
    inner: Allocator<u32>,
}

/// An `offset_allocator::Allocation` handed out by a [`SlabAllocator`]; held here for the
/// same reason.
#[verifier::external_body]
#[derive(Copy)]
pub struct SlabHandle {
    inner: Allocation<u32>,
}

impl Clone for SlabHandle {
    fn clone(&self) -> (r: Self)
        ensures
            r == *self,
    {
        *self
    }
}

/// The allocations that are live in an allocator, each with its `(offset, size)`.
pub uninterp spec fn allocator_live(allocator: SlabAllocator) -> Map<SlabHandle, (u32, u32)>;

/// The number of units an allocator was made to manage.
pub uninterp spec fn allocator_capacity(allocator: SlabAllocator) -> u32;

/// Whether two ranges, given by start and length, share no unit.
pub open spec fn ranges_disjoint(a: (u32, u32), b: (u32, u32)) -> bool {
    a.0 + a.1 <= b.0 || b.0 + b.1 <= a.0
}

/// `Allocator::new`: an allocator managing `size` units with nothing allocated.
#[verifier::external_body]
pub fn allocator_new(size: u32) -> (r: SlabAllocator)
    ensures
        allocator_live(r).dom().is_empty(),
        allocator_capacity(r) == size,
{
    SlabAllocator { inner: Allocator::<u32>::new(size) }
}

/// The number of low bits the allocator's size classes drop from `n`: none below `16`,
/// otherwise as many as keep four significant bits.
pub open spec fn dropped_bits(n: nat) -> nat
    decreases n,
{
    if n < 16 {
        0
    } else {
        1 + dropped_bits(n / 2)
    }
}

/// The size class a request of `size` units is served from: `size` rounded up so that
/// it keeps four significant bits (what `offset_allocator::ext::min_allocator_size`
/// computes, the smallest allocator that can hold such a request).
pub open spec fn alloc_bin_size(size: u32) -> nat {
    let step = pow2(dropped_bits(size as nat));
    (((size + step - 1) / step as int) * step) as nat
}

/// Whether an allocator, in the state it is in, refuses a request for `size` units. The
/// answer is a function of the allocator's state and the size alone.
pub uninterp spec fn allocator_refuses(allocator: SlabAllocator, size: u32) -> bool;

/// `Allocator::allocate`: either refuses (`None`, the allocator is left as it was) or
/// hands out a new allocation of exactly `size` units, given with its offset. The new
/// range lies within the capacity and overlaps no live allocation, and the new
/// allocation is not one of the live ones. An allocator with nothing live holds its
/// whole capacity as one free range, so it does not refuse a request whose size class
/// fits that capacity. Whether it refuses otherwise is given by the name
/// [`allocator_refuses`], and which offset is chosen is not stated: both depend on the
/// allocator's bins.
#[verifier::external_body]
pub fn allocator_allocate(allocator: &mut SlabAllocator, size: u32) -> (r: Option<
    (SlabHandle, u32),
>)
    ensures
        allocator_capacity(*final(allocator)) == allocator_capacity(*old(allocator)),
        r is None <==> allocator_refuses(*old(allocator), size),
        r is None ==> *final(allocator) == *old(allocator),
        r is None ==> allocator_live(*final(allocator)) == allocator_live(*old(allocator)),
        allocator_live(*old(allocator)).dom().is_empty() && alloc_bin_size(size)
            <= allocator_capacity(*old(allocator)) ==> r is Some,
        r matches Some((a, offset)) ==> {
            &&& !allocator_live(*old(allocator)).contains_key(a)
            &&& allocator_live(*final(allocator)) == allocator_live(*old(allocator)).insert(
                a,
                (offset, size),
            )
            &&& offset + size <= allocator_capacity(*old(allocator))
            &&& forall|b: SlabHandle|
                #[trigger] allocator_live(*old(allocator)).contains_key(b) ==> ranges_disjoint(
                    (offset, size),
                    allocator_live(*old(allocator))[b],
                )
        },
{
    allocator.inner.allocate(size).map(|a| (SlabHandle { inner: a }, a.offset))
}

/// `Allocator::allocation_size`: the size of a live allocation, the size it was
/// requested with.
#[verifier::external_body]
pub fn allocator_allocation_size(allocator: &SlabAllocator, allocation: SlabHandle) -> (r:
    u32)
    requires
        allocator_live(*allocator).contains_key(allocation),
    ensures
        r == allocator_live(*allocator)[allocation].1,
{
    allocator.inner.allocation_size(allocation.inner)
}

/// `Allocator::free`: returns a live allocation to the allocator. Freeing an allocation
/// that is not live panics, so it is left out.
#[verifier::external_body]
pub fn allocator_free(allocator: &mut SlabAllocator, allocation: SlabHandle)
    requires
        allocator_live(*old(allocator)).contains_key(allocation),
    ensures
        allocator_capacity(*final(allocator)) == allocator_capacity(*old(allocator)),
        allocator_live(*final(allocator)) == allocator_live(*old(allocator)).remove(allocation),
{
    allocator.inner.free(allocation.inner)
}

/// `Allocator::storage_report().total_free_space`: never above the capacity; the whole
/// capacity when nothing is live; below it while an allocation of positive size is live.
/// Its exact value otherwise is not stated.
#[verifier::external_body]
pub fn allocator_total_free_space(allocator: &SlabAllocator) -> (r: u32)
    ensures
        r <= allocator_capacity(*allocator),
        allocator_live(*allocator).dom().is_empty() ==> r == allocator_capacity(*allocator),
        (exists|a: SlabHandle|
            #[trigger] allocator_live(*allocator).contains_key(a) && allocator_live(
                *allocator,
            )[a].1 > 0) ==> r < allocator_capacity(*allocator),
{
    allocator.inner.storage_report().total_free_space
}

} // verus!
