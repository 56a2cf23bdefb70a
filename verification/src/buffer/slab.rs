//! A slab: one GPU buffer's worth of space, sub-allocated, with the writes and frees
//! that wait for the next synchronisation.
use vstd::prelude::*;


use crate::buffer::offset::{
    allocator_allocate, allocator_allocation_size, allocator_capacity, allocator_free,
    alloc_bin_size, allocator_live, allocator_new, allocator_refuses, allocator_total_free_space, ranges_disjoint,
    SlabAllocator,
    SlabHandle,
};

verus! {

broadcast use vstd::seq_lib::group_seq_properties;

/// A pending write: `data` goes to the slab at `offset`.
pub struct QueueElement {
    pub offset: u64,
    pub data: Vec<u8>,
}

impl QueueElement {
    /// One past the last unit the write covers.
    pub open spec fn spec_end(&self) -> int {
        self.offset + self.data@.len()
    }

    /// Whether the write covers unit `k`.
    pub open spec fn holds(&self, k: int) -> bool {
        self.offset <= k < self.spec_end()
    }

    /// The byte the write puts at unit `k`.
    pub open spec fn byte_at(&self, k: int) -> u8 {
        self.data@[k - self.offset]
    }

    fn end(&self) -> (r: u64)
        requires
            self.spec_end() <= u64::MAX,
        ensures
            r == self.spec_end(),
    {
        self.offset + self.data.len() as u64
    }

}

/// The bytes `data` placed from unit `offset` on.
pub open spec fn bytes_at(offset: int, data: Seq<u8>) -> Map<int, u8> {
    Map::new(|k: int| offset <= k < offset + data.len(), |k: int| data[k - offset])
}

/// A write queue is sorted by offset, and no two of its writes touch (an empty write
/// neither).
pub open spec fn queue_wf(q: Seq<QueueElement>) -> bool {
    forall|i: int, j: int| 0 <= i < j < q.len() ==> #[trigger] q[i].spec_end() < #[trigger] q[j].offset
}

/// Whether some write of the queue covers unit `k`.
pub open spec fn queue_holds(q: Seq<QueueElement>, k: int) -> bool {
    exists|i: int| 0 <= i < q.len() && #[trigger] q[i].holds(k)
}

/// The bytes a write queue will put into the slab, by unit.
pub open spec fn queue_bytes(q: Seq<QueueElement>) -> Map<int, u8> {
    Map::new(
        |k: int| queue_holds(q, k),
        |k: int|
            {
                let i = choose|i: int| 0 <= i < q.len() && #[trigger] q[i].holds(k);
                q[i].byte_at(k)
            },
    )
}

/// In a well-formed queue, the byte at a unit is the one of the write that covers it.
pub proof fn lemma_queue_byte(q: Seq<QueueElement>, i: int, k: int)
    requires
        queue_wf(q),
        0 <= i < q.len(),
        q[i].holds(k),
    ensures
        queue_bytes(q).contains_key(k),
        queue_bytes(q)[k] == q[i].byte_at(k),
{
    assert(queue_holds(q, k));
    let j = choose|j: int| 0 <= j < q.len() && #[trigger] q[j].holds(k);
    if j < i {
        assert(q[j].spec_end() < q[i].offset);
    } else if i < j {
        assert(q[i].spec_end() < q[j].offset);
    }
}

/// Replacing the writes `lo..hi` around the insertion point `i` of a new write `d` at
/// `o` by one write `m`, made of the touching neighbours with `d` between them, keeps the
/// queue well formed and adds exactly the bytes of `d`.
proof fn lemma_splice(
    q: Seq<QueueElement>,
    i: int,
    below: bool,
    above: bool,
    o: int,
    d: Seq<u8>,
    m: QueueElement,
    bound: int,
)
    requires
        queue_wf(q),
        0 <= i <= q.len(),
        d.len() > 0,
        o + d.len() <= bound,
        forall|j: int| 0 <= j < q.len() ==> #[trigger] q[j].spec_end() <= bound,
        below ==> i > 0 && q[i - 1].spec_end() == o,
        !below && i > 0 ==> q[i - 1].spec_end() < o,
        above ==> i < q.len() && q[i].offset == o + d.len(),
        !above && i < q.len() ==> o + d.len() < q[i].offset,
        m.offset == (if below {
            q[i - 1].offset as int
        } else {
            o
        }),
        m.data@ == (if below {
            q[i - 1].data@
        } else {
            Seq::<u8>::empty()
        }) + d + (if above {
            q[i].data@
        } else {
            Seq::<u8>::empty()
        }),
    ensures
        ({
            let lo = if below {
                i - 1
            } else {
                i
            };
            let hi = if above {
                i + 1
            } else {
                i
            };
            let q2 = q.subrange(0, lo) + seq![m] + q.subrange(hi, q.len() as int);
            &&& queue_wf(q2)
            &&& queue_bytes(q2) == queue_bytes(q).union_prefer_right(bytes_at(o, d))
            &&& forall|j: int| 0 <= j < q2.len() ==> #[trigger] q2[j].spec_end() <= bound
        }),
{
    let lo = if below {
        i - 1
    } else {
        i
    };
    let hi = if above {
        i + 1
    } else {
        i
    };
    let q2 = q.subrange(0, lo) + seq![m] + q.subrange(hi, q.len() as int);
    let shift = hi - lo - 1;
    let bl = if below {
        q[i - 1].data@.len() as int
    } else {
        0
    };
    assert(q2.len() == q.len() - shift);
    assert(forall|j: int| 0 <= j < lo ==> q2[j] == q[j]);
    assert(q2[lo] == m);
    assert(forall|j: int| lo < j < q2.len() ==> q2[j] == q[j + shift]);
    assert(m.offset == o - bl);
    assert(m.spec_end() == if above {
        q[i].spec_end()
    } else {
        o + d.len()
    });
    // Everything before the insertion point ends before `m` starts, everything after
    // starts after `m` ends.
    assert forall|j: int| 0 <= j < lo implies #[trigger] q[j].spec_end() < m.offset by {
        if below {
            assert(q[j].spec_end() < q[i - 1].offset);
        } else {
            assert(q[j].spec_end() <= q[i - 1].spec_end());
        }
    }
    assert forall|j: int| hi <= j < q.len() implies m.spec_end() < #[trigger] q[j].offset by {
        if above {
            assert(q[i].spec_end() < q[j].offset);
        } else if j > i {
            assert(q[i].spec_end() < q[j].offset);
        }
    }
    assert forall|a: int, b: int| 0 <= a < b < q2.len() implies #[trigger] q2[a].spec_end()
        < #[trigger] q2[b].offset by {
        if b < lo {
        } else if a < lo && b == lo {
        } else if a < lo {
            assert(q[a].spec_end() < q[b + shift].offset);
        } else if a == lo {
            assert(m.spec_end() < q[b + shift].offset);
        } else {
            assert(q[a + shift].spec_end() < q[b + shift].offset);
        }
    }
    assert forall|j: int| 0 <= j < q2.len() implies #[trigger] q2[j].spec_end() <= bound by {
        if j < lo {
        } else if j == lo {
            if above {
                assert(q[i].spec_end() <= bound);
            }
        } else {
            assert(q[j + shift].spec_end() <= bound);
        }
    }
    assert(queue_wf(q2));
    let target = queue_bytes(q).union_prefer_right(bytes_at(o, d));
    // Every unit `m` covers: the lower neighbour's, then `d`'s, then the upper one's.
    assert forall|k: int| #[trigger] m.holds(k) implies target.contains_key(k) && target[k]
        == m.byte_at(k) by {
        if k < o {
            assert(below);
            assert(q[i - 1].holds(k));
            lemma_queue_byte(q, i - 1, k);
            assert(m.data@[k - m.offset] == q[i - 1].data@[k - m.offset]);
        } else if k < o + d.len() {
            assert(m.data@[k - m.offset] == d[k - o]);
        } else {
            assert(above);
            assert(q[i].holds(k));
            lemma_queue_byte(q, i, k);
            assert(m.data@[k - m.offset] == q[i].data@[k - o - d.len()]);
        }
    }
    assert forall|k: int| #[trigger] queue_bytes(q2).contains_key(k) implies target.contains_key(
        k,
    ) && queue_bytes(q2)[k] == target[k] by {
        let j = choose|j: int| 0 <= j < q2.len() && #[trigger] q2[j].holds(k);
        lemma_queue_byte(q2, j, k);
        if j < lo {
            lemma_queue_byte(q, j, k);
            assert(!(o <= k < o + d.len())) by {
                assert(q[j].spec_end() < m.offset);
            }
        } else if j == lo {
        } else {
            lemma_queue_byte(q, j + shift, k);
            assert(!(o <= k < o + d.len())) by {
                assert(m.spec_end() < q[j + shift].offset);
            }
        }
    }
    assert forall|k: int| #[trigger] target.contains_key(k) implies queue_bytes(q2).contains_key(
        k,
    ) by {
        if o <= k < o + d.len() {
            assert(m.holds(k));
            lemma_queue_byte(q2, lo, k);
        } else {
            let j = choose|j: int| 0 <= j < q.len() && #[trigger] q[j].holds(k);
            if j < lo {
                assert(q2[j].holds(k));
                lemma_queue_byte(q2, j, k);
            } else if j >= hi {
                assert(q2[j - shift].holds(k));
                lemma_queue_byte(q2, j - shift, k);
            } else {
                assert(m.holds(k));
                lemma_queue_byte(q2, lo, k);
            }
        }
    }
    assert(queue_bytes(q2) =~= target);
}

/// Writes spliced as in [`lemma_splice`] all start where an allocation starts when the
/// old ones and the new one do.
proof fn lemma_splice_starts(
    q: Seq<QueueElement>,
    i: int,
    below: bool,
    above: bool,
    o: int,
    m: QueueElement,
    live: Map<SlabHandle, (u32, u32)>,
)
    requires
        0 <= i <= q.len(),
        below ==> i > 0,
        above ==> i < q.len(),
        forall|j: int| 0 <= j < q.len() ==> starts_allocation(live, #[trigger] q[j].offset as int),
        starts_allocation(live, o),
        m.offset == (if below {
            q[i - 1].offset as int
        } else {
            o
        }),
    ensures
        ({
            let lo = if below {
                i - 1
            } else {
                i
            };
            let hi = if above {
                i + 1
            } else {
                i
            };
            let q2 = q.subrange(0, lo) + seq![m] + q.subrange(hi, q.len() as int);
            forall|j: int| 0 <= j < q2.len() ==> starts_allocation(live, #[trigger] q2[j].offset as int)
        }),
{
    let lo = if below {
        i - 1
    } else {
        i
    };
    let hi = if above {
        i + 1
    } else {
        i
    };
    let q2 = q.subrange(0, lo) + seq![m] + q.subrange(hi, q.len() as int);
    assert forall|j: int| 0 <= j < q2.len() implies starts_allocation(live, #[trigger] q2[j].offset as int) by {
        if j < lo {
            assert(q2[j] == q[j]);
        } else if j == lo {
            if below {
                assert(starts_allocation(live, q[i - 1].offset as int));
            }
        } else {
            assert(q2[j] == q[j + hi - lo - 1]);
        }
    }
}

/// Dropping an empty write keeps the queue well formed and the bytes it puts.
proof fn lemma_remove_empty(q: Seq<QueueElement>, i: int)
    requires
        queue_wf(q),
        0 <= i < q.len(),
        q[i].data@.len() == 0,
    ensures
        queue_wf(q.remove(i)),
        queue_bytes(q.remove(i)) == queue_bytes(q),
        forall|k: int| queue_holds(q.remove(i), k) == queue_holds(q, k),
{
    let q2 = q.remove(i);
    assert forall|a: int, b: int| 0 <= a < b < q2.len() implies #[trigger] q2[a].spec_end()
        < #[trigger] q2[b].offset by {
        let a0 = if a < i { a } else { a + 1 };
        let b0 = if b < i { b } else { b + 1 };
        assert(q2[a] == q[a0] && q2[b] == q[b0]);
    }
    assert forall|k: int| queue_holds(q2, k) == queue_holds(q, k) by {
        if queue_holds(q, k) {
            let j = choose|j: int| 0 <= j < q.len() && #[trigger] q[j].holds(k);
            if j < i {
                assert(q2[j].holds(k));
            } else {
                assert(j != i);
                assert(q2[j - 1].holds(k));
            }
        }
        if queue_holds(q2, k) {
            let j = choose|j: int| 0 <= j < q2.len() && #[trigger] q2[j].holds(k);
            if j < i {
                assert(q[j].holds(k));
            } else {
                assert(q[j + 1].holds(k));
            }
        }
    }
    assert forall|k: int| #[trigger] queue_holds(q2, k) implies queue_bytes(q2)[k]
        == queue_bytes(q)[k] by {
        let j = choose|j: int| 0 <= j < q2.len() && #[trigger] q2[j].holds(k);
        lemma_queue_byte(q2, j, k);
        if j < i {
            lemma_queue_byte(q, j, k);
        } else {
            lemma_queue_byte(q, j + 1, k);
        }
    }
    assert(queue_bytes(q2) =~= queue_bytes(q));
}

/// `src` copied onto the end of `dst`.
fn append_bytes(dst: &mut Vec<u8>, src: &[u8])
    requires
        old(dst)@.len() + src@.len() <= usize::MAX,
    ensures
        final(dst)@ == old(dst)@ + src@,
{
    let mut i: usize = 0;
    while i < src.len()
        invariant
            i <= src@.len(),
            dst@ == old(dst)@ + src@.subrange(0, i as int),
            old(dst)@.len() + src@.len() <= usize::MAX,
        decreases src@.len() - i,
    {
        dst.push(src[i]);
        i = i + 1;
        assert(src@.subrange(0, i as int) == src@.subrange(0, i - 1) + seq![src@[i - 1]]);
    }
    assert(src@.subrange(0, src@.len() as int) == src@);
}

/// `data` followed by zeros up to `len` bytes.
fn padded(data: &[u8], len: usize) -> (r: Vec<u8>)
    requires
        data@.len() <= len,
    ensures
        r@.len() == len,
        r@.subrange(0, data@.len() as int) == data@,
        forall|k: int| data@.len() <= k < len ==> r@[k] == 0,
{
    let mut vec: Vec<u8> = Vec::with_capacity(len);
    append_bytes(&mut vec, data);
    while vec.len() < len
        invariant
            data@.len() <= vec@.len() <= len,
            vec@.subrange(0, data@.len() as int) == data@,
            forall|k: int| data@.len() <= k < vec@.len() ==> vec@[k] == 0,
        decreases len - vec@.len(),
    {
        vec.push(0);
    }
    vec
}

/// Where a write at `offset` goes in a sorted queue: `Ok` with the index of a write that
/// starts there, or `Err` with the index before which it belongs.
fn search_offset(q: &Vec<QueueElement>, offset: u64) -> (r: Result<usize, usize>)
    requires
        queue_wf(q@),
    ensures
        r matches Ok(i) ==> i < q@.len() && q@[i as int].offset == offset,
        r matches Err(i) ==> i <= q@.len() && (forall|j: int| 0 <= j < i ==> #[trigger] q@[j].offset
            < offset) && (forall|j: int| i <= j < q@.len() ==> #[trigger] q@[j].offset > offset),
{
    let mut lo: usize = 0;
    let mut hi: usize = q.len();
    while lo < hi
        invariant
            queue_wf(q@),
            lo <= hi <= q@.len(),
            forall|j: int| 0 <= j < lo ==> #[trigger] q@[j].offset < offset,
            forall|j: int| hi <= j < q@.len() ==> #[trigger] q@[j].offset > offset,
        decreases hi - lo,
    {
        let mid = lo + (hi - lo) / 2;
        let at = q[mid].offset;
        if at == offset {
            return Ok(mid);
        } else if at < offset {
            assert forall|j: int| 0 <= j <= mid implies #[trigger] q@[j].offset < offset by {
                if j < mid {
                    assert(q@[j].spec_end() < q@[mid as int].offset);
                }
            }
            lo = mid + 1;
        } else {
            assert forall|j: int| mid <= j < q@.len() implies #[trigger] q@[j].offset > offset by {
                if j > mid {
                    assert(q@[mid as int].spec_end() < q@[j].offset);
                }
            }
            hi = mid;
        }
    }
    Err(lo)
}

/// An allocation in a slab, with the offset and size it was handed out with.
pub struct SlabAllocation {
    pub allocation: SlabHandle,
    pub offset: u32,
    pub size: u32,
}

/// What a slab sends at a synchronisation: its size and the writes that waited.
pub struct SlabInfo {
    pub size: u32,
    pub queue: Vec<QueueElement>,
}

/// One buffer's worth of space: a sub-allocator, the writes that wait to be copied into
/// the buffer, and the frees that wait for the next synchronisation.
pub struct Slab {
    allocator: SlabAllocator,
    write_queue: Vec<QueueElement>,
    free_queue: Vec<SlabHandle>,
    size: u32,
}

/// Whether some allocation starts at `offset`.
pub open spec fn starts_allocation(live: Map<SlabHandle, (u32, u32)>, offset: int) -> bool {
    exists|a: SlabHandle| #[trigger] live.contains_key(a) && live[a].0 == offset
}

/// Whether unit `k` lies within one of the allocations.
pub open spec fn covered(live: Map<SlabHandle, (u32, u32)>, k: int) -> bool {
    exists|a: SlabHandle| #[trigger] live.contains_key(a) && live[a].0 <= k < live[a].0 + live[a].1
}

impl Slab {
    /// The allocations that are live in the slab, each with its `(offset, size)`; those
    /// waiting to be freed are still among them.
    pub closed spec fn live(&self) -> Map<SlabHandle, (u32, u32)> {
        allocator_live(self.allocator)
    }

    /// The bytes waiting to be written into the slab's buffer, by unit.
    pub closed spec fn pending(&self) -> Map<int, u8> {
        queue_bytes(self.write_queue@)
    }

    /// Whether a write waits, an empty one too.
    pub closed spec fn has_writes(&self) -> bool {
        self.write_queue@.len() > 0
    }

    /// The allocations waiting to be freed, in the order they were given back.
    pub closed spec fn freeing(&self) -> Seq<SlabHandle> {
        self.free_queue@
    }

    /// The number of bytes the slab manages.
    pub closed spec fn capacity(&self) -> u32 {
        self.size
    }

    /// Whether the slab's allocator, as it stands, refuses `len` bytes.
    pub closed spec fn refuses(&self, len: u32) -> bool {
        allocator_refuses(self.allocator, len)
    }

    /// The slab's invariant: the allocator manages the slab's size, every live
    /// allocation is inside the slab, the write queue is well formed and
    /// writes only into live allocations, and the free queue names distinct live
    /// allocations.
    pub closed spec fn wf(&self) -> bool {
        &&& allocator_capacity(self.allocator) == self.size
        &&& forall|a: SlabHandle| #[trigger]
            self.live().contains_key(a) ==> self.live()[a].0 + self.live()[a].1 <= self.size
        &&& queue_wf(self.write_queue@)
        &&& forall|j: int|
            0 <= j < self.write_queue@.len() ==> #[trigger] self.write_queue@[j].spec_end()
                <= self.size
        &&& forall|k: int| #[trigger] queue_holds(self.write_queue@, k) ==> covered(self.live(), k)
        &&& forall|j: int|
            0 <= j < self.write_queue@.len() ==> starts_allocation(
                self.live(),
                #[trigger] self.write_queue@[j].offset as int,
            )
        &&& self.free_queue@.no_duplicates()
        &&& forall|j: int|
            0 <= j < self.free_queue@.len() ==> self.live().contains_key(
                #[trigger] self.free_queue@[j],
            )
    }

    /// A slab of `size` bytes with nothing allocated and nothing waiting.
    pub fn new(size: u32) -> (r: Self)
        ensures
            r.wf(),
            r.capacity() == size,
            r.live() == Map::<SlabHandle, (u32, u32)>::empty(),
            r.pending() == Map::<int, u8>::empty(),
            r.freeing() == Seq::<SlabHandle>::empty(),
            !r.has_writes(),
    {
        let r = Self {
            allocator: allocator_new(size),
            write_queue: Vec::new(),
            free_queue: Vec::new(),
            size,
        };
        assert(r.pending() =~= Map::<int, u8>::empty());
        assert(r.live() =~= Map::<SlabHandle, (u32, u32)>::empty());
        r
    }

    /// Allocates room for `data` and queues its write. Writes that touch the new one are
    /// merged with it into one. Empty data gets an allocation of size zero and an empty
    /// write at its offset, unless a queued write starts, ends at or runs past that offset
    /// (the empty write then adds nothing). `None` exactly when the allocator refuses; then
    /// nothing changes. A slab with nothing allocated does not refuse data whose size class
    /// fits it.
    pub fn try_store(&mut self, data: &[u8]) -> (r: Option<SlabAllocation>)
        requires
            old(self).wf(),
            data@.len() <= u32::MAX,
        ensures
            final(self).wf(),
            final(self).capacity() == old(self).capacity(),
            final(self).freeing() == old(self).freeing(),
            r is None <==> old(self).refuses(data@.len() as u32),
            r is Some ==> final(self).has_writes(),
            r is None ==> *final(self) == *old(self),
            r is None ==> final(self).live() == old(self).live() && final(self).pending() == old(
                self,
            ).pending(),
            old(self).live().dom().is_empty() && alloc_bin_size(data@.len() as u32) <= old(
                self,
            ).capacity() ==> r is Some,
            r matches Some(sa) ==> {
                &&& sa.size == data@.len()
                &&& !old(self).live().contains_key(sa.allocation)
                &&& final(self).live() == old(self).live().insert(
                    sa.allocation,
                    (sa.offset, sa.size),
                )
                &&& forall|b: SlabHandle| #[trigger]
                    old(self).live().contains_key(b) ==> ranges_disjoint(
                        (sa.offset, sa.size),
                        old(self).live()[b],
                    )
                &&& forall|k: int|
                    sa.offset <= k < sa.offset + sa.size ==> !#[trigger] old(
                        self,
                    ).pending().contains_key(k)
                &&& final(self).pending() == old(self).pending().union_prefer_right(
                    bytes_at(sa.offset as int, data@),
                )
            },
    {
        let ghost old_live = self.live();
        let ghost q = self.write_queue@;
        let (allocation, offset32) = match allocator_allocate(&mut self.allocator, data.len() as u32) {
            None => return None,
            Some(p) => p,
        };
        let len = allocator_allocation_size(&self.allocator, allocation);
        let offset = offset32 as u64;
        let ghost o = offset as int;
        assert(len == data@.len());
        proof {
            let live = self.live();
            assert(live.contains_key(allocation) && live[allocation].0 == o);
            assert(starts_allocation(live, o));
            assert forall|k: int| #[trigger] queue_holds(q, k) implies covered(live, k) by {
                let b = choose|b: SlabHandle| #[trigger] old_live.contains_key(b)
                    && old_live[b].0 <= k < old_live[b].0 + old_live[b].1;
                assert(live.contains_key(b));
            }
            assert forall|j: int| 0 <= j < q.len() implies starts_allocation(
                live,
                #[trigger] q[j].offset as int,
            ) by {
                assert(starts_allocation(old_live, q[j].offset as int));
                let b = choose|b: SlabHandle| #[trigger] old_live.contains_key(b)
                    && old_live[b].0 == q[j].offset;
                assert(live.contains_key(b));
            }
            assert forall|k: int| o <= k < o + len implies covered(live, k) by {
                assert(live.contains_key(allocation));
            }
            // The new range overlaps no live allocation, so no queued write, and no write
            // starts inside it.
            assert forall|k: int| o <= k < o + len implies !queue_holds(q, k) by {
                if queue_holds(q, k) {
                    let b = choose|b: SlabHandle| #[trigger] old_live.contains_key(b)
                        && old_live[b].0 <= k < old_live[b].0 + old_live[b].1;
                    assert(ranges_disjoint((offset32, len), old_live[b]));
                }
            }
            assert forall|j: int| 0 <= j < q.len() implies #[trigger] q[j].offset <= o
                || q[j].offset >= o + len by {
                let b = choose|b: SlabHandle| #[trigger] old_live.contains_key(b)
                    && old_live[b].0 == q[j].offset;
                assert(ranges_disjoint((offset32, len), old_live[b]));
            }
            assert(self.wf());
        }
        if len == 0 {
            self.queue_empty_write(offset);
        } else {
            self.queue_write(offset, data);
        }
        proof {
            if len == 0 {
                assert(self.pending() =~= old(self).pending().union_prefer_right(
                    bytes_at(o, data@),
                ));
            }
        }
        Some(SlabAllocation { allocation, offset: offset32, size: len })
    }

    /// Queues an empty write at `offset`, unless a queued write starts there, or ends at or
    /// runs past it.
    fn queue_empty_write(&mut self, offset: u64)
        requires
            old(self).wf(),
            starts_allocation(old(self).live(), offset as int),
        ensures
            final(self).wf(),
            final(self).allocator == old(self).allocator,
            final(self).free_queue == old(self).free_queue,
            final(self).size == old(self).size,
            queue_bytes(final(self).write_queue@) == queue_bytes(old(self).write_queue@),
            final(self).write_queue@.len() > 0,
    {
        let ghost q = self.write_queue@;
        let ghost o = offset as int;
        let ghost live = self.live();
            match search_offset(&self.write_queue, offset) {
            Ok(_) => {
                // A write already starts at `offset`; an empty write adds nothing to it.
            },
            Err(i) => {
                let below = i > 0 && self.write_queue[i - 1].end() >= offset;
                if !below {
                    let m = QueueElement { offset, data: Vec::new() };
                    proof {
                        let q2 = q.insert(i as int, m);
                        assert forall|a: int, b: int| 0 <= a < b < q2.len() implies #[trigger] q2[a].spec_end()
                            < #[trigger] q2[b].offset by {
                            if b < i {
                            } else if a < i && b == i {
                                assert(q[a].spec_end() <= q[i - 1].spec_end());
                            } else if a < i {
                                assert(q2[b] == q[b - 1]);
                            } else if a == i {
                                assert(q2[b] == q[b - 1]);
                            } else {
                                assert(q2[a] == q[a - 1] && q2[b] == q[b - 1]);
                            }
                        }
                        assert forall|k: int| queue_holds(q2, k) implies queue_holds(q, k) by {
                            let j = choose|j: int| 0 <= j < q2.len() && #[trigger] q2[j].holds(k);
                            if j < i {
                                assert(q[j].holds(k));
                            } else if j > i {
                                assert(q[j - 1].holds(k));
                            }
                        }
                        assert forall|k: int| queue_holds(q, k) implies queue_holds(q2, k) by {
                            let j = choose|j: int| 0 <= j < q.len() && #[trigger] q[j].holds(k);
                            if j < i {
                                assert(q2[j].holds(k));
                            } else {
                                assert(q2[j + 1].holds(k));
                            }
                        }
                        assert forall|k: int| #[trigger] queue_holds(q2, k) implies queue_bytes(q2)[k]
                            == queue_bytes(q)[k] by {
                            let j = choose|j: int| 0 <= j < q.len() && #[trigger] q[j].holds(k);
                            lemma_queue_byte(q, j, k);
                            if j < i {
                                lemma_queue_byte(q2, j, k);
                            } else {
                                assert(q2[j + 1] == q[j]);
                                lemma_queue_byte(q2, j + 1, k);
                            }
                        }
                        assert(queue_bytes(q2) =~= queue_bytes(q));
                        assert forall|j: int| 0 <= j < q2.len() implies starts_allocation(
                            live,
                            #[trigger] q2[j].offset as int,
                        ) by {
                            if j < i {
                                assert(q2[j] == q[j]);
                            } else if j > i {
                                assert(q2[j] == q[j - 1]);
                            }
                        }
                    }
                    self.write_queue.insert(i, m);
                }
            },
        }
        proof {
            assert forall|k: int| queue_holds(self.write_queue@, k) implies covered(live, k) by {
                assert(queue_holds(q, k));
            }
        }
    }

    /// Queues `data` at `offset`, merged with the writes that touch it.
    #[verifier::rlimit(60)]
    #[verifier::spinoff_prover]
    fn queue_write(&mut self, offset: u64, data: &[u8])
        requires
            old(self).wf(),
            0 < data@.len(),
            offset + data@.len() <= old(self).size,
            starts_allocation(old(self).live(), offset as int),
            forall|k: int| offset <= k < offset + data@.len() ==> covered(old(self).live(), k),
            forall|k: int| offset <= k < offset + data@.len() ==> !queue_holds(old(self).write_queue@, k),
            forall|j: int| 0 <= j < old(self).write_queue@.len() ==> #[trigger] old(self).write_queue@[j].offset
                <= offset || old(self).write_queue@[j].offset >= offset + data@.len(),
        ensures
            final(self).wf(),
            final(self).allocator == old(self).allocator,
            final(self).free_queue == old(self).free_queue,
            final(self).size == old(self).size,
            queue_bytes(final(self).write_queue@) == queue_bytes(old(self).write_queue@).union_prefer_right(
                bytes_at(offset as int, data@),
            ),
            final(self).write_queue@.len() > 0,
    {
        let ghost q = self.write_queue@;
        let ghost o = offset as int;
        let ghost live = self.live();
        let len = data.len() as u32;
        let queue_index = match search_offset(&self.write_queue, offset) {
            Ok(i) => {
                // Only an empty write can start inside the new range: it is dropped, and
                // the new write takes its place.
                proof {
                    if q[i as int].data@.len() > 0 {
                        assert(q[i as int].holds(o));
                        assert(queue_holds(q, o));
                    }
                    lemma_remove_empty(q, i as int);
                }
                self.write_queue.remove(i);
                i
            },
            Err(i) => i,
        };
        let ghost q0 = q;
        let ghost q = self.write_queue@;
        proof {
            assert(queue_wf(q));
            assert(queue_bytes(q) == queue_bytes(q0));
            assert forall|k: int| o <= k < o + len implies !queue_holds(q, k) by {
                assert(!queue_holds(q0, k));
            }
            assert forall|j: int| 0 <= j < q.len() implies #[trigger] q[j].spec_end() <= self.size by {
                if q.len() < q0.len() {
                    if j < queue_index {
                        assert(q[j] == q0[j]);
                    } else {
                        assert(q[j] == q0[j + 1]);
                    }
                } else {
                    assert(q[j] == q0[j]);
                }
            }
            assert forall|j: int| 0 <= j < queue_index implies #[trigger] q[j].offset < o by {
                if q.len() < q0.len() {
                    assert(q[j] == q0[j]);
                    assert(q0[j].spec_end() < q0[queue_index as int].offset);
                }
            }
            assert forall|j: int| queue_index <= j < q.len() implies #[trigger] q[j].offset > o by {
                if q.len() < q0.len() {
                    assert(q[j] == q0[j + 1]);
                    assert(q0[queue_index as int].spec_end() < q0[j + 1].offset);
                }
            }
            assert(queue_index <= q.len());
        }
        proof {
            assert(!queue_holds(q, o));
            if queue_index > 0 && q[queue_index - 1].spec_end() > o {
                assert(q[queue_index - 1].holds(o));
            }
            if queue_index < q.len() {
                if q.len() < q0.len() {
                    assert(q[queue_index as int] == q0[queue_index + 1]);
                } else {
                    assert(q[queue_index as int] == q0[queue_index as int]);
                }
            }
        }
        let below = queue_index > 0 && self.write_queue[queue_index - 1].end() == offset;
        let above = queue_index < self.write_queue.len() && self.write_queue[queue_index].offset
            == offset + len as u64;
        let bytes = padded(data, len as usize);
        assert(bytes@ == data@);
        let ghost m_data = (if below {
            q[queue_index - 1].data@
        } else {
            Seq::<u8>::empty()
        }) + data@ + (if above {
            q[queue_index as int].data@
        } else {
            Seq::<u8>::empty()
        });
        // merges adjacent writes
        if !below && !above {
            let m = QueueElement { offset, data: bytes };
            proof {
                lemma_splice(q, queue_index as int, below, above, o, data@, m, self.size as int);
                lemma_splice_starts(q, queue_index as int, below, above, o, m, live);
                assert(q.insert(queue_index as int, m) =~= q.subrange(0, queue_index as int)
                    + seq![m] + q.subrange(queue_index as int, q.len() as int));
            }
            self.write_queue.insert(queue_index, m);
        } else if below && !above {
            let ghost old_b = q[queue_index - 1];
            append_bytes(&mut self.write_queue[queue_index - 1].data, bytes.as_slice());
            proof {
                let m = self.write_queue@[queue_index - 1];
                lemma_splice(q, queue_index as int, below, above, o, data@, m, self.size as int);
                lemma_splice_starts(q, queue_index as int, below, above, o, m, live);
                assert(self.write_queue@ =~= q.subrange(0, queue_index - 1) + seq![m]
                    + q.subrange(queue_index as int, q.len() as int));
            }
        } else if !below && above {
            assert(q[queue_index as int].spec_end() <= self.size);
            let mut new_data = bytes;
            append_bytes(&mut new_data, self.write_queue[queue_index].data.as_slice());
            self.write_queue[queue_index].data = new_data;
            self.write_queue[queue_index].offset = offset;
            proof {
                let m = self.write_queue@[queue_index as int];
                lemma_splice(q, queue_index as int, below, above, o, data@, m, self.size as int);
                lemma_splice_starts(q, queue_index as int, below, above, o, m, live);
                assert(self.write_queue@ =~= q.subrange(0, queue_index as int) + seq![m]
                    + q.subrange(queue_index + 1, q.len() as int));
            }
        } else {
            assert(q[queue_index as int].spec_end() <= self.size);
            let above_elem = self.write_queue.remove(queue_index);
            append_bytes(&mut self.write_queue[queue_index - 1].data, bytes.as_slice());
            append_bytes(&mut self.write_queue[queue_index - 1].data, above_elem.data.as_slice());
            proof {
                let m = self.write_queue@[queue_index - 1];
                assert(m.data@ =~= m_data);
                lemma_splice(q, queue_index as int, below, above, o, data@, m, self.size as int);
                lemma_splice_starts(q, queue_index as int, below, above, o, m, live);
                assert(self.write_queue@ =~= q.subrange(0, queue_index - 1) + seq![m]
                    + q.subrange(queue_index + 1, q.len() as int));
            }
        }
        proof {
            let q2 = self.write_queue@;
            assert(queue_bytes(q2) == queue_bytes(q).union_prefer_right(bytes_at(o, data@)));
            assert forall|k: int| queue_holds(q2, k) implies covered(live, k) by {
                assert(queue_bytes(q2).contains_key(k));
                if !(o <= k < o + len) {
                    assert(queue_bytes(q).contains_key(k));
                }
            }
            assert(self.live() == live);
        }
    }

    /// Queues `allocation` to be freed at the next synchronisation.
    pub fn free(&mut self, allocation: SlabHandle)
        requires
            old(self).wf(),
            old(self).live().contains_key(allocation),
            !old(self).freeing().contains(allocation),
        ensures
            final(self).wf(),
            final(self).capacity() == old(self).capacity(),
            final(self).live() == old(self).live(),
            final(self).pending() == old(self).pending(),
            final(self).has_writes() == old(self).has_writes(),
            final(self).freeing() == old(self).freeing().push(allocation),
    {
        self.free_queue.push(allocation);
        proof {
            assert forall|j: int| 0 <= j < self.free_queue@.len() implies self.live().contains_key(
                #[trigger] self.free_queue@[j],
            ) by {
                if j < self.free_queue@.len() - 1 {
                    assert(self.free_queue@[j] == old(self).free_queue@[j]);
                }
            }
            assert(self.free_queue@.no_duplicates());
        }
    }

    /// Whether the slab's free space is all of it (allocations waiting to be freed still
    /// take space): so when nothing is allocated, and not while an allocation of
    /// positive size is. With only allocations of size zero live, the allocator's report
    /// decides.
    pub fn is_empty(&self) -> (r: bool)
        requires
            self.wf(),
        ensures
            self.live().dom().is_empty() ==> r,
            (exists|a: SlabHandle| #[trigger] self.live().contains_key(a) && self.live()[a].1 > 0)
                ==> !r,
    {
        allocator_total_free_space(&self.allocator) == self.size
    }

    /// Carries out the waiting frees and hands over the waiting writes, `None` when no
    /// write waits.
    pub fn flush_queues(&mut self) -> (r: Option<Vec<QueueElement>>)
        requires
            old(self).wf(),
        ensures
            final(self).wf(),
            final(self).capacity() == old(self).capacity(),
            final(self).live() == old(self).live().remove_keys(old(self).freeing().to_set()),
            final(self).pending().dom().is_empty(),
            !final(self).has_writes(),
            final(self).freeing() == Seq::<SlabHandle>::empty(),
            r is None <==> !old(self).has_writes(),
            !old(self).pending().dom().is_empty() ==> old(self).has_writes(),
            r matches Some(queue) ==> queue_wf(queue@) && queue@.len() > 0 && queue_bytes(queue@)
                == old(self).pending(),
    {
        let ghost fq = self.free_queue@;
        let ghost live0 = self.live();
        let mut i: usize = 0;
        while i < self.free_queue.len()
            invariant
                i <= fq.len(),
                self.free_queue@ == fq,
                fq.no_duplicates(),
                forall|j: int| 0 <= j < fq.len() ==> live0.contains_key(#[trigger] fq[j]),
                allocator_capacity(self.allocator) == self.size,
                self.size == old(self).size,
                self.write_queue@ == old(self).write_queue@,
                queue_wf(self.write_queue@),
                forall|a: SlabHandle| #[trigger]
                    live0.contains_key(a) ==> live0[a].0 + live0[a].1 <= self.size,
                forall|j: int|
                    0 <= j < self.write_queue@.len() ==> #[trigger] self.write_queue@[j].spec_end()
                        <= self.size,
                self.live() == live0.remove_keys(fq.subrange(0, i as int).to_set()),
            decreases fq.len() - i,
        {
            let allocation = self.free_queue[i];
            proof {
                assert(!fq.subrange(0, i as int).to_set().contains(fq[i as int])) by {
                    if fq.subrange(0, i as int).to_set().contains(fq[i as int]) {
                        let j = choose|j: int| 0 <= j < i && fq.subrange(0, i as int)[j] == fq[i as int];
                        assert(fq[j] == fq[i as int]);
                    }
                }
            }
            allocator_free(&mut self.allocator, allocation);
            i = i + 1;
            proof {
                assert(fq.subrange(0, i as int).to_set() =~= fq.subrange(0, i - 1).to_set().insert(
                    fq[i - 1],
                )) by {
                    assert(fq.subrange(0, i as int) =~= fq.subrange(0, i - 1).push(fq[i - 1]));
                }
                assert(self.live() =~= live0.remove_keys(fq.subrange(0, i as int).to_set()));
            }
        }
        assert(fq.subrange(0, fq.len() as int) == fq);
        self.free_queue.clear();
        let ghost q = self.write_queue@;
        let r = if !self.write_queue.is_empty() {
            let mut queue = Vec::new();
            std::mem::swap(&mut queue, &mut self.write_queue);
            Some(queue)
        } else {
            assert(queue_bytes(q).dom() =~= Set::<int>::empty());
            None
        };
        assert(self.pending().dom() =~= Set::<int>::empty());
        r
    }

    /// The slab's size with the writes that waited, `None` when none waited. The waiting
    /// frees are carried out too.
    pub fn slab_info(&mut self) -> (r: Option<SlabInfo>)
        requires
            old(self).wf(),
        ensures
            final(self).wf(),
            final(self).capacity() == old(self).capacity(),
            final(self).live() == old(self).live().remove_keys(old(self).freeing().to_set()),
            final(self).pending().dom().is_empty(),
            !final(self).has_writes(),
            final(self).freeing() == Seq::<SlabHandle>::empty(),
            r is None <==> !old(self).has_writes(),
            !old(self).pending().dom().is_empty() ==> old(self).has_writes(),
            r matches Some(info) ==> info.size == old(self).capacity() && queue_wf(info.queue@)
                && info.queue@.len() > 0 && queue_bytes(info.queue@) == old(self).pending(),
    {
        match self.flush_queues() {
            Some(queue) => Some(SlabInfo { size: self.size, queue }),
            None => None,
        }
    }
}

/// The bytes of a stored write are what the next flush hands over at its offset, whatever
/// else was pending.
pub proof fn law_stored_bytes_flushed(
    before: Slab,
    after: Slab,
    flushed: Seq<QueueElement>,
    offset: int,
    data: Seq<u8>,
)
    requires
        after.pending() == before.pending().union_prefer_right(bytes_at(offset, data)),
        queue_bytes(flushed) == after.pending(),
    ensures
        forall|k: int|
            0 <= k < data.len() ==> #[trigger] queue_bytes(flushed).contains_key(offset + k)
                && queue_bytes(flushed)[offset + k] == data[k],
{
    assert forall|k: int| 0 <= k < data.len() implies #[trigger] queue_bytes(flushed).contains_key(
        offset + k,
    ) && queue_bytes(flushed)[offset + k] == data[k] by {
        assert(bytes_at(offset, data).contains_key(offset + k));
    }
}

} // verus!
