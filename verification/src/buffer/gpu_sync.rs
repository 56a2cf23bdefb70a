//! The render side of slab synchronisation: which GPU slabs to create, write and drop for
//! each message, and the size of the GPU slab kept under each index.
use vstd::prelude::*;

use crate::buffer::slab::{QueueElement, SlabInfo};

verus! {

/// One step of applying a synchronisation message to the GPU slabs.
pub enum SyncAction {
    /// Create the GPU slab under `index` with `size` bytes.
    Create { index: usize, size: u32 },
    /// Copy the writes into the GPU slab under `index`.
    Write { index: usize, queue: Vec<QueueElement> },
    /// Drop the GPU slab under `index`, if there is one.
    Drop { index: usize },
}

/// The slots after an entry: grown to hold `index`, then, with slab info, the size of a
/// new slab where there was none, or, without, emptied.
pub open spec fn after_entry(slots: Seq<Option<u32>>, index: int, info: Option<SlabInfo>) -> Seq<
    Option<u32>,
> {
    let grown = if index >= slots.len() {
        slots + Seq::new((index + 1 - slots.len()) as nat, |j: int| None::<u32>)
    } else {
        slots
    };
    match info {
        Some(i) => if grown[index] is None {
            grown.update(index, Some(i.size))
        } else {
            grown
        },
        None => grown.update(index, None),
    }
}

/// Whether `action` writes `queue` into the GPU slab under `index`.
pub open spec fn is_write(action: SyncAction, index: int, queue: Seq<QueueElement>) -> bool {
    match action {
        SyncAction::Write { index: w, queue: q } => w == index && q@ == queue,
        _ => false,
    }
}

/// Whether `actions` are what one entry asks for: with slab info, a creation where no
/// slab was, then the writes; without, a drop.
pub open spec fn entry_actions(
    slots: Seq<Option<u32>>,
    index: int,
    info: Option<SlabInfo>,
    actions: Seq<SyncAction>,
) -> bool {
    let absent = index >= slots.len() || slots[index] is None;
    match info {
        Some(i) => if absent {
            actions.len() == 2 && actions[0] == (SyncAction::Create {
                index: index as usize,
                size: i.size,
            }) && is_write(actions[1], index, i.queue@)
        } else {
            actions.len() == 1 && is_write(actions[0], index, i.queue@)
        },
        None => actions.len() == 1 && actions[0] == (SyncAction::Drop { index: index as usize }),
    }
}

/// The GPU slabs' sizes, by index; `None` where there is no GPU slab.
pub struct GpuSlabTable {
    slabs: Vec<Option<u32>>,
}

impl GpuSlabTable {
    /// The size of the GPU slab under each index.
    pub closed spec fn spec_slabs(&self) -> Seq<Option<u32>> {
        self.slabs@
    }

    /// No GPU slab.
    pub fn new() -> (r: Self)
        ensures
            r.spec_slabs() == Seq::<Option<u32>>::empty(),
    {
        Self { slabs: Vec::new() }
    }

    /// The size of the GPU slab under each index.
    pub fn slabs(&self) -> (r: &Vec<Option<u32>>)
        ensures
            r@ == self.spec_slabs(),
    {
        &self.slabs
    }

    /// Applies one entry of a message: the slab under `index` changed, and `info` is what
    /// it sent (`None` when it was dropped).
    pub fn receive(&mut self, index: usize, info: Option<SlabInfo>) -> (r: Vec<SyncAction>)
        requires
            index < usize::MAX,
        ensures
            final(self).spec_slabs() == after_entry(old(self).spec_slabs(), index as int, info),
            entry_actions(old(self).spec_slabs(), index as int, info, r@),
    {
        let ghost before = self.slabs@;
        if index >= self.slabs.len() {
            while self.slabs.len() <= index
                invariant
                    before.len() <= self.slabs@.len() <= index + 1,
                    index < usize::MAX,
                    index >= before.len(),
                    self.slabs@ == before + Seq::new(
                        (self.slabs@.len() - before.len()) as nat,
                        |j: int| None::<u32>,
                    ),
                decreases index + 1 - self.slabs@.len(),
            {
                self.slabs.push(None);
                assert(self.slabs@ =~= before + Seq::new(
                    (self.slabs@.len() - before.len()) as nat,
                    |j: int| None::<u32>,
                ));
            }
        }
        let ghost grown = self.slabs@;
        assert(grown == (if index >= before.len() {
            before + Seq::new((index + 1 - before.len()) as nat, |j: int| None::<u32>)
        } else {
            before
        }));
        let mut actions: Vec<SyncAction> = Vec::new();
        match info {
            Some(slab_info) => {
                if self.slabs[index].is_none() {
                    let size = slab_info.size;
                    self.slabs.set(index, Some(size));
                    actions.push(SyncAction::Create { index, size });
                }
                actions.push(SyncAction::Write { index, queue: slab_info.queue });
            },
            None => {
                self.slabs.set(index, None);
                actions.push(SyncAction::Drop { index });
            },
        }
        actions
    }
}

/// After an entry with slab info, a GPU slab stands under the entry's index: where none
/// stood (the index was empty or past the table), the first action creates it with the
/// info's size and the table records that size; where one stood, it is kept and written
/// with no creation. No other slot changes, and the table grows only as far as the index.
pub proof fn law_receive_keeps_a_slab(
    before: Seq<Option<u32>>,
    after: Seq<Option<u32>>,
    index: int,
    info: SlabInfo,
    actions: Seq<SyncAction>,
)
    requires
        0 <= index,
        after == after_entry(before, index, Some(info)),
        entry_actions(before, index, Some(info), actions),
    ensures
        index < after.len(),
        after[index] is Some,
        after.len() == if index < before.len() {
            before.len() as int
        } else {
            index + 1
        },
        forall|j: int| 0 <= j < before.len() && j != index ==> after[j] == before[j],
        forall|j: int| before.len() <= j < after.len() && j != index ==> after[j] is None,
        (index >= before.len() || before[index] is None) ==> after[index] == Some(info.size)
            && actions.len() == 2 && actions[0] == (SyncAction::Create {
            index: index as usize,
            size: info.size,
        }),
        index < before.len() && before[index] is Some ==> after[index] == before[index]
            && actions.len() == 1 && actions[0] is Write,
        actions.last() is Write,
{
}

/// After an entry without slab info, no GPU slab stands under the entry's index and the
/// one action drops it; no other slot changes.
pub proof fn law_receive_drops_the_slab(
    before: Seq<Option<u32>>,
    after: Seq<Option<u32>>,
    index: int,
    actions: Seq<SyncAction>,
)
    requires
        0 <= index,
        after == after_entry(before, index, None),
        entry_actions(before, index, None, actions),
    ensures
        index < after.len(),
        after[index] is None,
        forall|j: int| 0 <= j < before.len() && j != index ==> after[j] == before[j],
        actions.len() == 1,
        actions[0] == (SyncAction::Drop { index: index as usize }),
{
}

} // verus!
