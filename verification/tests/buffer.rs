use voxel::buffer::allocator::{BufferAllocator, BufferAllocatorSettings, MIB};
use voxel::buffer::gpu_sync::{GpuSlabTable, SyncAction};
use voxel::buffer::slab::{QueueElement, Slab, SlabInfo};

fn writes(queue: &[QueueElement]) -> Vec<(u64, Vec<u8>)> {
    queue.iter().map(|e| (e.offset, e.data.clone())).collect()
}

#[test]
fn slab_stores_and_flushes() {
    let mut slab = Slab::new(1024);
    assert!(slab.is_empty());
    let a = slab.try_store(&[1, 2, 3, 4]).unwrap();
    assert_eq!(a.size, 4);
    assert!(!slab.is_empty());
    let b = slab.try_store(&[5, 6]).unwrap();
    assert_eq!(b.size, 2);
    let queue = slab.flush_queues().unwrap();
    let mut bytes = vec![None; 1024];
    for e in &queue {
        for (i, byte) in e.data.iter().enumerate() {
            bytes[e.offset as usize + i] = Some(*byte);
        }
    }
    assert_eq!(&bytes[a.offset as usize..a.offset as usize + 4], &[Some(1), Some(2), Some(3), Some(4)]);
    assert_eq!(&bytes[b.offset as usize..b.offset as usize + 2], &[Some(5), Some(6)]);
    assert!(slab.flush_queues().is_none());
}

#[test]
fn slab_merges_touching_writes() {
    let mut slab = Slab::new(1024);
    let a = slab.try_store(&[1, 1, 1, 1]).unwrap();
    let b = slab.try_store(&[2, 2, 2, 2]).unwrap();
    let c = slab.try_store(&[3, 3]).unwrap();
    let queue = slab.flush_queues().unwrap();
    let total: usize = queue.iter().map(|e| e.data.len()).sum();
    assert_eq!(total, 10);
    let mut offsets = vec![a.offset, b.offset, c.offset];
    offsets.sort();
    if offsets[1] == offsets[0] + 4 && offsets[2] == offsets[1] + 4 {
        assert_eq!(queue.len(), 1);
    }
    for w in writes(&queue).windows(2) {
        assert!(w[0].0 + (w[0].1.len() as u64) < w[1].0);
    }
}

#[test]
fn slab_frees_on_flush() {
    let mut slab = Slab::new(64);
    let a = slab.try_store(&[7; 16]).unwrap();
    slab.free(a.allocation);
    assert!(!slab.is_empty());
    let _ = slab.flush_queues();
    assert!(slab.is_empty());
}

#[test]
fn slab_refuses_when_full() {
    let mut slab = Slab::new(16);
    assert!(slab.try_store(&[1; 16]).is_some());
    assert!(slab.try_store(&[2; 4]).is_none());
}

#[test]
fn settings_default() {
    let s = BufferAllocatorSettings::default();
    assert_eq!(s.slab_size, 16 * MIB);
    assert_eq!(s.large_threshold, 8 * MIB);
}

#[test]
fn allocator_fills_slabs_in_order() {
    let settings = BufferAllocatorSettings { slab_size: 64, large_threshold: 32 };
    let mut allocator: BufferAllocator<u32> = BufferAllocator::new();
    let a = allocator.store(&[1; 40], &settings).unwrap();
    assert_eq!(a.slab_index(), 0);
    assert_eq!(a.byte_size(), 40);
    assert_eq!(a.size(), 10);
    let b = allocator.store(&[2; 40], &settings).unwrap();
    assert_eq!(b.slab_index(), 1);
    let c = allocator.store(&[3; 8], &settings).unwrap();
    assert_eq!(c.slab_index(), 0);
    let big = allocator.store(&[4; 128], &settings).unwrap();
    assert_eq!(big.slab_index(), 2);
    assert_eq!(big.byte_size(), 128);
    let info = allocator.sync_info();
    let indices: Vec<usize> = info.iter().map(|(i, _)| *i).collect();
    assert_eq!(indices, vec![0, 1, 2]);
    assert!(info.iter().all(|(_, s)| s.is_some()));
    assert!(allocator.sync_info().is_empty());
}

#[test]
fn allocator_free_queues_the_allocation() {
    let settings = BufferAllocatorSettings { slab_size: 64, large_threshold: 32 };
    let mut allocator: BufferAllocator<u8> = BufferAllocator::new();
    let a = allocator.store(&[1; 8], &settings).unwrap();
    assert_eq!(allocator.free(&a), Ok(()));
    assert_eq!(a.offset(), a.byte_offset());
}

#[test]
fn gpu_slab_table_follows_messages() {
    let mut table = GpuSlabTable::new();
    let info = SlabInfo { size: 64, queue: vec![QueueElement { offset: 4, data: vec![1, 2] }] };
    let actions = table.receive(2, Some(info));
    assert_eq!(actions.len(), 2);
    assert!(matches!(actions[0], SyncAction::Create { index: 2, size: 64 }));
    assert!(matches!(&actions[1], SyncAction::Write { index: 2, queue } if queue.len() == 1 && queue[0].offset == 4));
    assert_eq!(table.slabs(), &vec![None, None, Some(64)]);
    let actions = table.receive(2, Some(SlabInfo { size: 128, queue: Vec::new() }));
    assert_eq!(actions.len(), 1);
    assert!(matches!(&actions[0], SyncAction::Write { index: 2, queue } if queue.is_empty()));
    assert_eq!(table.slabs(), &vec![None, None, Some(64)]);
    let actions = table.receive(2, None);
    assert!(matches!(actions[0], SyncAction::Drop { index: 2 }));
    assert_eq!(table.slabs(), &vec![None, None, None]);
}

#[test]
fn empty_slab_takes_data_of_its_size_class() {
    // 130 bytes are served from the 144-byte size class.
    let mut fits = Slab::new(144);
    assert!(fits.try_store(&[9; 130]).is_some());
    let mut exact = Slab::new(16);
    assert!(exact.try_store(&[1; 16]).is_some());
    let mut small = Slab::new(7);
    assert!(small.try_store(&[1; 7]).is_some());
}

#[test]
fn allocator_new_slab_takes_fitting_data() {
    let settings = BufferAllocatorSettings { slab_size: 144, large_threshold: 64 };
    let mut allocator: BufferAllocator<u8> = BufferAllocator::new();
    let a = allocator.store(&[5; 130], &settings).unwrap();
    assert_eq!(a.slab_index(), 0);
    assert_eq!(a.byte_size(), 130);
}

#[test]
fn slab_stores_empty_data_as_an_empty_write() {
    let mut slab = Slab::new(64);
    let a = slab.try_store(&[]).unwrap();
    assert_eq!(a.size, 0);
    let queue = slab.flush_queues().unwrap();
    assert_eq!(writes(&queue), vec![(a.offset as u64, Vec::new())]);
    assert!(slab.flush_queues().is_none());
    let b = slab.try_store(&[3; 4]).unwrap();
    assert_eq!(b.size, 4);
    let queue = slab.flush_queues().unwrap();
    assert_eq!(writes(&queue), vec![(b.offset as u64, vec![3; 4])]);
}

#[test]
fn allocator_stores_empty_data() {
    let settings = BufferAllocatorSettings { slab_size: 64, large_threshold: 32 };
    let mut allocator: BufferAllocator<u8> = BufferAllocator::new();
    let a = allocator.store(&[], &settings).unwrap();
    assert_eq!(a.slab_index(), 0);
    assert_eq!(a.byte_size(), 0);
    let b = allocator.store(&[1; 8], &settings).unwrap();
    assert_eq!(b.slab_index(), 0);
}
