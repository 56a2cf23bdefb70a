use voxel::buffer::alloc_buffer::{padded_len, AllocBufferSettings, InnerAllocBuffer};

#[test]
fn padding() {
    assert_eq!(padded_len(10, 4), 10);
    assert_eq!(padded_len(10, 2), 12);
    assert_eq!(padded_len(12, 3), 12);
    assert_eq!(padded_len(13, 1), 16);
}

#[test]
fn default_settings() {
    let s = AllocBufferSettings::default();
    assert_eq!(s.slab_size, 16 * 1024 * 1024);
    assert_eq!(s.large_threshold, 8 * 1024 * 1024);
}

#[test]
fn places_small_data_in_existing_slabs() {
    let mut buffer: InnerAllocBuffer<u8> =
        InnerAllocBuffer::new(AllocBufferSettings { slab_size: 64, large_threshold: 32 });
    assert_eq!(buffer.settings().slab_size, 64);
    let (big, made) = buffer.store(40).unwrap();
    assert_eq!(made, Some(64));
    assert_eq!(big.slab_key(), 0);
    let (small, made) = buffer.store(8).unwrap();
    assert_eq!(made, None);
    assert_eq!(small.slab_key(), 0);
    assert_ne!(small.byte_offset(), big.byte_offset());
    let (other, made) = buffer.store(40).unwrap();
    assert_eq!(made, Some(64));
    assert_eq!(other.slab_key(), 1);
    let (huge, made) = buffer.store(128).unwrap();
    assert_eq!(made, Some(128));
    assert_eq!(huge.slab_key(), 2);
    assert_eq!(huge.offset(), 0);
    assert!(!buffer.free(small));
    assert!(buffer.free(big));
    let (again, made) = buffer.store(40).unwrap();
    assert_eq!(made, Some(64));
    assert_eq!(again.slab_key(), 0);
}

#[test]
fn new_slab_takes_fitting_data() {
    let mut buffer: InnerAllocBuffer<u8> =
        InnerAllocBuffer::new(AllocBufferSettings { slab_size: 144, large_threshold: 8 });
    let (a, made) = buffer.store(130).unwrap();
    assert_eq!(made, Some(144));
    assert_eq!(a.slab_key(), 0);
}
