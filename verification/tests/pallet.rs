use voxel::chunk::pallet::{CountOverflow, CountUnderflow, GetOrInsertResult, Pallet, Variant};
use voxel::chunk::pallet_chunk::{PackedIntsError, PalletChunk};
use voxel::chunk::space::{LocalCoord, VLocalPos};
use voxel::chunk::Chunk;
use voxel::voxel::Voxel;

#[test]
fn variant_counts() {
    let mut v = Variant::new(Voxel(3), 1);
    assert_eq!(v.inner(), Voxel(3));
    assert_eq!(v.increment(), Ok(()));
    assert_eq!(v.count, 2);
    assert_eq!(v.decrement(), Ok(()));
    assert_eq!(v.decrement(), Ok(()));
    assert_eq!(v.count, 0);
    assert_eq!(v.decrement(), Err(CountUnderflow));
    assert_eq!(v.count, 0);
    let mut full = Variant::new(Voxel(1), u16::MAX);
    assert_eq!(full.increment(), Err(CountOverflow));
    assert_eq!(full.count, u16::MAX);
}

#[test]
fn pallet_sorts_and_searches() {
    let pallet = Pallet::new(vec![
        Variant::new(Voxel(9), 1),
        Variant::new(Voxel(2), 5),
        Variant::new(Voxel(4), 2),
    ]);
    assert_eq!(pallet.len(), 3);
    assert_eq!(pallet.get(0).map(|v| v.inner()), Some(Voxel(2)));
    assert_eq!(pallet.get(1).map(|v| v.inner()), Some(Voxel(4)));
    assert_eq!(pallet.get(2).map(|v| v.inner()), Some(Voxel(9)));
    assert!(pallet.get(3).is_none());
    assert_eq!(pallet.binary_search(&Variant::new(Voxel(4), 0)), Ok(1));
    assert_eq!(pallet.binary_search(&Variant::new(Voxel(5), 0)), Err(2));
    assert_eq!(pallet.binary_search(&Variant::new(Voxel(0), 0)), Err(0));
}

#[test]
fn pallet_get_or_insert() {
    let mut pallet = Pallet::new(vec![Variant::new(Voxel(2), 1), Variant::new(Voxel(8), 1)]);
    assert_eq!(pallet.get_or_insert(Voxel(8)), GetOrInsertResult::Gotten(1));
    assert_eq!(pallet.get_or_insert(Voxel(5)), GetOrInsertResult::Inserted(1));
    assert_eq!(pallet.len(), 3);
    assert_eq!(pallet.get(1).map(|v| (v.inner(), v.count)), Some((Voxel(5), 1)));
}

#[test]
fn pallet_counts_by_index() {
    let mut pallet = Pallet::new(vec![Variant::new(Voxel(2), 2), Variant::new(Voxel(8), 1)]);
    assert_eq!(pallet.increment_index(1), Ok(()));
    assert_eq!(pallet.get(1).map(|v| v.count), Some(2));
    assert!(!pallet.decrement_index(0));
    assert_eq!(pallet.get(0).map(|v| v.count), Some(1));
    assert!(pallet.decrement_index(0));
    assert_eq!(pallet.len(), 1);
    assert_eq!(pallet.get(0).map(|v| v.inner()), Some(Voxel(8)));
}

#[test]
fn pallet_req_bits() {
    let sizes = [(0usize, 0usize), (1, 1), (2, 1), (3, 2), (4, 2), (5, 3), (9, 4)];
    for (len, bits) in sizes {
        let variants: Vec<Variant<Voxel>> = (0..len).map(|i| Variant::new(Voxel(i as u16), 1)).collect();
        assert_eq!(Pallet::new(variants).req_bits(), bits, "len {len}");
    }
}

#[test]
fn pallet_chunk_read_after_write() {
    let mut chunk = PalletChunk::filled(Voxel(0));
    assert_eq!(chunk.get(17), Ok(Voxel(0)));
    let _ = chunk.set(17, Voxel(5));
    let _ = chunk.set(18, Voxel(6));
    let _ = chunk.set(4095, Voxel(5));
    assert_eq!(chunk.get(17), Ok(Voxel(5)));
    assert_eq!(chunk.get(18), Ok(Voxel(6)));
    assert_eq!(chunk.get(4095), Ok(Voxel(5)));
    assert_eq!(chunk.get(16), Ok(Voxel(0)));
    assert_eq!(chunk.get_variant(17).map(|v| v.count), Ok(2));
    let _ = chunk.set(17, Voxel(0));
    assert_eq!(chunk.get(17), Ok(Voxel(0)));
    assert_eq!(chunk.get_variant(4095).map(|v| v.count), Ok(1));
    assert_eq!(chunk.get(4096), Err(PackedIntsError::IndexOutOfBounds));
}

#[test]
fn pallet_chunk_many_kinds() {
    let mut chunk = PalletChunk::filled(Voxel(1));
    for i in 0..300usize {
        let _ = chunk.set(i, Voxel((i % 40) as u16 + 2));
    }
    for i in 0..300usize {
        assert_eq!(chunk.get(i), Ok(Voxel((i % 40) as u16 + 2)));
    }
    assert_eq!(chunk.get(300), Ok(Voxel(1)));
}

#[test]
fn pallet_chunk_new() {
    assert_eq!(PalletChunk::new(Pallet::new(Vec::new())).err(), Some(PackedIntsError::ZeroBitsPer));
    let chunk = PalletChunk::new(Pallet::new(vec![Variant::new(Voxel(7), 4096)])).ok().unwrap();
    assert_eq!(chunk.get(100), Ok(Voxel(7)));
}

#[test]
fn chunk_get_set() {
    let pos = VLocalPos::new(
        LocalCoord::normalized_wrap(1),
        LocalCoord::normalized_wrap(2),
        LocalCoord::normalized_wrap(3),
    );
    let other = VLocalPos::new(
        LocalCoord::normalized_wrap(0),
        LocalCoord::normalized_wrap(0),
        LocalCoord::normalized_wrap(0),
    );
    let mut chunk = Chunk::Empty;
    assert_eq!(chunk.get(pos), Voxel(0));
    chunk.set(pos, Voxel(9));
    assert_eq!(chunk.get(pos), Voxel(9));
    assert_eq!(chunk.get(other), Voxel(0));
    let mut filled = Chunk::Filled(Voxel(4));
    filled.set(other, Voxel(1));
    assert_eq!(filled.get(other), Voxel(1));
    assert_eq!(filled.get(pos), Voxel(4));
}

#[test]
fn pallet_chunk_new_on_several_variants() {
    let pallet = Pallet::new(vec![Variant::new(Voxel(3), 10), Variant::new(Voxel(1), 5)]);
    let chunk = PalletChunk::new(pallet).ok().unwrap();
    assert_eq!(chunk.get(0), Ok(Voxel(1)));
    assert_eq!(chunk.get(4095), Ok(Voxel(1)));
}

#[test]
fn variants_compare_by_fields() {
    assert_eq!(Variant::new(Voxel(1), 2), Variant::new(Voxel(1), 2));
    assert_ne!(Variant::new(Voxel(1), 2), Variant::new(Voxel(1), 3));
    assert_ne!(Variant::new(Voxel(1), 2), Variant::new(Voxel(4), 2));
}

#[test]
fn variant_keeps_its_data_through_counting() {
    let mut v = Variant::new(Voxel(9), 0);
    assert!(v.decrement().is_err());
    assert!(v.increment().is_ok());
    assert!(v.increment().is_ok());
    assert!(v.decrement().is_ok());
    assert_eq!(v.inner(), Voxel(9));
    assert_eq!(v.count, 1);
}

#[test]
fn binary_search_ignores_the_count() {
    let pallet = Pallet::new(vec![
        Variant::new(Voxel(2), 1),
        Variant::new(Voxel(4), 3),
        Variant::new(Voxel(4), 5),
        Variant::new(Voxel(8), 2),
    ]);
    let a = pallet.binary_search(&Variant::new(Voxel(4), 0));
    let b = pallet.binary_search(&Variant::new(Voxel(4), 700));
    assert_eq!(a, b);
    assert!(matches!(a, Ok(1) | Ok(2)));
}

#[test]
fn pallet_of_integers() {
    let pallet: Pallet<u8> = Pallet::new(vec![Variant::new(9u8, 1), Variant::new(3u8, 2)]);
    assert_eq!(pallet.binary_search(&Variant::new(3u8, 0)), Ok(0));
    assert_eq!(pallet.binary_search(&Variant::new(5u8, 0)), Err(1));
    assert_eq!(pallet.req_bits(), 1);
}

#[test]
fn setting_an_empty_chunk_makes_a_pallet_chunk() {
    let pos = VLocalPos::new(
        LocalCoord::normalized_wrap(4),
        LocalCoord::normalized_wrap(5),
        LocalCoord::normalized_wrap(6),
    );
    let mut chunk = Chunk::Empty;
    chunk.set(pos, Voxel(0));
    assert!(matches!(chunk, Chunk::Pallet(_)));
    assert_eq!(chunk.get(pos), Voxel(0));
    let mut filled = Chunk::Filled(Voxel(3));
    filled.set(pos, Voxel(9));
    assert!(matches!(filled, Chunk::Pallet(_)));
    assert_eq!(filled.get(pos), Voxel(9));
}
