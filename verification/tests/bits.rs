use std::fmt::Debug;

use voxel::bits::{BitSize, PackedBits};

const BIG_NUM: usize = 32768;

#[test]
fn bit_spill() {
    let mut packed = PackedBits::<u8>::new(5, 2);
    let raw = 0b10101;
    packed.set(1, raw);
    let result = packed.get(1);
    assert_eq!(result, raw);
}

#[test]
fn increment() {
    let mut packed = PackedBits::<usize>::new(5, 0);
    packed.increment();
    assert_eq!(packed.bits_per(), 6)
}

#[test]
fn decrement() {
    let mut packed = PackedBits::<usize>::new(5, 0);
    packed.decrement();
    assert_eq!(packed.bits_per(), 4)
}

#[test]
fn zero_count() {
    let packed = PackedBits::<usize>::new(8, 0);
    assert_eq!(packed.iter().len(), 0);
}

#[test]
fn edges() {
    PackedBits::<usize>::new(usize::BIT_SIZE - 1, 0);
    PackedBits::<usize>::new(1, 0);
}

#[test]
fn data_retention_num_types() {
    data_retention(PackedBits::<u8>::new(4, BIG_NUM));
    data_retention(PackedBits::<u16>::new(4, BIG_NUM));
    data_retention(PackedBits::<u32>::new(4, BIG_NUM));
    data_retention(PackedBits::<u64>::new(4, BIG_NUM));
    data_retention(PackedBits::<u128>::new(4, BIG_NUM));
    data_retention(PackedBits::<usize>::new(4, BIG_NUM));
}

fn data_retention<I: BitSize + From<u8> + Debug + PartialEq>(mut packed: PackedBits<I>) {
    let mut raw = vec![I::from(0u8); packed.count()];

    let max = 1usize << packed.bits_per();

    for index in 0..packed.count() {
        let data: I = ((index % max) as u8).into();

        raw[index] = data;
        packed.set(index, data);
    }

    packed
        .iter()
        .into_iter()
        .zip(raw.into_iter())
        .for_each(|(unpacked, raw)| {
            assert_eq!(
                unpacked,
                raw,
                "bits: {}, count: {}",
                packed.bits_per(),
                packed.count()
            )
        });
}

#[test]
fn values_keep_low_bits() {
    // A value wider than the field keeps only its low bits.
    let mut packed = PackedBits::<u16>::new(3, 10);
    packed.set(4, 0b1101);
    assert_eq!(packed.get(4), 0b101);
    assert_eq!(packed.get(3), 0);
    assert_eq!(packed.get(5), 0);
}

#[test]
fn set_leaves_neighbours() {
    // Seven-bit fields in 8-bit words spill across word boundaries.
    let mut packed = PackedBits::<u8>::new(7, 9);
    for i in 0..9 {
        packed.set(i, (i as u8) * 13 % 128);
    }
    packed.set(4, 127);
    for i in 0..9 {
        let expected = if i == 4 { 127 } else { (i as u8) * 13 % 128 };
        assert_eq!(packed.get(i), expected);
    }
}

#[test]
fn resize_keeps_values() {
    let mut packed = PackedBits::<u32>::new(4, 20);
    for i in 0..20 {
        packed.set(i, (i % 16) as u32);
    }
    packed.increase_bits_per(5);
    assert_eq!(packed.bits_per(), 9);
    for i in 0..20 {
        assert_eq!(packed.get(i), (i % 16) as u32);
    }
    packed.decrease_bits_per(5);
    assert_eq!(packed.bits_per(), 4);
    for i in 0..20 {
        assert_eq!(packed.get(i), (i % 16) as u32);
    }
}

#[test]
fn set_bits_per_truncates() {
    let mut packed = PackedBits::<u64>::new(6, 3);
    packed.set(0, 0b110101);
    packed.set(1, 0b000011);
    packed.set_bits_per(2);
    assert_eq!(packed.bits_per(), 2);
    assert_eq!(packed.get(0), 0b01);
    assert_eq!(packed.get(1), 0b11);
    assert_eq!(packed.get(2), 0);
}

#[test]
fn count_survives_every_mutator() {
    let mut p = PackedBits::<u32>::new(4, 100);
    p.set(3, 9);
    p.increase_bits_per(2);
    p.increment();
    p.set(99, 60);
    p.decrement();
    p.set_bits_per(3);
    p.set(99, 1);
    p.decrease_bits_per(1);
    assert_eq!(p.get(3), 1);
    assert_eq!(p.count(), 100);
    assert_eq!(p.iter().len(), 100);
}
