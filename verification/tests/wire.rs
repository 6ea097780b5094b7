use ipsight::search::partition_point_u32;
use ipsight::wire::{i24le, u128_be, u128_le, varint, zigzag};

#[test]
fn varints_decode_leb128() {
    assert_eq!(varint(&[0x00], 0), (0, 1));
    assert_eq!(varint(&[0x7f], 0), (127, 1));
    assert_eq!(varint(&[0xac, 0x02], 0), (300, 2));
    assert_eq!(varint(&[0xff, 0x00, 0x80, 0x01], 2), (128, 2));
}

#[test]
fn zigzag_alternates_signs() {
    assert_eq!(zigzag(0), 0);
    assert_eq!(zigzag(1), -1);
    assert_eq!(zigzag(2), 1);
    assert_eq!(zigzag(3), -2);
    assert_eq!(zigzag(u64::MAX), i64::MIN);
    assert_eq!(zigzag(u64::MAX - 1), i64::MAX);
}

#[test]
fn signed_24_bit_values() {
    assert_eq!(i24le(&[0xff, 0xff, 0x7f], 0), 0x7f_ffff);
    assert_eq!(i24le(&[0x00, 0x00, 0x80], 0), -0x80_0000);
    assert_eq!(i24le(&[0xb4, 0x94, 0xff], 0), -27_468);
}

#[test]
fn wide_integers_both_orders() {
    let mut b = [0u8; 16];
    b[0] = 1;
    assert_eq!(u128_le(&b, 0), 1);
    assert_eq!(u128_be(&b, 0), 1u128 << 120);
}

#[test]
fn partition_point_counts_entries_at_most_x() {
    let s = [1u32, 3, 3, 7];
    assert_eq!(partition_point_u32(&s, 0), 0);
    assert_eq!(partition_point_u32(&s, 3), 3);
    assert_eq!(partition_point_u32(&s, 6), 3);
    assert_eq!(partition_point_u32(&s, 9), 4);
}
