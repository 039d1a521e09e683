use std::cmp::Ordering;

use k_bucket::Direction;
use k_bucket::GetDirection;
use k_bucket::GetDistance;
use k_bucket::KeyOrder;
use k_bucket::LeadingZeros;

#[test]
fn test_distance() {
    let left = [0, 0, 0, 0, 0, 0, 0, 1];
    let right = [0, 0, 0, 0, 1, 0, 0, 2];

    let result = left.distance(&right);
    assert_eq!(result, [0, 0, 0, 0, 1, 0, 0, 3]);
    assert_eq!(result, right.distance(&left));
}

#[test]
fn test_direction() {
    let key = [1, 0, 0, 0, 0, 0, 0, 1];
    assert_eq!(key.direction(7), Direction::Right);
    assert_eq!(key.direction(1), Direction::Left);
}

#[test]
fn distance_is_symmetric_and_zero_on_self() {
    let a: [u8; 3] = [0xf0, 0x0f, 0xaa];
    let b: [u8; 3] = [0x0f, 0x0f, 0x55];
    assert_eq!(a.distance(&b), [0xff, 0x00, 0xff]);
    assert_eq!(a.distance(&b), b.distance(&a));
    assert_eq!(a.distance(&a), [0, 0, 0]);
}

#[test]
fn direction_reads_bits_most_significant_first() {
    let key: [u8; 2] = [0x80, 0x01];
    assert_eq!(key.direction(0), Direction::Right);
    assert_eq!(key.direction(1), Direction::Left);
    assert_eq!(key.direction(8), Direction::Left);
    assert_eq!(key.direction(15), Direction::Right);
}

#[test]
fn key_bits_counts_eight_per_byte() {
    assert_eq!(<[u8; 2] as GetDirection>::key_bits(), 16);
    assert_eq!(<[u8; 8] as GetDirection>::key_bits(), 64);
}

#[test]
fn leading_zeros_counts_across_bytes() {
    let key: [u8; 2] = [0x00, 0x10];
    assert_eq!(key.leading_zeros(), 11);
    let key: [u8; 2] = [0x40, 0x00];
    assert_eq!(key.leading_zeros(), 1);
    let key: [u8; 2] = [0, 0];
    assert_eq!(key.leading_zeros(), 16);
}

#[test]
fn leading_zeros_saturates_past_a_byte() {
    let key = [0u8; 40];
    assert_eq!(key.leading_zeros(), 255);
    let mut key = [0u8; 40];
    key[31] = 1;
    assert_eq!(key.leading_zeros(), 255);
    let mut key = [0u8; 40];
    key[31] = 0x80;
    assert_eq!(key.leading_zeros(), 248);
}

#[test]
fn key_cmp_is_byte_wise_lexicographic() {
    let a: [u8; 2] = [0x01, 0xff];
    let b: [u8; 2] = [0x02, 0x00];
    assert_eq!(a.key_cmp(&b), Ordering::Less);
    assert_eq!(b.key_cmp(&a), Ordering::Greater);
    assert_eq!(a.key_cmp(&a), Ordering::Equal);
    let c: [u8; 2] = [0x01, 0xfe];
    assert_eq!(a.key_cmp(&c), Ordering::Greater);
}
