//! Behaviour of the bit and alignment utilities.

use boyko_ecs::utils::{
    align_down,
    align_up,
    bitmap_clear,
    bitmap_set,
    bitmap_test,
    is_power_of_two,
    simd_lane_count,
    thread_range,
};

#[test]
fn align_up_rounds_to_the_next_multiple() {
    assert_eq!(align_up(0, 64), 0);
    assert_eq!(align_up(1, 64), 64);
    assert_eq!(align_up(64, 64), 64);
    assert_eq!(align_up(65, 64), 128);
    assert_eq!(align_up(100, 8), 104);
}

#[test]
fn align_down_rounds_to_the_previous_multiple() {
    assert_eq!(align_down(0, 64), 0);
    assert_eq!(align_down(63, 64), 0);
    assert_eq!(align_down(64, 64), 64);
    assert_eq!(align_down(100, 8), 96);
}

#[test]
fn power_of_two_test() {
    assert!(is_power_of_two(1));
    assert!(is_power_of_two(2));
    assert!(is_power_of_two(64));
    assert!(is_power_of_two(4096));
    assert!(!is_power_of_two(0));
    assert!(!is_power_of_two(3));
    assert!(!is_power_of_two(96));
}

#[test]
fn simd_lanes_never_drop_below_one() {
    assert_eq!(simd_lane_count(4, 16), 4);
    assert_eq!(simd_lane_count(8, 32), 4);
    assert_eq!(simd_lane_count(64, 16), 1);
    assert_eq!(simd_lane_count(5, 16), 3);
}

#[test]
fn bitmap_bits_set_test_and_clear() {
    let mut words: Vec<u64> = vec![0, 0];
    assert!(!bitmap_test(&words, 0));
    bitmap_set(&mut words, 0);
    bitmap_set(&mut words, 63);
    bitmap_set(&mut words, 64);
    assert!(bitmap_test(&words, 0));
    assert!(bitmap_test(&words, 63));
    assert!(bitmap_test(&words, 64));
    assert!(!bitmap_test(&words, 1));
    assert!(!bitmap_test(&words, 65));
    bitmap_clear(&mut words, 63);
    assert!(!bitmap_test(&words, 63));
    assert!(bitmap_test(&words, 0));
    assert!(bitmap_test(&words, 64));
}

#[test]
fn thread_ranges_tile_the_items() {
    // Ten items over three threads: the first thread takes the one
    // extra item; the ranges are adjacent and cover everything.
    assert_eq!(thread_range(0, 3, 10), (0, 4));
    assert_eq!(thread_range(1, 3, 10), (4, 7));
    assert_eq!(thread_range(2, 3, 10), (7, 10));
    // More threads than items: the trailing threads get empty ranges.
    assert_eq!(thread_range(0, 4, 2), (0, 1));
    assert_eq!(thread_range(1, 4, 2), (1, 2));
    assert_eq!(thread_range(2, 4, 2), (2, 2));
    assert_eq!(thread_range(3, 4, 2), (2, 2));
    // One thread takes the lot.
    assert_eq!(thread_range(0, 1, 7), (0, 7));
    // No items at all.
    assert_eq!(thread_range(0, 2, 0), (0, 0));
    assert_eq!(thread_range(1, 2, 0), (0, 0));
}
