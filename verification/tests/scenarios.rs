//! Known counts, small and large.

use partitions::counter::{partition, partitions};
use partitions::memo::MemoHash;

#[test]
fn five_into_two_parts() {
    // 4+1, 3+2
    let mut memo = MemoHash::new();
    assert_eq!(partition(5, 2, 0, &mut memo), 2);
}

#[test]
fn six_into_three_parts() {
    // 4+1+1, 3+2+1, 2+2+2
    let mut memo = MemoHash::new();
    assert_eq!(partition(6, 3, 0, &mut memo), 3);
}

#[test]
fn all_partitions_of_five() {
    // 5; 4+1; 3+2; 3+1+1; 2+2+1; 2+1+1+1; 1+1+1+1+1
    let mut memo = MemoHash::new();
    assert_eq!(partitions(5, &mut memo), 7);
}

#[test]
fn all_partitions_of_ten() {
    let mut memo = MemoHash::new();
    assert_eq!(partitions(10, &mut memo), 42);
}

#[test]
fn hundred_into_fifty_parts() {
    // One off each of fifty parts leaves the partitions of 50, of which there are 204226.
    let mut memo = MemoHash::new();
    assert_eq!(partition(100, 50, 0, &mut memo), 204226);
    assert!(memo.len() > 0);
}

#[test]
fn zero_has_no_counted_partition() {
    // The empty sum is not counted, against the usual convention p(0) = 1.
    let mut memo = MemoHash::new();
    assert_eq!(partitions(0, &mut memo), 0);
    assert_eq!(memo.len(), 0);
}

#[test]
fn all_partitions_of_one_hundred() {
    let mut memo = MemoHash::new();
    assert_eq!(partitions(100, &mut memo), 190569292);
}

#[test]
fn counts_beyond_the_threshold() {
    let mut memo = MemoHash::new();
    assert_eq!(partition(200, 20, 0, &mut memo), 87438760128);
    assert_eq!(partition(150, 75, 0, &mut memo), 8118264);
    assert_eq!(partition(120, 40, 0, &mut memo), 15618506);
    assert_eq!(partition(99, 33, 0, &mut memo), 2279700);
}

#[test]
fn counts_around_the_threshold() {
    let mut memo = MemoHash::new();
    assert_eq!(partition(49, 7, 0, &mut memo), 8033);
    assert_eq!(partition(50, 7, 0, &mut memo), 8946);
    assert_eq!(partition(53, 3, 0, &mut memo), 234);
    assert_eq!(partition(60, 7, 0, &mut memo), 23961);
}

#[test]
fn the_largest_total_in_sixty_four_bits() {
    let mut memo = MemoHash::new();
    assert_eq!(partitions(405, &mut memo), 9147679068859117602);
}

#[test]
fn the_accumulator_is_added_to() {
    let mut memo = MemoHash::new();
    assert_eq!(partition(6, 3, 10, &mut memo), 13);
    assert_eq!(partition(100, 50, 1_000_000, &mut memo), 1_204_226);
    assert_eq!(partition(7, 7, 41, &mut memo), 42);
    assert_eq!(partition(7, 1, 41, &mut memo), 42);
    assert_eq!(partition(7, 2, 41, &mut memo), 44);
}

#[test]
fn the_accumulator_is_dropped_where_nothing_is_counted() {
    let mut memo = MemoHash::new();
    assert_eq!(partition(3, 5, 17, &mut memo), 0);
}
