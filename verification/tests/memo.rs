//! The cache and the rule for what goes into it.

use partitions::memo::{not_trivial, tag, MemoHash, BIG_ENOUGH_TO_BE_WORTH_MEMOING};

#[test]
fn the_threshold_is_fifty() {
    assert_eq!(BIG_ENOUGH_TO_BE_WORTH_MEMOING, 50);
}

#[test]
fn immediate_counts_are_trivial() {
    assert!(!not_trivial(100, 1));
    assert!(!not_trivial(100, 2));
    assert!(!not_trivial(100, 100));
}

#[test]
fn small_numbers_are_trivial() {
    assert!(!not_trivial(49, 7));
    assert!(!not_trivial(0, 5));
    assert!(!not_trivial(-3, 5));
}

#[test]
fn the_rest_is_worth_remembering() {
    assert!(not_trivial(50, 7));
    assert!(not_trivial(50, 3));
    assert!(not_trivial(50, 49));
    assert!(not_trivial(100, 50));
    assert!(not_trivial(50, 51));
    assert!(not_trivial(i32::MAX, 3));
}

#[test]
fn a_key_is_the_square_plus_both_numbers() {
    assert_eq!(tag(50, 3), 2553);
    assert_eq!(tag(53, 7), 2869);
    assert_eq!(tag(0, 0), 0);
    assert_eq!(tag(1, 0), 2);
    assert_eq!(tag(1, 1), 3);
    assert_eq!(tag(46341, 3), 2147534625);
    assert_eq!(tag(i32::MAX, i32::MAX), 4611686018427387903);
    assert_eq!(tag(i32::MIN, i32::MIN), 4611686014132420608);
}

#[test]
fn keys_of_one_number_end_before_those_of_the_next_begin() {
    for m in 0..2000 {
        assert!(tag(m, m) < tag(m + 1, 0), "m = {}", m);
        assert_eq!(tag(m, m) - tag(m, 0), m as i64, "m = {}", m);
    }
    assert!(tag(i32::MAX - 1, i32::MAX - 1) < tag(i32::MAX, 0));
}

#[test]
fn a_new_cache_is_empty() {
    let memo = MemoHash::new();
    assert_eq!(memo.len(), 0);
    assert_eq!(memo.get(60, 7), None);
}

#[test]
fn what_is_recorded_is_found_again() {
    let mut memo = MemoHash::new();
    memo.record(60, 7, 23961);
    assert_eq!(memo.len(), 1);
    assert_eq!(memo.get(60, 7), Some(23961));
    assert_eq!(memo.get(60, 8), None);
    assert_eq!(memo.get(59, 7), None);
}

#[test]
fn the_first_record_stays() {
    let mut memo = MemoHash::new();
    memo.record(60, 7, 23961);
    memo.record(60, 7, 1);
    assert_eq!(memo.len(), 1);
    assert_eq!(memo.get(60, 7), Some(23961));
}

#[test]
fn neighbouring_subproblems_have_keys_of_their_own() {
    // (m, m) has the last key of m, (m + 1, 0) the first of m + 1.
    let mut memo = MemoHash::new();
    let mut count = 0;
    for m in 50..90 {
        for i in 3..m {
            memo.record(m, i, (m * 1000 + i) as i64);
            count += 1;
        }
    }
    assert_eq!(memo.len(), count);
    for m in 50..90 {
        for i in 3..m {
            assert_eq!(memo.get(m, i), Some((m * 1000 + i) as i64));
        }
    }
}

#[test]
fn keys_of_large_numbers_do_not_wrap() {
    // 46341 is the first number whose square is beyond 32 bits.
    let mut memo = MemoHash::new();
    memo.record(46341, 3, 7);
    memo.record(i32::MAX, 3, 9);
    memo.record(i32::MAX, i32::MAX - 1, 11);
    assert_eq!(memo.len(), 3);
    assert_eq!(memo.get(46341, 3), Some(7));
    assert_eq!(memo.get(i32::MAX, 3), Some(9));
    assert_eq!(memo.get(i32::MAX, i32::MAX - 1), Some(11));
    assert_eq!(memo.get(46340, 3), None);
}
