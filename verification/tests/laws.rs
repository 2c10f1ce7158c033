//! What holds of every input, tried on a range of them against a plain table.

use partitions::counter::{checked_partition, checked_partitions, partition, partitions};
use partitions::memo::MemoHash;

/// `table[n][k]`: the partitions of `n` into exactly `k` parts, by the textbook recurrence.
fn table(limit: usize) -> Vec<Vec<i64>> {
    let mut table = vec![vec![0i64; limit + 1]; limit + 1];
    table[0][0] = 1;
    for n in 1..=limit {
        for k in 1..=n {
            table[n][k] = table[n - 1][k - 1] + table[n - k][k];
        }
    }
    table
}

#[test]
fn total_is_the_sum_over_all_numbers_of_parts() {
    for n in 1..=60 {
        let mut memo = MemoHash::new();
        let total = partitions(n, &mut memo);
        let mut sum = 0;
        for k in 1..=n {
            let mut fresh = MemoHash::new();
            sum += partition(n, k, 0, &mut fresh);
        }
        assert_eq!(total, sum, "n = {}", n);
    }
}

#[test]
fn more_parts_than_units_is_impossible() {
    let mut memo = MemoHash::new();
    for n in 0..=60 {
        for k in (n + 1)..=(n + 5) {
            assert_eq!(partition(n, k, 0, &mut memo), 0, "n = {}, k = {}", n, k);
        }
    }
    assert_eq!(partition(0, 1, 0, &mut memo), 0);
    assert_eq!(partition(1000, i32::MAX, 0, &mut memo), 0);
    assert_eq!(memo.len(), 0);
}

#[test]
fn all_ones_and_one_part_are_the_only_way() {
    let mut memo = MemoHash::new();
    for n in 1..=200 {
        assert_eq!(partition(n, n, 0, &mut memo), 1, "n = {}", n);
        assert_eq!(partition(n, 1, 0, &mut memo), 1, "n = {}", n);
    }
    assert_eq!(partition(i32::MAX, i32::MAX, 0, &mut memo), 1);
    assert_eq!(partition(i32::MAX, 1, 0, &mut memo), 1);
    assert_eq!(partition(0, 0 + 1, 5, &mut memo), 0);
}

#[test]
fn two_parts_are_half_the_number() {
    let mut memo = MemoHash::new();
    for n in 2..=200 {
        assert_eq!(partition(n, 2, 0, &mut memo), (n / 2) as i64, "n = {}", n);
    }
    assert_eq!(partition(i32::MAX, 2, 0, &mut memo), 1_073_741_823);
}

#[test]
fn every_count_matches_the_recurrence() {
    let expected = table(64);
    for n in 0..=64 {
        for k in 1..=(n + 1) {
            let mut memo = MemoHash::new();
            assert_eq!(
                partition(n as i32, k as i32, 0, &mut memo),
                if k > n { 0 } else { expected[n][k] },
                "n = {}, k = {}",
                n,
                k
            );
        }
    }
}

#[test]
fn a_warm_cache_changes_no_count() {
    let expected = table(130);
    let mut shared = MemoHash::new();
    for round in 0..2 {
        for n in [130, 101, 100, 77, 53, 52, 51, 50, 49, 40] {
            for k in 1..=(n - 30) {
                assert_eq!(
                    partition(n as i32, k as i32, 0, &mut shared),
                    expected[n][k],
                    "round {}, n = {}, k = {}",
                    round,
                    n,
                    k
                );
            }
        }
    }
    assert!(shared.len() > 0);
}

#[test]
fn cached_deltas_replay_against_any_accumulator() {
    let mut cold = MemoHash::new();
    let first = partition(120, 30, 0, &mut cold);
    let filled = cold.len();
    assert!(filled > 0);
    // The second run finds every top-level term in the cache.
    let second = partition(120, 30, 0, &mut cold);
    assert_eq!(first, second);
    assert_eq!(cold.len(), filled);
    let shifted = partition(120, 30, 12345, &mut cold);
    assert_eq!(shifted, first + 12345);
    let mut fresh = MemoHash::new();
    assert_eq!(partition(120, 30, 12345, &mut fresh), first + 12345);
}

#[test]
fn below_the_threshold_nothing_is_remembered() {
    let mut memo = MemoHash::new();
    for n in 0..=52 {
        for k in 1..=n {
            if n - k < 50 {
                partition(n, k, 0, &mut memo);
            }
        }
    }
    assert_eq!(memo.len(), 0);
    partition(60, 7, 0, &mut memo);
    assert!(memo.len() > 0);
}

#[test]
fn what_a_count_remembers() {
    // 60 into 7 parts looks at 53 into 7, 6, ... , 1; of these, 53 into 3 looks at 50 into 3.
    let expected = table(60);
    let mut memo = MemoHash::new();
    partition(60, 7, 0, &mut memo);
    assert_eq!(memo.len(), 6);
    for i in 3..=7 {
        assert_eq!(memo.get(53, i), Some(expected[53][i as usize]), "i = {}", i);
    }
    assert_eq!(memo.get(50, 3), Some(expected[50][3]));
    assert_eq!(memo.get(53, 2), None);
    assert_eq!(memo.get(53, 8), None);
    assert_eq!(memo.get(46, 7), None);

    let mut memo = MemoHash::new();
    partition(100, 50, 0, &mut memo);
    assert_eq!(memo.len(), 47);
    for i in 3..50 {
        assert_eq!(memo.get(50, i), Some(table(50)[50][i as usize]), "i = {}", i);
    }

    let mut memo = MemoHash::new();
    partition(120, 30, 0, &mut memo);
    assert_eq!(memo.len(), 589);
}

#[test]
fn what_a_total_remembers() {
    let mut memo = MemoHash::new();
    partitions(52, &mut memo);
    assert_eq!(memo.len(), 0);
    partitions(53, &mut memo);
    assert_eq!(memo.len(), 1);
    assert_eq!(memo.get(50, 3), Some(table(50)[50][3]));
    let mut memo = MemoHash::new();
    partitions(60, &mut memo);
    assert_eq!(memo.len(), 36);
    let mut memo = MemoHash::new();
    partitions(100, &mut memo);
    assert_eq!(memo.len(), 1175);
}

#[test]
fn what_is_known_is_not_looked_into() {
    // With 53 into 3 known, 50 into 3 is never asked for.
    let mut memo = MemoHash::new();
    memo.record(53, 3, 234);
    assert_eq!(partition(56, 3, 0, &mut memo), 261);
    assert_eq!(memo.len(), 1);
    assert_eq!(memo.get(50, 3), None);
    let mut fresh = MemoHash::new();
    assert_eq!(partition(56, 3, 0, &mut fresh), 261);
    assert_eq!(fresh.len(), 2);
}

#[test]
fn checked_counts_remember_the_same() {
    let mut memo = MemoHash::new();
    assert_eq!(checked_partition(60, 7, 0, &mut memo), Some(23961));
    assert_eq!(memo.len(), 6);
    let mut memo = MemoHash::new();
    assert_eq!(checked_partitions(100, &mut memo), Some(190569292));
    assert_eq!(memo.len(), 1175);
}

#[test]
fn the_cache_only_grows() {
    let mut memo = MemoHash::new();
    partition(110, 12, 0, &mut memo);
    let stored = memo.get(98, 12);
    assert_eq!(stored, Some(table(98)[98][12]));
    let before = memo.len();
    partition(130, 9, 0, &mut memo);
    assert!(memo.len() >= before);
    assert_eq!(memo.get(98, 12), stored);
}

#[test]
fn checked_counts_agree_with_unchecked_ones() {
    let expected = table(64);
    for n in 0..=64 {
        for k in 1..=(n + 1) {
            let mut memo = MemoHash::new();
            assert_eq!(
                checked_partition(n as i32, k as i32, 0, &mut memo),
                Some(if k > n { 0 } else { expected[n][k] }),
                "n = {}, k = {}",
                n,
                k
            );
        }
        let mut memo = MemoHash::new();
        let total: i64 = expected[n][1..].iter().sum();
        assert_eq!(checked_partitions(n as i32, &mut memo), Some(total), "n = {}", n);
    }
}

#[test]
fn checked_counts_stop_at_sixty_four_bits() {
    let mut memo = MemoHash::new();
    assert_eq!(checked_partitions(405, &mut memo), Some(9147679068859117602));
    assert_eq!(checked_partitions(406, &mut memo), None);
    // One off each of 406 parts of 812 leaves the partitions of 406.
    assert_eq!(checked_partition(811, 406, 0, &mut memo), Some(9147679068859117602));
    assert_eq!(checked_partition(812, 406, 0, &mut memo), None);
}

#[test]
fn checked_counts_mind_the_accumulator() {
    let mut memo = MemoHash::new();
    assert_eq!(checked_partition(6, 3, i64::MAX - 3, &mut memo), Some(i64::MAX));
    assert_eq!(checked_partition(6, 3, i64::MAX - 2, &mut memo), None);
    assert_eq!(checked_partition(9, 9, i64::MAX, &mut memo), None);
    assert_eq!(checked_partition(9, 1, i64::MAX - 1, &mut memo), Some(i64::MAX));
    assert_eq!(checked_partition(9, 2, i64::MAX - 3, &mut memo), None);
    assert_eq!(checked_partition(9, 2, i64::MAX - 4, &mut memo), Some(i64::MAX));
    assert_eq!(checked_partition(100, 50, i64::MAX - 204226, &mut memo), Some(i64::MAX));
    assert_eq!(checked_partition(100, 50, i64::MAX - 204225, &mut memo), None);
    // Found in the cache this time, and still too much.
    assert_eq!(checked_partition(100, 50, i64::MAX - 204225, &mut memo), None);
    assert_eq!(checked_partition(3, 5, i64::MAX, &mut memo), Some(0));
}
