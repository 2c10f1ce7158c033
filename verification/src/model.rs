//! The mathematical model: what "the number of partitions" means.
//!
//! Everything here is ghost code. The executable counters state their results
//! over [`exact_parts`] and [`total_parts`]; the lemmas are the facts about
//! these two that the counters' shortcuts rest on, and bounds that tell when a
//! count fits in 64 bits. That the two functions count what they are named
//! after, partitions written out as sums, is proved in [`crate::sums`].

use vstd::arithmetic::power2::{
    lemma2_to64, lemma2_to64_rest, lemma_pow2_strictly_increases, lemma_pow2_unfold, pow2,
};
use vstd::prelude::*;

verus! {

/// The number of ways to write `n` as a sum of exactly `k` positive integers,
/// two sums that differ only in the order of their terms being the same way.
///
/// A partition of `n` into `k` parts either has a part equal to one, and
/// dropping it leaves a partition of `n - 1` into `k - 1` parts, or all its
/// parts are at least two, and taking one off each leaves a partition of
/// `n - k` into `k` parts. Zero has the empty sum and no other.
///
/// [`crate::sums::lemma_exact_parts_counts_partitions`] proves that this is
/// the size of the set of such sums.
pub open spec fn exact_parts(n: nat, k: nat) -> nat
    decreases n,
{
    if k == 0 {
        if n == 0 {
            1
        } else {
            0
        }
    } else if k > n {
        0
    } else {
        exact_parts((n - 1) as nat, (k - 1) as nat) + exact_parts((n - k) as nat, k)
    }
}

/// The number of partitions of `n` into at least one and at most `k` parts:
/// the sum of `exact_parts(n, i)` for `i` from 1 to `k`.
pub open spec fn parts_up_to(n: nat, k: nat) -> nat
    decreases k,
{
    if k == 0 {
        0
    } else {
        parts_up_to(n, (k - 1) as nat) + exact_parts(n, k)
    }
}

/// The number of partitions of `n` into any positive number of parts: the sum
/// of `exact_parts(n, k)` for `k` from 1 to `n`.
///
/// For `n >= 1` this is the partition function p(n). For zero it is 0, the
/// empty sum not being counted, where the usual convention has p(0) = 1.
///
/// [`crate::sums::lemma_total_parts_counts_partitions`] proves that this is
/// the size of the set of such sums.
pub open spec fn total_parts(n: nat) -> nat {
    parts_up_to(n, n)
}

/// No number splits into more positive parts than it has units.
pub proof fn lemma_more_parts_than_units(n: nat, k: nat)
    requires
        k > n,
    ensures
        exact_parts(n, k) == 0,
{
}

/// A number splits into as many parts as it has units in one way: all ones.
pub proof fn lemma_all_ones(n: nat)
    ensures
        exact_parts(n, n) == 1,
    decreases n,
{
    if n > 0 {
        lemma_all_ones((n - 1) as nat);
        assert(exact_parts(0, n) == 0);
    }
}

/// A positive number is a sum of one part in one way: itself.
pub proof fn lemma_single_part(n: nat)
    requires
        n >= 1,
    ensures
        exact_parts(n, 1) == 1,
    decreases n,
{
    if n > 1 {
        lemma_single_part((n - 1) as nat);
        assert(exact_parts((n - 1) as nat, 0) == 0);
    } else {
        assert(exact_parts(0, 0) == 1);
        assert(exact_parts(0, 1) == 0);
    }
}

/// A number splits into two parts in half as many ways as it has units,
/// rounded down: the smaller part runs from 1 to `n / 2`.
pub proof fn lemma_two_parts(n: nat)
    requires
        n >= 2,
    ensures
        exact_parts(n, 2) == n / 2,
    decreases n,
{
    lemma_single_part((n - 1) as nat);
    if n >= 4 {
        lemma_two_parts((n - 2) as nat);
    } else {
        assert(exact_parts((n - 2) as nat, 2) == 0);
    }
}

/// Taking one off each of `k` parts leaves at most `k` parts: the partitions
/// of `n` into exactly `k` parts are as many as those of `n - k` into at most
/// `k`, the empty sum included where `n == k`.
pub proof fn lemma_one_off_each_part(n: nat, k: nat)
    requires
        k <= n,
    ensures
        exact_parts(n, k) == parts_up_to((n - k) as nat, k) + exact_parts((n - k) as nat, 0),
    decreases k,
{
    if k > 0 {
        lemma_one_off_each_part((n - 1) as nat, (k - 1) as nat);
    }
}

/// Allowing more parts never loses a partition.
pub proof fn lemma_parts_up_to_grows(n: nat, i: nat, k: nat)
    requires
        i <= k,
    ensures
        parts_up_to(n, i) <= parts_up_to(n, k),
    decreases k,
{
    if i < k {
        lemma_parts_up_to_grows(n, i, (k - 1) as nat);
    }
}

/// Allowing more parts than `n` has units adds nothing.
pub proof fn lemma_parts_up_to_saturates(n: nat, k: nat)
    requires
        k >= n,
    ensures
        parts_up_to(n, k) == total_parts(n),
    decreases k,
{
    if k > n {
        lemma_parts_up_to_saturates(n, (k - 1) as nat);
    }
}

/// The partitions into exactly `k` parts are among all the partitions.
pub proof fn lemma_exact_within_total(n: nat, k: nat)
    requires
        1 <= k,
    ensures
        exact_parts(n, k) <= total_parts(n),
{
    if k <= n {
        lemma_parts_up_to_grows(n, k, n);
    }
}

/// With the number of parts fixed, a larger number has no fewer partitions:
/// one more on the largest part tells them apart.
pub proof fn lemma_exact_parts_grows(n: nat, k: nat)
    requires
        k >= 1,
    ensures
        exact_parts(n, k) <= exact_parts(n + 1, k),
    decreases n,
{
    if k == 1 {
        lemma_single_part(n + 1);
        if n >= 1 {
            lemma_single_part(n);
        }
    } else if k <= n {
        lemma_exact_parts_grows((n - 1) as nat, (k - 1) as nat);
        lemma_exact_parts_grows((n - k) as nat, k);
    }
}

/// [`lemma_exact_parts_grows`], over any distance.
pub proof fn lemma_exact_parts_grows_far(smaller: nat, larger: nat, k: nat)
    requires
        k >= 1,
        smaller <= larger,
    ensures
        exact_parts(smaller, k) <= exact_parts(larger, k),
    decreases larger - smaller,
{
    if smaller < larger {
        lemma_exact_parts_grows_far(smaller, (larger - 1) as nat, k);
        lemma_exact_parts_grows((larger - 1) as nat, k);
    }
}

/// The partitions of `n` into up to `j` parts, set against those of `n - 1`:
/// those with a part equal to one are as many as the partitions of `n - 1`
/// into one part fewer, and the others no more than those of `n - 1` into as
/// many parts.
proof fn lemma_parts_up_to_against_one_less(n: nat, j: nat)
    requires
        n >= 1,
    ensures
        parts_up_to(n, j) + exact_parts((n - 1) as nat, j) <= exact_parts((n - 1) as nat, 0) + 2
            * parts_up_to((n - 1) as nat, j),
    decreases j,
{
    if j >= 1 {
        lemma_parts_up_to_against_one_less(n, (j - 1) as nat);
        if j <= n {
            lemma_exact_parts_grows_far((n - j) as nat, (n - 1) as nat, j);
        }
    }
}

/// A number has at most twice as many partitions as the number before it.
pub proof fn lemma_total_parts_at_most_doubles(n: nat)
    requires
        n >= 2,
    ensures
        total_parts(n) <= 2 * total_parts((n - 1) as nat),
{
    lemma_parts_up_to_against_one_less(n, n);
    lemma_parts_up_to_saturates((n - 1) as nat, n);
}

/// A positive number `n` has at most `2^(n - 1)` partitions.
pub proof fn lemma_total_parts_bound(n: nat)
    requires
        n >= 1,
    ensures
        total_parts(n) <= pow2((n - 1) as nat),
    decreases n,
{
    if n == 1 {
        lemma_single_part(1);
        assert(parts_up_to(1, 0) == 0);
        lemma2_to64();
    } else {
        lemma_total_parts_bound((n - 1) as nat);
        lemma_total_parts_at_most_doubles(n);
        lemma_pow2_unfold((n - 1) as nat);
    }
}

/// Up to 63, every count fits in a signed 64-bit integer: the callers of the
/// counters that add without a check can tell so beforehand.
pub proof fn lemma_counts_up_to_63_fit(n: nat, k: nat)
    requires
        n <= 63,
    ensures
        total_parts(n) <= i64::MAX,
        exact_parts(n, k) <= i64::MAX,
{
    lemma2_to64_rest();
    if n >= 1 {
        lemma_total_parts_bound(n);
        if n < 63 {
            lemma_pow2_strictly_increases((n - 1) as nat, 62);
        }
    }
    if k >= 1 {
        lemma_exact_within_total(n, k);
    }
}

} // verus!
