//! Partitions written out as sums, and the proof that the model counts them.
//!
//! A partition is held as the sequence of its parts, largest first, so that
//! each partition has one sequence. The two theorems at the end say that
//! [`exact_parts`] and [`total_parts`] are the sizes of sets of such
//! sequences.

use crate::model::{exact_parts, parts_up_to, total_parts};
use vstd::prelude::*;
use vstd::relations::injective_on;
use vstd::set_lib::{lemma_map_size, lemma_set_disjoint_lens};

verus! {

/// The sum of the parts.
pub open spec fn sum_of(parts: Seq<int>) -> int
    decreases parts.len(),
{
    if parts.len() == 0 {
        0
    } else {
        sum_of(parts.drop_last()) + parts.last()
    }
}

/// Whether `parts` is a partition of `n` into `k` parts: `k` positive
/// numbers, none larger than the one before it, that add up to `n`.
pub open spec fn is_partition(parts: Seq<int>, n: int, k: int) -> bool {
    &&& parts.len() == k
    &&& forall|i: int| 0 <= i < parts.len() ==> parts[i] >= 1
    &&& forall|i: int, j: int| 0 <= i <= j < parts.len() ==> parts[i] >= parts[j]
    &&& sum_of(parts) == n
}

/// The partitions of `n` into exactly `k` parts.
pub open spec fn partitions_into(n: nat, k: nat) -> Set<Seq<int>> {
    Set::new(|parts: Seq<int>| is_partition(parts, n as int, k as int))
}

/// The partitions of `n` into any positive number of parts.
pub open spec fn partitions_of(n: nat) -> Set<Seq<int>> {
    Set::new(
        |parts: Seq<int>|
            parts.len() >= 1 && is_partition(parts, n as int, parts.len() as int),
    )
}

/// Each part with one added.
pub open spec fn raised(parts: Seq<int>) -> Seq<int> {
    parts.map_values(|part: int| part + 1)
}

/// Each part with one taken off.
pub open spec fn lowered(parts: Seq<int>) -> Seq<int> {
    parts.map_values(|part: int| part - 1)
}

/// One more part adds itself to the sum.
pub proof fn lemma_sum_of_push(parts: Seq<int>, part: int)
    ensures
        sum_of(parts.push(part)) == sum_of(parts) + part,
{
    assert(parts.push(part).drop_last() =~= parts);
}

/// Positive parts add up to at least their number.
pub proof fn lemma_sum_of_positive_parts(parts: Seq<int>)
    requires
        forall|i: int| 0 <= i < parts.len() ==> parts[i] >= 1,
    ensures
        sum_of(parts) >= parts.len(),
    decreases parts.len(),
{
    if parts.len() > 0 {
        lemma_sum_of_positive_parts(parts.drop_last());
    }
}

/// Adding one to each part adds the number of parts to the sum, and taking
/// one off each takes as much away.
pub proof fn lemma_sum_of_shifted(parts: Seq<int>)
    ensures
        sum_of(raised(parts)) == sum_of(parts) + parts.len(),
        sum_of(lowered(parts)) == sum_of(parts) - parts.len(),
    decreases parts.len(),
{
    if parts.len() > 0 {
        lemma_sum_of_shifted(parts.drop_last());
        assert(raised(parts).drop_last() =~= raised(parts.drop_last()));
        assert(lowered(parts).drop_last() =~= lowered(parts.drop_last()));
    }
}

/// A partition with a part equal to one is a partition of one less into one
/// part fewer, with the one appended; and the other way round.
proof fn lemma_partitions_ending_in_one(n: nat, k: nat)
    requires
        1 <= k <= n,
    ensures
        partitions_into((n - 1) as nat, (k - 1) as nat).map(|parts: Seq<int>| parts.push(1))
            == Set::new(
            |parts: Seq<int>| is_partition(parts, n as int, k as int) && parts.last() == 1,
        ),
        injective_on(
            |parts: Seq<int>| parts.push(1),
            partitions_into((n - 1) as nat, (k - 1) as nat),
        ),
{
    let shorter = partitions_into((n - 1) as nat, (k - 1) as nat);
    let append = |parts: Seq<int>| parts.push(1);
    let ending = Set::new(
        |parts: Seq<int>| is_partition(parts, n as int, k as int) && parts.last() == 1,
    );
    assert forall|parts: Seq<int>| shorter.map(append).contains(parts) implies ending.contains(
        parts,
    ) by {
        let short = choose|short: Seq<int>| shorter.contains(short) && parts == append(short);
        lemma_sum_of_push(short, 1);
    }
    assert forall|parts: Seq<int>| ending.contains(parts) implies shorter.map(append).contains(
        parts,
    ) by {
        let short = parts.drop_last();
        assert(parts =~= short.push(1));
        assert(shorter.contains(short));
        assert(parts == append(short));
    }
    assert(shorter.map(append) =~= ending);
    assert forall|one: Seq<int>, other: Seq<int>|
        shorter.contains(one) && shorter.contains(other) && #[trigger] append(one)
            == #[trigger] append(other) implies one == other by {
        assert(one =~= one.push(1).drop_last());
        assert(other =~= other.push(1).drop_last());
    }
}

/// A partition without a part equal to one is a partition of `n - k` into as
/// many parts, with one added to each; and the other way round.
proof fn lemma_partitions_ending_above_one(n: nat, k: nat)
    requires
        1 <= k <= n,
    ensures
        partitions_into((n - k) as nat, k).map(|parts: Seq<int>| raised(parts)) == Set::new(
            |parts: Seq<int>| is_partition(parts, n as int, k as int) && parts.last() != 1,
        ),
        injective_on(|parts: Seq<int>| raised(parts), partitions_into((n - k) as nat, k)),
{
    let lower = partitions_into((n - k) as nat, k);
    let raise = |parts: Seq<int>| raised(parts);
    let ending = Set::new(
        |parts: Seq<int>| is_partition(parts, n as int, k as int) && parts.last() != 1,
    );
    assert forall|parts: Seq<int>| lower.map(raise).contains(parts) implies ending.contains(
        parts,
    ) by {
        let low = choose|low: Seq<int>| lower.contains(low) && parts == raise(low);
        lemma_sum_of_shifted(low);
    }
    assert forall|parts: Seq<int>| ending.contains(parts) implies lower.map(raise).contains(
        parts,
    ) by {
        let low = lowered(parts);
        lemma_sum_of_shifted(parts);
        assert(parts =~= raised(low));
        assert(lower.contains(low));
        assert(parts == raise(low));
    }
    assert(lower.map(raise) =~= ending);
    assert forall|one: Seq<int>, other: Seq<int>|
        lower.contains(one) && lower.contains(other) && #[trigger] raise(one) == #[trigger] raise(
            other,
        ) implies one == other by {
        assert(one =~= lowered(raised(one)));
        assert(other =~= lowered(raised(other)));
    }
}

/// [`exact_parts`] counts the partitions into exactly `k` parts: there are
/// finitely many sequences of `k` positive numbers, none larger than the one
/// before it, that add up to `n`, and `exact_parts(n, k)` is their number.
pub proof fn lemma_exact_parts_counts_partitions(n: nat, k: nat)
    ensures
        partitions_into(n, k).finite(),
        partitions_into(n, k).len() == exact_parts(n, k),
    decreases n,
{
    let all = partitions_into(n, k);
    if k == 0 {
        if n == 0 {
            assert(all =~= set![Seq::<int>::empty()]) by {
                assert forall|parts: Seq<int>| all.contains(parts) implies parts
                    == Seq::<int>::empty() by {
                    assert(parts =~= Seq::<int>::empty());
                }
            }
        } else {
            assert(all =~= Set::<Seq<int>>::empty());
        }
    } else if k > n {
        assert forall|parts: Seq<int>| !all.contains(parts) by {
            if is_partition(parts, n as int, k as int) {
                lemma_sum_of_positive_parts(parts);
            }
        }
        assert(all =~= Set::<Seq<int>>::empty());
    } else {
        let with_one = Set::new(
            |parts: Seq<int>| is_partition(parts, n as int, k as int) && parts.last() == 1,
        );
        let without_one = Set::new(
            |parts: Seq<int>| is_partition(parts, n as int, k as int) && parts.last() != 1,
        );
        lemma_exact_parts_counts_partitions((n - 1) as nat, (k - 1) as nat);
        lemma_partitions_ending_in_one(n, k);
        lemma_map_size(
            partitions_into((n - 1) as nat, (k - 1) as nat),
            with_one,
            |parts: Seq<int>| parts.push(1),
        );
        lemma_exact_parts_counts_partitions((n - k) as nat, k);
        lemma_partitions_ending_above_one(n, k);
        lemma_map_size(
            partitions_into((n - k) as nat, k),
            without_one,
            |parts: Seq<int>| raised(parts),
        );
        assert(all =~= with_one + without_one);
        assert(with_one.disjoint(without_one));
        lemma_set_disjoint_lens(with_one, without_one);
    }
}

/// The counts for `n` and each number of parts from 1 to `k`, in that order.
pub open spec fn exact_counts(n: nat, k: nat) -> Seq<int> {
    Seq::new(k, |i: int| exact_parts(n, (i + 1) as nat) as int)
}

/// [`parts_up_to`] is the sum of the counts for each number of parts from 1
/// to `k`.
pub proof fn lemma_parts_up_to_is_sum_of_exact_parts(n: nat, k: nat)
    ensures
        parts_up_to(n, k) == sum_of(exact_counts(n, k)),
    decreases k,
{
    if k > 0 {
        lemma_parts_up_to_is_sum_of_exact_parts(n, (k - 1) as nat);
        assert(exact_counts(n, k).drop_last() =~= exact_counts(n, (k - 1) as nat));
    }
}

/// The total for `n` is the sum of the counts for `n` and each number of parts
/// from 1 to `n`.
pub proof fn lemma_total_parts_is_sum_of_exact_parts(n: nat)
    ensures
        total_parts(n) == sum_of(exact_counts(n, n)),
{
    lemma_parts_up_to_is_sum_of_exact_parts(n, n);
}

/// The partitions into at least one and at most `k` parts.
spec fn partitions_up_to(n: nat, k: nat) -> Set<Seq<int>> {
    Set::new(
        |parts: Seq<int>|
            1 <= parts.len() <= k && is_partition(parts, n as int, parts.len() as int),
    )
}

/// [`parts_up_to`] counts the partitions into at least one and at most `k`
/// parts.
proof fn lemma_parts_up_to_counts_partitions(n: nat, k: nat)
    ensures
        partitions_up_to(n, k).finite(),
        partitions_up_to(n, k).len() == parts_up_to(n, k),
    decreases k,
{
    if k == 0 {
        assert(partitions_up_to(n, k) =~= Set::<Seq<int>>::empty());
    } else {
        let fewer = partitions_up_to(n, (k - 1) as nat);
        let exactly = partitions_into(n, k);
        lemma_parts_up_to_counts_partitions(n, (k - 1) as nat);
        lemma_exact_parts_counts_partitions(n, k);
        assert(partitions_up_to(n, k) =~= fewer + exactly);
        assert(fewer.disjoint(exactly));
        lemma_set_disjoint_lens(fewer, exactly);
    }
}

/// [`total_parts`] counts the partitions into any positive number of parts:
/// there are finitely many sequences of one or more positive numbers, none
/// larger than the one before it, that add up to `n`, and `total_parts(n)` is
/// their number.
pub proof fn lemma_total_parts_counts_partitions(n: nat)
    ensures
        partitions_of(n).finite(),
        partitions_of(n).len() == total_parts(n),
{
    lemma_parts_up_to_counts_partitions(n, n);
    assert forall|parts: Seq<int>| partitions_of(n).contains(parts) implies partitions_up_to(
        n,
        n,
    ).contains(parts) by {
        lemma_sum_of_positive_parts(parts);
    }
    assert(partitions_of(n) =~= partitions_up_to(n, n));
}

} // verus!
