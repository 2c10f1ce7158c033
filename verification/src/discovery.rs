//! Which subproblems a count comes to remember.

use crate::memo::{
    cacheable, lemma_memo_key_fits, lemma_memo_key_is_injective, memo_key,
    BIG_ENOUGH_TO_BE_WORTH_MEMOING,
};
use vstd::prelude::*;

verus! {

/// Whether `(m, i)` is a subproblem worth remembering of which nothing is
/// `known`.
pub open spec fn fresh_term(m: int, i: int, known: Set<i64>) -> bool {
    cacheable(m, i) && !known.contains(memo_key(m, i) as i64)
}

/// Whether counting the partitions of `n` into `k` parts, with the subproblems
/// under the `known` keys remembered already, comes to remember one under
/// `key`.
///
/// A count that is answered at once looks at no subproblem. Any other looks
/// at `(n - k, i)` for each `i` up to `k`. One that is not worth remembering
/// is recomputed each time, and so is all that it rests on. One that is known
/// is looked up, and nothing else is. Any other is counted, which may discover
/// more, and then remembered itself.
pub open spec fn discovers(n: int, k: int, known: Set<i64>, key: i64) -> bool
    decreases n,
{
    &&& 2 < k < n
    &&& exists|i: int|
        1 <= i <= k && #[trigger] fresh_term(n - k, i, known) && (key == memo_key(n - k, i)
            || discovers(n - k, i, known, key))
}

/// The keys that counting the partitions of `n` into `k` parts adds to a cache
/// that holds the `known` ones.
pub open spec fn discovered(n: int, k: int, known: Set<i64>) -> Set<i64> {
    Set::new(|key: i64| discovers(n, k, known, key))
}

/// Nothing is discovered below a subproblem that is not worth remembering.
pub proof fn lemma_trivial_discovers_nothing(m: int, i: int, known: Set<i64>, key: i64)
    requires
        !cacheable(m, i),
        1 <= i <= m <= i32::MAX,
    ensures
        !discovers(m, i, known, key),
{
}

/// Nothing is discovered where what is left after one is taken off each part
/// is below the threshold: the count is made without the cache.
pub proof fn lemma_small_numbers_discover_nothing(n: int, k: int, known: Set<i64>, key: i64)
    requires
        n - k < BIG_ENOUGH_TO_BE_WORTH_MEMOING,
    ensures
        !discovers(n, k, known, key),
{
}

/// The more is known, the less is discovered.
pub proof fn lemma_knowing_more_discovers_less(
    n: int,
    k: int,
    known: Set<i64>,
    grown: Set<i64>,
    key: i64,
)
    requires
        known.subset_of(grown),
        discovers(n, k, grown, key),
    ensures
        discovers(n, k, known, key),
    decreases n,
{
    let i = choose|i: int|
        1 <= i <= k && #[trigger] fresh_term(n - k, i, grown) && (key == memo_key(n - k, i)
            || discovers(n - k, i, grown, key));
    if key != memo_key(n - k, i) {
        lemma_knowing_more_discovers_less(n - k, i, known, grown, key);
    }
    assert(fresh_term(n - k, i, known));
}

/// What a discovered subproblem discovers, the count that discovered it
/// discovers too.
pub proof fn lemma_discovery_is_transitive(
    n: int,
    k: int,
    known: Set<i64>,
    a: int,
    b: int,
    key: i64,
)
    requires
        cacheable(a, b),
        discovers(n, k, known, memo_key(a, b) as i64),
        discovers(a, b, known, key),
    ensures
        discovers(n, k, known, key),
    decreases n,
{
    let through = memo_key(a, b) as i64;
    let i = choose|i: int|
        1 <= i <= k && #[trigger] fresh_term(n - k, i, known) && (through == memo_key(n - k, i)
            || discovers(n - k, i, known, through));
    lemma_memo_key_fits(a, b);
    if through == memo_key(n - k, i) {
        lemma_memo_key_is_injective(a, b, n - k, i);
    } else {
        lemma_discovery_is_transitive(n - k, i, known, a, b, key);
    }
    assert(fresh_term(n - k, i, known));
}

/// Whether `grown` holds, with each subproblem that it has beyond `known`, all
/// that counting it discovers from `known`.
pub open spec fn holds_what_it_rests_on(grown: Set<i64>, known: Set<i64>) -> bool {
    forall|a: int, b: int, key: i64|
        cacheable(a, b) && grown.contains(memo_key(a, b) as i64) && !known.contains(
            memo_key(a, b) as i64,
        ) && #[trigger] discovers(a, b, known, key) ==> grown.contains(key)
}

/// What a count discovers from `known`, it finds in a cache grown from
/// `known` or discovers from there too, provided that the cache holds all that
/// its new entries rest on.
pub proof fn lemma_discovers_from_grown(
    n: int,
    k: int,
    known: Set<i64>,
    grown: Set<i64>,
    key: i64,
)
    requires
        known.subset_of(grown),
        holds_what_it_rests_on(grown, known),
        discovers(n, k, known, key),
    ensures
        grown.contains(key) || discovers(n, k, grown, key),
    decreases n,
{
    let i = choose|i: int|
        1 <= i <= k && #[trigger] fresh_term(n - k, i, known) && (key == memo_key(n - k, i)
            || discovers(n - k, i, known, key));
    let term = memo_key(n - k, i) as i64;
    lemma_memo_key_fits(n - k, i);
    if !grown.contains(term) {
        if key != term {
            lemma_discovers_from_grown(n - k, i, known, grown, key);
        }
        if !grown.contains(key) {
            assert(fresh_term(n - k, i, grown));
        }
    }
}

/// The keys that counting the partitions of `n` into each number of parts
/// from 1 to `n` adds to a cache that holds the `known` ones.
pub open spec fn discovered_by_all(n: int, known: Set<i64>) -> Set<i64> {
    Set::new(|key: i64| exists|k: int| 1 <= k <= n && #[trigger] discovers(n, k, known, key))
}

/// Whether the terms of `(n, k)` above `floor` discover `key`: what
/// [`discovers`] says, for the part of the sum that has been added up when
/// the term `floor` is next.
pub open spec fn discovers_above(n: int, k: int, floor: int, known: Set<i64>, key: i64) -> bool {
    &&& 2 < k < n
    &&& exists|i: int|
        floor < i <= k && #[trigger] fresh_term(n - k, i, known) && (key == memo_key(n - k, i)
            || discovers(n - k, i, known, key))
}

/// Whether a cache that held `known` holds `grown` once the terms of `(n, k)`
/// above `floor` are added up.
pub open spec fn terms_added(n: int, k: int, floor: int, known: Set<i64>, grown: Set<i64>) -> bool {
    &&& forall|key: i64|
        grown.contains(key) <==> known.contains(key) || discovers_above(n, k, floor, known, key)
    &&& holds_what_it_rests_on(grown, known)
}

/// Before the first term, the cache is as it was.
pub proof fn lemma_no_term_added(n: int, k: int, known: Set<i64>)
    ensures
        terms_added(n, k, k, known, known),
{
}

/// After the last term, the cache holds what the count discovers.
pub proof fn lemma_all_terms_added(n: int, k: int, known: Set<i64>, grown: Set<i64>)
    requires
        terms_added(n, k, 0, known, grown),
    ensures
        grown == known.union(discovered(n, k, known)),
{
    assert forall|key: i64| discovers_above(n, k, 0, known, key) == discovers(
        n,
        k,
        known,
        key,
    ) by {}
    assert(grown =~= known.union(discovered(n, k, known)));
}

/// A term that is not worth remembering leaves the cache as it is.
pub proof fn lemma_term_passed(n: int, k: int, i: int, known: Set<i64>, grown: Set<i64>)
    requires
        terms_added(n, k, i, known, grown),
        !cacheable(n - k, i),
    ensures
        terms_added(n, k, i - 1, known, grown),
{
    assert forall|key: i64| discovers_above(n, k, i - 1, known, key) == discovers_above(
        n,
        k,
        i,
        known,
        key,
    ) by {
        if discovers_above(n, k, i - 1, known, key) {
            let j = choose|j: int|
                i - 1 < j <= k && #[trigger] fresh_term(n - k, j, known) && (key == memo_key(
                    n - k,
                    j,
                ) || discovers(n - k, j, known, key));
            assert(i < j);
        }
    }
}

/// A term that is not worth remembering is counted without the cache.
pub proof fn lemma_trivial_term_counted(m: int, i: int, grown: Set<i64>, after: Set<i64>)
    requires
        1 <= i <= m <= i32::MAX,
        !cacheable(m, i),
        after.subset_of(grown.union(discovered(m, i, grown))),
        grown.subset_of(after),
    ensures
        after == grown,
{
    assert forall|key: i64| !discovers(m, i, grown, key) by {
        lemma_trivial_discovers_nothing(m, i, grown, key);
    }
    assert(after =~= grown);
}

/// A term that is found in the cache leaves it as it is.
pub proof fn lemma_term_found(n: int, k: int, i: int, known: Set<i64>, grown: Set<i64>)
    requires
        2 < k < n,
        1 <= i <= k,
        terms_added(n, k, i, known, grown),
        cacheable(n - k, i),
        grown.contains(memo_key(n - k, i) as i64),
    ensures
        terms_added(n, k, i - 1, known, grown),
{
    lemma_memo_key_fits(n - k, i);
    assert forall|key: i64|
        grown.contains(key) <==> known.contains(key) || discovers_above(
            n,
            k,
            i - 1,
            known,
            key,
        ) by {
        if discovers_above(n, k, i - 1, known, key) {
            let j = choose|j: int|
                i - 1 < j <= k && #[trigger] fresh_term(n - k, j, known) && (key == memo_key(
                    n - k,
                    j,
                ) || discovers(n - k, j, known, key));
            if j == i {
                assert(grown.contains(key));
            } else {
                assert(discovers_above(n, k, i, known, key));
            }
        }
        if discovers_above(n, k, i, known, key) {
            let j = choose|j: int|
                i < j <= k && #[trigger] fresh_term(n - k, j, known) && (key == memo_key(
                    n - k,
                    j,
                ) || discovers(n - k, j, known, key));
            assert(i - 1 < j);
        }
    }
}

/// A term that is counted and then remembered adds its own key and what
/// counting it discovers.
pub proof fn lemma_term_counted(
    n: int,
    k: int,
    i: int,
    known: Set<i64>,
    grown: Set<i64>,
    after: Set<i64>,
)
    requires
        2 < k < n,
        1 <= i <= k,
        terms_added(n, k, i, known, grown),
        cacheable(n - k, i),
        !grown.contains(memo_key(n - k, i) as i64),
        after == grown.union(discovered(n - k, i, grown)).insert(memo_key(n - k, i) as i64),
    ensures
        terms_added(n, k, i - 1, known, after),
{
    let m = n - k;
    let term = memo_key(m, i) as i64;
    lemma_memo_key_fits(m, i);
    assert(known.subset_of(grown));
    assert(fresh_term(m, i, known));
    assert forall|key: i64|
        after.contains(key) <==> known.contains(key) || discovers_above(
            n,
            k,
            i - 1,
            known,
            key,
        ) by {
        if after.contains(key) && !known.contains(key) {
            if grown.contains(key) {
                let j = choose|j: int|
                    i < j <= k && #[trigger] fresh_term(m, j, known) && (key == memo_key(m, j)
                        || discovers(m, j, known, key));
                assert(i - 1 < j);
            } else if key != term {
                lemma_knowing_more_discovers_less(m, i, known, grown, key);
            }
            assert(discovers_above(n, k, i - 1, known, key));
        }
        if discovers_above(n, k, i - 1, known, key) {
            let j = choose|j: int|
                i - 1 < j <= k && #[trigger] fresh_term(m, j, known) && (key == memo_key(m, j)
                    || discovers(m, j, known, key));
            if j == i {
                if key != term {
                    lemma_discovers_from_grown(m, i, known, grown, key);
                }
            } else {
                assert(discovers_above(n, k, i, known, key));
            }
            assert(after.contains(key));
        }
    }
    assert forall|a: int, b: int, key: i64|
        cacheable(a, b) && after.contains(memo_key(a, b) as i64) && !known.contains(
            memo_key(a, b) as i64,
        ) && #[trigger] discovers(a, b, known, key) implies after.contains(key) by {
        let through = memo_key(a, b) as i64;
        lemma_memo_key_fits(a, b);
        if !grown.contains(through) {
            if through == term {
                lemma_memo_key_is_injective(a, b, m, i);
            } else {
                lemma_knowing_more_discovers_less(m, i, known, grown, through);
                lemma_discovery_is_transitive(m, i, known, a, b, key);
            }
            lemma_discovers_from_grown(m, i, known, grown, key);
        }
    }
}

/// While the terms are added up, the cache holds nothing but what the whole
/// count discovers.
pub proof fn lemma_terms_added_are_discovered(
    n: int,
    k: int,
    floor: int,
    known: Set<i64>,
    grown: Set<i64>,
)
    requires
        0 <= floor,
        terms_added(n, k, floor, known, grown),
    ensures
        grown.subset_of(known.union(discovered(n, k, known))),
{
    assert forall|key: i64| grown.contains(key) && !known.contains(key) implies discovers(
        n,
        k,
        known,
        key,
    ) by {
        let j = choose|j: int|
            floor < j <= k && #[trigger] fresh_term(n - k, j, known) && (key == memo_key(n - k, j)
                || discovers(n - k, j, known, key));
        assert(1 <= j);
    }
}

/// What counting a term discovers, from a cache grown since the count began,
/// the whole count discovers.
pub proof fn lemma_term_discoveries_are_discovered(
    n: int,
    k: int,
    i: int,
    known: Set<i64>,
    grown: Set<i64>,
)
    requires
        2 < k < n,
        1 <= i <= k,
        known.subset_of(grown),
        fresh_term(n - k, i, grown),
    ensures
        discovered(n - k, i, grown).subset_of(discovered(n, k, known)),
{
    lemma_memo_key_fits(n - k, i);
    assert(fresh_term(n - k, i, known));
    assert forall|key: i64| discovers(n - k, i, grown, key) implies discovers(
        n,
        k,
        known,
        key,
    ) by {
        lemma_knowing_more_discovers_less(n - k, i, known, grown, key);
    }
}

/// What counting the partitions into `k` parts discovers, from a cache grown
/// since the counts began, is among what all the counts discover.
pub proof fn lemma_count_discoveries_are_discovered(
    n: int,
    k: int,
    known: Set<i64>,
    grown: Set<i64>,
)
    requires
        1 <= k <= n,
        known.subset_of(grown),
    ensures
        discovered(n, k, grown).subset_of(discovered_by_all(n, known)),
{
    assert forall|key: i64| discovers(n, k, grown, key) implies discovers(n, k, known, key) by {
        lemma_knowing_more_discovers_less(n, k, known, grown, key);
    }
}

/// Whether a cache that held `known` holds `grown` once the partitions of `n`
/// into up to `done` parts are counted.
pub open spec fn counts_added(n: int, done: int, known: Set<i64>, grown: Set<i64>) -> bool {
    &&& forall|key: i64|
        grown.contains(key) <==> known.contains(key) || exists|k: int|
            1 <= k <= done && #[trigger] discovers(n, k, known, key)
    &&& holds_what_it_rests_on(grown, known)
}

/// Counting the partitions into one more number of parts adds what that
/// count discovers.
pub proof fn lemma_count_added(n: int, k: int, known: Set<i64>, grown: Set<i64>, after: Set<i64>)
    requires
        1 <= k,
        counts_added(n, k - 1, known, grown),
        after == grown.union(discovered(n, k, grown)),
    ensures
        counts_added(n, k, known, after),
{
    assert(known.subset_of(grown));
    assert forall|key: i64|
        after.contains(key) <==> known.contains(key) || exists|j: int|
            1 <= j <= k && #[trigger] discovers(n, j, known, key) by {
        if after.contains(key) && !known.contains(key) {
            if grown.contains(key) {
                let j = choose|j: int| 1 <= j <= k - 1 && #[trigger] discovers(n, j, known, key);
                assert(1 <= j <= k);
            } else {
                lemma_knowing_more_discovers_less(n, k, known, grown, key);
            }
        }
        if exists|j: int| 1 <= j <= k && #[trigger] discovers(n, j, known, key) {
            let j = choose|j: int| 1 <= j <= k && #[trigger] discovers(n, j, known, key);
            if j == k {
                lemma_discovers_from_grown(n, k, known, grown, key);
            } else {
                assert(1 <= j <= k - 1);
            }
        }
    }
    assert forall|a: int, b: int, key: i64|
        cacheable(a, b) && after.contains(memo_key(a, b) as i64) && !known.contains(
            memo_key(a, b) as i64,
        ) && #[trigger] discovers(a, b, known, key) implies after.contains(key) by {
        let through = memo_key(a, b) as i64;
        lemma_memo_key_fits(a, b);
        if !grown.contains(through) {
            lemma_knowing_more_discovers_less(n, k, known, grown, through);
            lemma_discovery_is_transitive(n, k, known, a, b, key);
            lemma_discovers_from_grown(n, k, known, grown, key);
        }
    }
}

} // verus!
