//! The counters: partitions of a number into exactly `k` parts, and into any
//! number of parts.

use crate::discovery::{
    counts_added, discovered, discovered_by_all, lemma_all_terms_added, lemma_count_added,
    lemma_count_discoveries_are_discovered, lemma_no_term_added, lemma_term_counted,
    lemma_term_discoveries_are_discovered, lemma_term_found, lemma_term_passed,
    lemma_terms_added_are_discovered, lemma_trivial_term_counted, terms_added,
};
use crate::memo::{memo_key, not_trivial, MemoHash};
use crate::model::{
    exact_parts, lemma_all_ones, lemma_one_off_each_part, lemma_parts_up_to_grows,
    lemma_single_part, lemma_two_parts, parts_up_to, total_parts,
};
use vstd::prelude::*;

verus! {

broadcast use vstd::map_lib::lemma_submap_of_trans;

/// Adds to `acc` the number of partitions of `n` into exactly `k` parts.
///
/// With more parts than units there is nothing to count, and the result is 0
/// whatever `acc` holds. One part, two parts and as many parts as units are
/// answered at once. Otherwise one is taken off each part, and the partitions
/// of `n - k` into `k`, `k - 1`, ... , 1 parts are added up in that order;
/// what a term worth remembering adds is looked up in `memo`, or computed and
/// then remembered there.
///
/// The count, and `acc` with the count added, must fit in 64 bits:
/// [`checked_partition`] is for callers that cannot tell beforehand.
pub fn partition(n: i32, k: i32, mut acc: i64, memo: &mut MemoHash) -> (result: i64)
    requires
        0 <= n,
        1 <= k,
        old(memo).wf(),
        exact_parts(n as nat, k as nat) <= i64::MAX,
        acc + exact_parts(n as nat, k as nat) <= i64::MAX,
    ensures
        k > n ==> result == 0,
        k <= n ==> result == acc + exact_parts(n as nat, k as nat),
        k == n || (k == 1 && n >= 1) ==> result == acc + 1,
        k == 2 && n >= 2 ==> result == acc + n / 2,
        final(memo).wf(),
        old(memo)@.submap_of(final(memo)@),
        final(memo)@.dom() == old(memo)@.dom().union(
            discovered(n as int, k as int, old(memo)@.dom()),
        ),
    decreases n,
{
    let ghost known = memo@.dom();
    proof {
        if k == n {
            lemma_all_ones(n as nat);
        } else if k == 1 && n >= 1 {
            lemma_single_part(n as nat);
        } else if k == 2 && n >= 2 {
            lemma_two_parts(n as nat);
        }
        if !(2 < k < n) {
            assert(known =~= known.union(discovered(n as int, k as int, known)));
        }
    }
    if k > n {
        return 0;
    }
    if n == k || k == 1 {
        return acc + 1;
    }
    if k == 2 {
        return acc + (n / k) as i64;
    }
    let m = n - k;
    let ghost start = acc;
    let mut last_acc = acc;
    proof {
        lemma_one_off_each_part(n as nat, k as nat);
        assert(exact_parts(m as nat, 0) == 0);
        lemma_no_term_added(n as int, k as int, known);
    }
    let mut i = k;
    while i >= 1
        invariant
            0 <= i <= k,
            2 < k < n,
            m == n - k,
            memo.wf(),
            old(memo)@.submap_of(memo@),
            known == old(memo)@.dom(),
            terms_added(n as int, k as int, i as int, known, memo@.dom()),
            exact_parts(n as nat, k as nat) == parts_up_to(m as nat, k as nat),
            exact_parts(n as nat, k as nat) <= i64::MAX,
            start + exact_parts(n as nat, k as nat) <= i64::MAX,
            acc == start + parts_up_to(m as nat, k as nat) - parts_up_to(m as nat, i as nat),
            last_acc == acc,
        decreases i,
    {
        proof {
            lemma_parts_up_to_grows(m as nat, i as nat, k as nat);
            assert(parts_up_to(m as nat, i as nat) == parts_up_to(m as nat, (i - 1) as nat)
                + exact_parts(m as nat, i as nat));
        }
        let ghost before = memo@;
        if i > m {
            proof {
                lemma_term_passed(n as int, k as int, i as int, known, before.dom());
            }
        } else if not_trivial(m, i) {
            match memo.get(m, i) {
                Some(stored) => {
                    acc = stored + last_acc;
                    proof {
                        lemma_term_found(n as int, k as int, i as int, known, before.dom());
                    }
                },
                None => {
                    acc = partition(m, i, acc, memo);
                },
            }
            memo.record(m, i, acc - last_acc);
            proof {
                if !before.contains_key(memo_key(m as int, i as int) as i64) {
                    assert(memo@.dom() =~= before.dom().union(
                        discovered(m as int, i as int, before.dom()),
                    ).insert(memo_key(m as int, i as int) as i64));
                    lemma_term_counted(
                        n as int,
                        k as int,
                        i as int,
                        known,
                        before.dom(),
                        memo@.dom(),
                    );
                }
            }
        } else {
            acc = partition(m, i, acc, memo);
            proof {
                lemma_trivial_term_counted(m as int, i as int, before.dom(), memo@.dom());
                lemma_term_passed(n as int, k as int, i as int, known, before.dom());
            }
        }
        last_acc = acc;
        i = i - 1;
    }
    proof {
        lemma_all_terms_added(n as int, k as int, known, memo@.dom());
    }
    acc
}

/// [`partition`] for callers that cannot rule out overflow: `None` where `acc`
/// with the count added does not fit in 64 bits, and the same result
/// otherwise, by the same steps.
///
/// The cache stays well-formed either way; after `None` it holds what was
/// found before the sum went out of range.
#[verifier::loop_isolation(false)]
pub fn checked_partition(n: i32, k: i32, mut acc: i64, memo: &mut MemoHash) -> (result: Option<
    i64,
>)
    requires
        0 <= n,
        1 <= k,
        0 <= acc,
        old(memo).wf(),
    ensures
        k > n ==> result == Some(0i64),
        k <= n ==> result == (if acc + exact_parts(n as nat, k as nat) <= i64::MAX {
            Some((acc + exact_parts(n as nat, k as nat)) as i64)
        } else {
            None
        }),
        final(memo).wf(),
        old(memo)@.submap_of(final(memo)@),
        final(memo)@.dom().subset_of(
            old(memo)@.dom().union(discovered(n as int, k as int, old(memo)@.dom())),
        ),
        result.is_some() ==> final(memo)@.dom() == old(memo)@.dom().union(
            discovered(n as int, k as int, old(memo)@.dom()),
        ),
    decreases n,
{
    let ghost known = memo@.dom();
    proof {
        if k == n {
            lemma_all_ones(n as nat);
        } else if k == 1 && n >= 1 {
            lemma_single_part(n as nat);
        } else if k == 2 && n >= 2 {
            lemma_two_parts(n as nat);
        }
        if !(2 < k < n) {
            assert(known =~= known.union(discovered(n as int, k as int, known)));
        }
    }
    if k > n {
        return Some(0);
    }
    if n == k || k == 1 {
        return acc.checked_add(1);
    }
    if k == 2 {
        return acc.checked_add((n / k) as i64);
    }
    let m = n - k;
    let ghost start = acc;
    let mut last_acc = acc;
    proof {
        lemma_one_off_each_part(n as nat, k as nat);
        assert(exact_parts(m as nat, 0) == 0);
        lemma_no_term_added(n as int, k as int, known);
    }
    let mut i = k;
    while i >= 1
        invariant
            0 <= i <= k,
            memo.wf(),
            old(memo)@.submap_of(memo@),
            terms_added(n as int, k as int, i as int, known, memo@.dom()),
            acc == start + parts_up_to(m as nat, k as nat) - parts_up_to(m as nat, i as nat),
            last_acc == acc,
        decreases i,
    {
        proof {
            lemma_parts_up_to_grows(m as nat, i as nat, k as nat);
            assert(parts_up_to(m as nat, i as nat) == parts_up_to(m as nat, (i - 1) as nat)
                + exact_parts(m as nat, i as nat));
            lemma_terms_added_are_discovered(n as int, k as int, i as int, known, memo@.dom());
        }
        let ghost before = memo@;
        if i > m {
            proof {
                lemma_term_passed(n as int, k as int, i as int, known, before.dom());
            }
        } else if not_trivial(m, i) {
            match memo.get(m, i) {
                Some(stored) => {
                    acc = stored.checked_add(last_acc)?;
                    proof {
                        lemma_term_found(n as int, k as int, i as int, known, before.dom());
                    }
                },
                None => {
                    let counted = checked_partition(m, i, acc, memo);
                    proof {
                        lemma_term_discoveries_are_discovered(
                            n as int,
                            k as int,
                            i as int,
                            known,
                            before.dom(),
                        );
                    }
                    acc = counted?;
                },
            }
            memo.record(m, i, acc - last_acc);
            proof {
                if !before.contains_key(memo_key(m as int, i as int) as i64) {
                    assert(memo@.dom() =~= before.dom().union(
                        discovered(m as int, i as int, before.dom()),
                    ).insert(memo_key(m as int, i as int) as i64));
                    lemma_term_counted(
                        n as int,
                        k as int,
                        i as int,
                        known,
                        before.dom(),
                        memo@.dom(),
                    );
                }
            }
        } else {
            let counted = checked_partition(m, i, acc, memo);
            proof {
                lemma_trivial_term_counted(m as int, i as int, before.dom(), memo@.dom());
                lemma_term_passed(n as int, k as int, i as int, known, before.dom());
            }
            acc = counted?;
        }
        last_acc = acc;
        i = i - 1;
    }
    proof {
        lemma_all_terms_added(n as int, k as int, known, memo@.dom());
    }
    Some(acc)
}

/// The number of partitions of `n` into any positive number of parts: the
/// sum, for `k` from 1 to `n`, of what [`partition`] counts. It is 0 for zero.
///
/// One cache serves all the terms. The total must fit in 64 bits:
/// [`checked_partitions`] is for callers that cannot tell beforehand.
pub fn partitions(n: i32, memo: &mut MemoHash) -> (total: i64)
    requires
        0 <= n,
        old(memo).wf(),
        total_parts(n as nat) <= i64::MAX,
    ensures
        total == total_parts(n as nat),
        n == 0 ==> total == 0,
        final(memo).wf(),
        old(memo)@.submap_of(final(memo)@),
        final(memo)@.dom() == old(memo)@.dom().union(
            discovered_by_all(n as int, old(memo)@.dom()),
        ),
{
    let ghost known = memo@.dom();
    if n == 0 {
        proof {
            assert(known =~= known.union(discovered_by_all(n as int, known)));
        }
        return 0;
    }
    let mut p: i64 = 0;
    let mut i: i32 = 0;
    while i < n
        invariant
            0 <= i <= n,
            memo.wf(),
            old(memo)@.submap_of(memo@),
            known == old(memo)@.dom(),
            counts_added(n as int, i as int, known, memo@.dom()),
            total_parts(n as nat) <= i64::MAX,
            p == parts_up_to(n as nat, i as nat),
        decreases n - i,
    {
        i = i + 1;
        proof {
            lemma_parts_up_to_grows(n as nat, i as nat, n as nat);
        }
        let ghost before = memo@;
        p += partition(n, i, 0, memo);
        proof {
            lemma_count_added(n as int, i as int, known, before.dom(), memo@.dom());
        }
    }
    proof {
        assert(memo@.dom() =~= known.union(discovered_by_all(n as int, known)));
    }
    p
}

/// [`partitions`] for callers that cannot rule out overflow: `None` where the
/// total does not fit in 64 bits, and the same result otherwise.
#[verifier::loop_isolation(false)]
pub fn checked_partitions(n: i32, memo: &mut MemoHash) -> (total: Option<i64>)
    requires
        0 <= n,
        old(memo).wf(),
    ensures
        total == (if total_parts(n as nat) <= i64::MAX {
            Some(total_parts(n as nat) as i64)
        } else {
            None
        }),
        final(memo).wf(),
        old(memo)@.submap_of(final(memo)@),
        final(memo)@.dom().subset_of(
            old(memo)@.dom().union(discovered_by_all(n as int, old(memo)@.dom())),
        ),
        total.is_some() ==> final(memo)@.dom() == old(memo)@.dom().union(
            discovered_by_all(n as int, old(memo)@.dom()),
        ),
{
    let ghost known = memo@.dom();
    if n == 0 {
        proof {
            assert(known =~= known.union(discovered_by_all(n as int, known)));
        }
        return Some(0);
    }
    let mut p: i64 = 0;
    let mut i: i32 = 0;
    while i < n
        invariant
            0 <= i <= n,
            memo.wf(),
            old(memo)@.submap_of(memo@),
            counts_added(n as int, i as int, known, memo@.dom()),
            p == parts_up_to(n as nat, i as nat),
        decreases n - i,
    {
        i = i + 1;
        proof {
            lemma_parts_up_to_grows(n as nat, i as nat, n as nat);
        }
        let ghost before = memo@;
        let term = checked_partition(n, i, 0, memo);
        proof {
            lemma_count_discoveries_are_discovered(n as int, i as int, known, before.dom());
        }
        p = p.checked_add(term?)?;
        proof {
            lemma_count_added(n as int, i as int, known, before.dom(), memo@.dom());
        }
    }
    proof {
        assert(memo@.dom() =~= known.union(discovered_by_all(n as int, known)));
    }
    Some(p)
}

} // verus!
