//! The memo cache: which subproblems are worth remembering, under which key,
//! and what a remembered entry means.

use crate::model::exact_parts;
use std::collections::HashMap;
use vstd::prelude::*;

verus! {

/// Subproblems on a number below this are cheaper to recompute than to look up.
pub const BIG_ENOUGH_TO_BE_WORTH_MEMOING: i32 = 50;

/// Whether the count of partitions of `n` into `k` parts is worth remembering.
///
/// It is not where the count is immediate (one part, two parts, as many parts
/// as units) or `n` is below [`BIG_ENOUGH_TO_BE_WORTH_MEMOING`].
pub open spec fn worth_memoing(n: int, k: int) -> bool {
    !(k == 2 || k == 1 || k == n || n < BIG_ENOUGH_TO_BE_WORTH_MEMOING)
}

/// The key under which the subproblem `(m, i)` is remembered.
///
/// The keys of the pairs with `0 <= i <= m` for one `m` fill the range from
/// `m * m + m` to `m * m + 2 * m`, and the range of `m + 1` starts beyond it:
/// see [`lemma_memo_key_is_injective`].
pub open spec fn memo_key(m: int, i: int) -> int {
    m * m + m + i
}

/// The subproblems that the counters remember: those worth it, within what the
/// counters recurse on.
pub open spec fn cacheable(m: int, i: int) -> bool {
    1 <= i <= m <= i32::MAX && worth_memoing(m, i)
}

/// What an entry of the cache means: its key is that of a cacheable subproblem,
/// and its value is the number of partitions which that subproblem asks for.
pub open spec fn holds_count(key: i64, value: i64) -> bool {
    exists|m: int, i: int|
        cacheable(m, i) && key == #[trigger] memo_key(m, i) && value == exact_parts(
            m as nat,
            i as nat,
        )
}

/// No two subproblems with `0 <= i <= m` share a key.
pub proof fn lemma_memo_key_is_injective(m1: int, i1: int, m2: int, i2: int)
    requires
        0 <= i1 <= m1,
        0 <= i2 <= m2,
        memo_key(m1, i1) == memo_key(m2, i2),
    ensures
        m1 == m2,
        i1 == i2,
{
    if m1 < m2 {
        lemma_memo_key_ranges_apart(m1, i1, m2, i2);
    } else if m2 < m1 {
        lemma_memo_key_ranges_apart(m2, i2, m1, i1);
    }
}

/// The keys of a smaller `m` all lie below those of a larger one.
proof fn lemma_memo_key_ranges_apart(m1: int, i1: int, m2: int, i2: int)
    requires
        0 <= i1 <= m1,
        0 <= i2,
        m1 < m2,
    ensures
        memo_key(m1, i1) < memo_key(m2, i2),
{
    assert(m1 * m1 + 2 * m1 < m2 * m2 + m2) by (nonlinear_arith)
        requires
            0 <= m1,
            m1 + 1 <= m2,
    ;
}

/// Every key of 32-bit operands fits in 64 bits.
pub proof fn lemma_memo_key_fits(m: int, i: int)
    requires
        i32::MIN <= m <= i32::MAX,
        i32::MIN <= i <= i32::MAX,
    ensures
        i64::MIN <= memo_key(m, i) <= i64::MAX,
        0 <= m * m <= 0x4000_0000_0000_0000,
{
    assert(0 <= m * m <= 0x4000_0000_0000_0000) by (nonlinear_arith)
        requires
            -0x8000_0000 <= m <= 0x7fff_ffff,
    ;
}

/// Decides whether the count of partitions of `n` into `k` parts is worth
/// remembering.
pub fn not_trivial(n: i32, k: i32) -> (worth: bool)
    ensures
        worth == worth_memoing(n as int, k as int),
{
    if k == 2 || k == 1 || k == n || n < BIG_ENOUGH_TO_BE_WORTH_MEMOING {
        return false;
    }
    true
}

/// Computes the key of the subproblem `(m, i)`, in 64 bits so that no 32-bit
/// `m` is too large to square.
pub fn tag(m: i32, i: i32) -> (key: i64)
    ensures
        key == memo_key(m as int, i as int),
{
    proof {
        lemma_memo_key_fits(m as int, i as int);
    }
    let wide: i64 = m as i64;
    wide * wide + wide + i as i64
}

/// The cache of one top-level query: for each remembered subproblem, the
/// number of partitions it asks for, under its [`memo_key`].
///
/// A value is what the subproblem adds to a running total, not a total: it can
/// be added to any accumulator.
pub struct MemoHash {
    table: HashMap<i64, i64>,
}

impl View for MemoHash {
    type V = Map<i64, i64>;

    /// The entries, by key.
    closed spec fn view(&self) -> Map<i64, i64> {
        self.table@
    }
}

impl MemoHash {
    /// Every entry holds the count of the subproblem that its key stands for.
    pub open spec fn wf(&self) -> bool {
        forall|key: i64| #[trigger] self@.contains_key(key) ==> holds_count(key, self@[key])
    }

    /// What is remembered of a subproblem is the number of its partitions,
    /// whatever running total it was taken from: adding it to any accumulator
    /// is adding the count.
    pub proof fn lemma_entry_is_count(&self, m: int, i: int)
        requires
            self.wf(),
            cacheable(m, i),
            self@.contains_key(memo_key(m, i) as i64),
        ensures
            self@[memo_key(m, i) as i64] == exact_parts(m as nat, i as nat),
    {
        let key = memo_key(m, i) as i64;
        lemma_memo_key_fits(m, i);
        let (m2, i2) = choose|m2: int, i2: int|
            cacheable(m2, i2) && key == #[trigger] memo_key(m2, i2) && self@[key] == exact_parts(
                m2 as nat,
                i2 as nat,
            );
        lemma_memo_key_is_injective(m, i, m2, i2);
    }

    /// An empty cache.
    pub fn new() -> (memo: MemoHash)
        ensures
            memo.wf(),
            memo@ == Map::<i64, i64>::empty(),
    {
        MemoHash { table: HashMap::new() }
    }

    /// The number of remembered subproblems.
    pub fn len(&self) -> (count: usize)
        ensures
            count == self@.len(),
    {
        broadcast use vstd::std_specs::hash::group_hash_axioms;

        self.table.len()
    }

    /// What is remembered of the subproblem `(m, i)`, if anything.
    pub fn get(&self, m: i32, i: i32) -> (stored: Option<i64>)
        ensures
            stored == (if self@.contains_key(memo_key(m as int, i as int) as i64) {
                Some(self@[memo_key(m as int, i as int) as i64])
            } else {
                None
            }),
            self.wf() && cacheable(m as int, i as int) && stored.is_some() ==> stored.unwrap()
                == exact_parts(m as nat, i as nat),
    {
        broadcast use vstd::std_specs::hash::group_hash_axioms;

        let key = tag(m, i);
        let stored = match self.table.get(&key) {
            Some(value) => Some(*value),
            None => None,
        };
        proof {
            if self.wf() && cacheable(m as int, i as int) && stored.is_some() {
                self.lemma_entry_is_count(m as int, i as int);
            }
        }
        stored
    }

    /// Remembers `delta` for the subproblem `(m, i)` unless something is
    /// remembered for it already.
    ///
    /// The cache stays well-formed where `delta` is the count of a subproblem
    /// worth remembering.
    pub fn record(&mut self, m: i32, i: i32, delta: i64)
        ensures
            final(self)@ == (if old(self)@.contains_key(memo_key(m as int, i as int) as i64) {
                old(self)@
            } else {
                old(self)@.insert(memo_key(m as int, i as int) as i64, delta)
            }),
            old(self).wf() && cacheable(m as int, i as int) && delta == exact_parts(
                m as nat,
                i as nat,
            ) ==> final(self).wf(),
    {
        broadcast use vstd::std_specs::hash::group_hash_axioms;

        let key = tag(m, i);
        self.table.entry(key).or_insert(delta);
        proof {
            if old(self)@.contains_key(key) {
                assert(self@ =~= old(self)@);
            } else {
                assert(self@ =~= old(self)@.insert(key, delta));
            }
            if cacheable(m as int, i as int) && delta == exact_parts(m as nat, i as nat) {
                assert(holds_count(key, delta));
            }
        }
    }
}

} // verus!
