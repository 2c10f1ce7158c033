//! One top-level query: a number, and perhaps a number of parts, checked and
//! answered with a cache of its own.

use crate::counter::{checked_partition, checked_partitions};
use crate::memo::MemoHash;
use crate::model::{exact_parts, total_parts};
use vstd::prelude::*;

verus! {

/// Why a query has no answer.
#[derive(Clone, Copy, Debug, PartialEq, Eq, Structural)]
pub enum QueryError {
    /// The number to partition is negative.
    NegativeNumber,
    /// The number of parts is zero or negative.
    NonPositiveParts,
    /// The count does not fit in 64 bits.
    Overflow,
}

/// The count that a query asks for: the partitions of `n` into exactly `k`
/// parts where a `k` is given, into any positive number of parts where not.
pub open spec fn asked_count(n: nat, k: Option<i32>) -> nat {
    match k {
        Some(k) => exact_parts(n, k as nat),
        None => total_parts(n),
    }
}

/// What a query is owed. A negative `n` is refused first, then a `k` below
/// one; a count beyond 64 bits is reported as such.
pub open spec fn owed(n: i32, k: Option<i32>) -> Result<i64, QueryError> {
    if n < 0 {
        Err(QueryError::NegativeNumber)
    } else if k.is_some() && k.unwrap() < 1 {
        Err(QueryError::NonPositiveParts)
    } else if asked_count(n as nat, k) > i64::MAX {
        Err(QueryError::Overflow)
    } else {
        Ok(asked_count(n as nat, k) as i64)
    }
}

/// Answers one query with a fresh cache, which is dropped afterwards.
pub fn answer(n: i32, k: Option<i32>) -> (result: Result<i64, QueryError>)
    ensures
        result == owed(n, k),
{
    if n < 0 {
        return Err(QueryError::NegativeNumber);
    }
    let mut memo = MemoHash::new();
    let count = match k {
        Some(k) => {
            if k < 1 {
                return Err(QueryError::NonPositiveParts);
            }
            checked_partition(n, k, 0, &mut memo)
        },
        None => checked_partitions(n, &mut memo),
    };
    match count {
        Some(count) => Ok(count),
        None => Err(QueryError::Overflow),
    }
}

} // verus!
