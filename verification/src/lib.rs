//! Counting integer partitions, with every count proved against its definition.
//!
//! [`partition`] counts the ways to write a number as a sum of exactly `k`
//! positive integers, [`partitions`] the ways to write it as any such sum. Both
//! remember what they find in a [`MemoHash`], and both are proved to return the
//! counts that [`model`] defines, whatever the cache held when they began.

pub mod counter;
pub mod discovery;
pub mod memo;
pub mod model;
pub mod query;
pub mod sums;

pub use counter::{checked_partition, checked_partitions, partition, partitions};
pub use memo::{not_trivial, tag, MemoHash, BIG_ENOUGH_TO_BE_WORTH_MEMOING};
pub use query::{answer, QueryError};
