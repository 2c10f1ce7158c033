//! Top-level queries: what is refused, and what is answered.

use partitions::query::{answer, QueryError};

#[test]
fn a_query_with_parts_counts_exactly() {
    assert_eq!(answer(5, Some(2)), Ok(2));
    assert_eq!(answer(6, Some(3)), Ok(3));
    assert_eq!(answer(100, Some(50)), Ok(204226));
    assert_eq!(answer(3, Some(5)), Ok(0));
    assert_eq!(answer(0, Some(1)), Ok(0));
}

#[test]
fn a_query_without_parts_counts_all() {
    assert_eq!(answer(5, None), Ok(7));
    assert_eq!(answer(10, None), Ok(42));
    assert_eq!(answer(100, None), Ok(190569292));
    assert_eq!(answer(0, None), Ok(0));
}

#[test]
fn a_negative_number_is_refused() {
    assert_eq!(answer(-1, None), Err(QueryError::NegativeNumber));
    assert_eq!(answer(-1, Some(3)), Err(QueryError::NegativeNumber));
    assert_eq!(answer(i32::MIN, None), Err(QueryError::NegativeNumber));
}

#[test]
fn a_negative_number_is_refused_before_the_parts_are_looked_at() {
    assert_eq!(answer(-5, Some(0)), Err(QueryError::NegativeNumber));
    assert_eq!(answer(-5, Some(-5)), Err(QueryError::NegativeNumber));
}

#[test]
fn no_parts_or_fewer_are_refused() {
    assert_eq!(answer(5, Some(0)), Err(QueryError::NonPositiveParts));
    assert_eq!(answer(5, Some(-2)), Err(QueryError::NonPositiveParts));
    assert_eq!(answer(0, Some(0)), Err(QueryError::NonPositiveParts));
    assert_eq!(answer(0, Some(i32::MIN)), Err(QueryError::NonPositiveParts));
}

#[test]
fn a_count_beyond_sixty_four_bits_is_reported() {
    assert_eq!(answer(405, None), Ok(9147679068859117602));
    assert_eq!(answer(406, None), Err(QueryError::Overflow));
    assert_eq!(answer(811, Some(406)), Ok(9147679068859117602));
    assert_eq!(answer(812, Some(406)), Err(QueryError::Overflow));
}

#[test]
fn the_extremes_of_the_number_are_answered() {
    assert_eq!(answer(i32::MAX, Some(1)), Ok(1));
    assert_eq!(answer(i32::MAX, Some(2)), Ok(1_073_741_823));
    assert_eq!(answer(i32::MAX, Some(i32::MAX)), Ok(1));
    assert_eq!(answer(i32::MAX - 1, Some(i32::MAX)), Ok(0));
}
