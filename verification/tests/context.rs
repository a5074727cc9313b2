//! The operand context: push, pop, split, merge, permutate, and the
//! argument check.

use lincoln::default_context;
use lincoln::error::ValueAccessError;
use lincoln::permutation::Permutation;
use lincoln::unwrap;
use lincoln::wrap;

#[test]
fn test_pop_push() {
    let mut c = default_context();
    c.push(wrap(10));
    assert_eq!(1, c.len());
    assert_eq!(10, unwrap(c.pop().unwrap()).unwrap());
    assert!(c.is_empty());
}

#[test]
fn test_take_values() {
    let mut c = default_context();
    c.push(wrap(10));
    let values = c.take_values();
    assert_eq!(1, values.len());
    assert!(c.is_empty());
}

#[test]
fn split_and_merge_round_trip() {
    let mut c = default_context();
    c.push(wrap(1));
    c.push(wrap(2));
    c.push(wrap(3));
    c.push(wrap(4));
    let mut tail = c.split(2).unwrap();
    assert_eq!(c.len(), 2);
    assert_eq!(tail.len(), 2);
    c.merge(&mut tail);
    assert_eq!(c.len(), 4);
    assert!(tail.is_empty());
    assert_eq!(unwrap(c.pop().unwrap()).unwrap(), 4);
    assert_eq!(unwrap(c.pop().unwrap()).unwrap(), 3);
    assert_eq!(unwrap(c.pop().unwrap()).unwrap(), 2);
    assert_eq!(unwrap(c.pop().unwrap()).unwrap(), 1);
}

#[test]
fn permutate_reorders_values() {
    // From [1, 2, 3, 4], the code 2 exchanges positions 0 and 2.
    let mut c = default_context();
    c.push(wrap(1));
    c.push(wrap(2));
    c.push(wrap(3));
    c.push(wrap(4));
    c.permutate(Permutation(2));
    assert_eq!(unwrap(c.pop().unwrap()).unwrap(), 4);
    assert_eq!(unwrap(c.pop().unwrap()).unwrap(), 1);
    assert_eq!(unwrap(c.pop().unwrap()).unwrap(), 2);
    assert_eq!(unwrap(c.pop().unwrap()).unwrap(), 3);
}

#[test]
fn pop_from_empty_fails() {
    let mut c = default_context();
    assert_eq!(c.pop().unwrap_err(), ValueAccessError::PopFromEmpty);
}

#[test]
fn split_beyond_length_fails() {
    let mut c = default_context();
    c.push(wrap(1));
    assert_eq!(
        c.split(2).unwrap_err(),
        ValueAccessError::SplitOutOfRange { at: 2, total: 1 }
    );
    assert_eq!(c.len(), 1);
}

#[test]
fn expect_args_checks_exact_count() {
    let mut c = default_context();
    c.push(wrap(1));
    c.push(wrap(2));
    assert!(c.expect_args(2).is_ok());
    assert_eq!(
        c.expect_args(3).unwrap_err(),
        ValueAccessError::UnexpectedArgs { expect: 3, actual: 2 }
    );
}

#[test]
fn unwrap_rejects_closures() {
    let cont = lincoln::native_closure(String::from("probe"), 7);
    assert!(unwrap(cont).is_err());
}
