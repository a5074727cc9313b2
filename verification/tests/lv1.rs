//! The level-1 building blocks: calls, blocks and assignments.

use lincoln::lv1::Assignment;
use lincoln::lv1::Body;
use lincoln::lv1::Entry;
use lincoln::lv1::{get_block, get_call};

#[test]
fn call_splits_callee_and_arguments() {
    let c = get_call(&["c", "o"], None);
    assert_eq!(c.callee, "c");
    assert!(c.variant.is_none());
    assert_eq!(c.args, vec![String::from("o")]);
}

#[test]
fn call_keeps_the_variant() {
    let c = get_call(&["f", "c"], Some("drop"));
    assert_eq!(c.callee, "f");
    assert_eq!(c.variant.as_deref(), Some("drop"));
}

#[test]
fn block_starts_without_assignments() {
    let c = get_call(&["c", "n"], None);
    let b = get_block(&[], c);
    assert!(b.args.is_empty());
    assert!(b.assignments.is_empty());
    assert_eq!(b.call.callee, "c");
}

#[test]
fn assignments_accumulate() {
    let c = get_call(&["c", "o"], None);
    let b = get_block(&[], c);
    let a = Assignment::simple("c", b);
    let c = get_call(&["f", "c"], Some("drop"));
    let mut b = get_block(&[], c);
    b.add_assignment(a);
    assert_eq!(b.assignments.len(), 1);
    assert_eq!(b.assignments[0].var, "c");
}

#[test]
fn adding_a_variant_turns_simple_into_compound() {
    let c = get_call(&["c", "o"], None);
    let b = get_block(&[], c);
    let mut a = Assignment::simple("x", b);
    let c2 = get_call(&["d"], None);
    let b2 = get_block(&[], c2);
    a.add_entry(Entry { name: String::from("other"), block: b2 });
    match &a.body {
        Body::Compond { variants } => {
            assert_eq!(variants.len(), 2);
            assert_eq!(variants[0].name, "default");
            assert_eq!(variants[1].name, "other");
        },
        Body::Simple { .. } => panic!("expected a compound body"),
    }
}
