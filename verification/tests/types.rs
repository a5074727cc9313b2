//! The linear types: construction, rendering and equality.

use lincoln::LCType;
use lincoln::TupleType;

#[test]
fn test_atom() {
    // Atom types are named types with zero variants.
    let t = LCType::atom("name");
    assert_eq!(t.to_text(), "name")
}

#[test]
fn test_unit() {
    // The unit type is a tuple without elements.
    assert_eq!(TupleType::unit().to_text(), "()")
}

#[test]
fn test_bottom() {
    // The bottom type is the negation of a unit.
    assert_eq!(LCType::bottom().to_text(), "~()")
}

#[test]
fn test_empty() {
    // The zero type is an anonymous type without variants.
    assert_eq!(LCType::empty().to_text(), "~{}")
}

#[test]
fn test_top() {
    // The top type is a type that receives a zero type.
    assert_eq!(LCType::negation(LCType::empty()).to_text(), "~~{}")
}

#[test]
fn test_bool() {
    // The booleans receive a type whose two variants are both unit.
    let t = LCType::unnamed(vec![TupleType::unit(), TupleType::unit()]);
    let t = LCType::negation(t);
    assert_eq!(t.to_text(), "~~{(); ()}")
}

#[test]
fn test_droppable() {
    // A droppable type offers two variants: claim the inner type, or
    // drop it.
    let b = TupleType::new(vec![LCType::bottom()]);
    let t = LCType::unnamed(vec![TupleType::negation(LCType::atom("T")), b]);
    assert_eq!(t.to_text(), "~{~T; ~()}")
}

#[test]
fn test_copiable() {
    // A copiable type offers two variants: claim the inner type, or
    // copy itself; the name lets the definition refer to itself.
    let c = TupleType::ntuple(vec![LCType::atom("S"), LCType::atom("S")]);
    let t = TupleType::new(vec![LCType::negation(LCType::atom("T"))]);
    let t = LCType::named("S", vec![t, c]);
    assert_eq!(t.to_text(), "S:~{~T; ~(S, S)}")
}

#[test]
fn test_equal() {
    let a = LCType::atom("A");
    let b = LCType::atom("B");
    assert_ne!(a, b);
    let a = LCType::bottom();
    assert_ne!(a, b);
    let b = LCType::empty();
    assert_ne!(a, b);
}

#[test]
fn equal_types_compare_equal() {
    assert_eq!(LCType::atom("A"), LCType::atom("A"));
    assert_eq!(LCType::bottom(), LCType::bottom());
    assert_eq!(TupleType::unit(), TupleType::unit());
    assert_ne!(TupleType::unit(), TupleType::new(vec![LCType::atom("A")]));
}
