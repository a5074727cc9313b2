//! The pre-compile program: defining named entries, exporting,
//! merging, and lowering to bytecode.

use lincoln::error::CompileError;
use lincoln::pre_compile::Entry;
use lincoln::ExternEntry;
use lincoln::Permutation;
use lincoln::PreCompileProgram;

#[test]
fn test_group() {
    let mut p: PreCompileProgram = Default::default();
    let _ = p.define_group("group", &["test"]);
    let _ = p.define_call("test", "test", 0, "group");
}

#[test]
fn program_test_group() {
    let mut p: PreCompileProgram = Default::default();
    let _ = p.define_group("group", &["test"]);
    let _ = p.define_call("test", "test", 0, "group");
}

#[test]
fn pre_compile_test_group() {
    let mut p: PreCompileProgram = Default::default();
    let _ = p.define_group("group", &["test"]);
    let _ = p.define_call("test", "test", 0, "group");
}

#[test]
fn forward_references_become_placeholders() {
    let mut p: PreCompileProgram = Default::default();
    // The continuation name is created first, as a placeholder.
    let r = p.define_jmp("a", "b", Permutation(0));
    assert_eq!(r.index, 1);
    let externs = p.externs();
    assert_eq!(externs.len(), 1);
    assert_eq!(externs[0].0, "b");
    assert_eq!(externs[0].1.index, 0);
    // Defining b replaces the placeholder in place.
    let rb = p.define_ret("b", 0);
    assert_eq!(rb.index, 0);
    assert!(p.externs().is_empty());
}

#[test]
fn redefinition_keeps_the_reference() {
    let mut p: PreCompileProgram = Default::default();
    let r1 = p.define_ret("x", 0);
    let r2 = p.define_ret("x", 1);
    assert_eq!(r1, r2);
    assert!(matches!(p.entries[r1.index], Entry::Ret { variant: 1 }));
}

#[test]
fn delete_demotes_to_placeholder() {
    let mut p: PreCompileProgram = Default::default();
    let r = p.define_ret("x", 0);
    p.delete_ent("x");
    assert!(matches!(&p.entries[r.index], Entry::Extern { .. }));
    let externs = p.externs();
    assert_eq!(externs.len(), 1);
    assert_eq!(externs[0].0, "x");
}

#[test]
fn set_export_needs_a_defined_name() {
    let mut p: PreCompileProgram = Default::default();
    let e = p.set_export("missing").unwrap_err();
    assert!(matches!(e, CompileError::NameNotFound(_)));
    p.define_ret("r", 0);
    assert!(p.set_export("r").is_ok());
    // Exporting twice keeps one mark.
    assert!(p.set_export("r").is_ok());
    assert_eq!(p.exports.len(), 1);
}

#[test]
fn circular_reference_is_detected() {
    // A mutually recursive jump pair cannot be ordered.
    let mut p: PreCompileProgram = Default::default();
    p.define_jmp("a", "b", Permutation(0));
    p.define_jmp("b", "a", Permutation(0));
    let e = p.compile(Vec::new()).unwrap_err();
    match e {
        CompileError::CircularReference(ns) => {
            // In definition order: b was created first, as the
            // placeholder for a's continuation.
            assert_eq!(ns, vec![String::from("b"), String::from("a")]);
        },
        _ => panic!("expected the circular reference to be reported"),
    }
}

#[test]
fn groups_break_cycles() {
    // A call may continue into a group defined later; the group's own
    // references are resolved in a later pass.
    let mut p: PreCompileProgram = Default::default();
    p.define_call("test", "ext", 0, "group");
    let _ = p.define_group("group", &["test"]);
    p.set_export("test").unwrap();
    let cprog = p
        .compile(vec![ExternEntry::Eval { name: String::from("ext") }])
        .unwrap();
    assert_eq!(cprog.entries.len(), 1);
    assert_eq!(cprog.externs.len(), 1);
    assert_eq!(cprog.exports.len(), 1);
}

#[test]
fn missing_external_is_reported_by_name() {
    let mut p: PreCompileProgram = Default::default();
    p.define_call("test", "rec1", 2, "rec2");
    p.set_export("test").unwrap();
    let e = p.compile(Vec::new()).unwrap_err();
    match e {
        CompileError::ExternNotFound(nm) => {
            assert_eq!(nm, "rec1");
        },
        _ => panic!("expected the missing external to be reported"),
    }
}

#[test]
fn jump_into_a_group_cannot_be_lowered() {
    let mut p: PreCompileProgram = Default::default();
    let _ = p.define_group("g", &[]);
    p.define_jmp("j", "g", Permutation(0));
    let e = p.compile(Vec::new()).unwrap_err();
    assert!(matches!(e, CompileError::NameNotFound(_)));
}

#[test]
fn emitted_references_point_backwards() {
    // Dependency order: every instruction-to-instruction transfer in
    // the compiled program points to an earlier slot.
    let mut p: PreCompileProgram = Default::default();
    p.define_call("test", "rec1", 2, "rec2");
    p.define_ret("rec1", 0);
    p.set_export("test").unwrap();
    let cprog = p
        .compile(vec![ExternEntry::Eval { name: String::from("rec2") }])
        .unwrap();
    for (j, ent) in cprog.entries.iter().enumerate() {
        let target = match ent {
            lincoln::Entry::Jump { cont, .. } => Some(cont),
            lincoln::Entry::Call { call, .. } => Some(call),
            lincoln::Entry::Return { .. } => None,
        };
        if let Some(lincoln::CodeRef::Entry(e)) = target {
            assert!(e.0 < j);
        }
    }
}

#[test]
fn merge_copies_defined_entries_and_exports() {
    let mut a: PreCompileProgram = Default::default();
    a.define_call("test", "rec1", 2, "rec2");
    a.define_ret("rec1", 0);
    a.set_export("test").unwrap();

    let mut b: PreCompileProgram = Default::default();
    b.merge(&a);
    assert!(b.find_name_idx("test").is_some());
    assert!(b.find_name_idx("rec1").is_some());
    b.set_export("test").unwrap();
    let cprog = b
        .compile(vec![ExternEntry::Eval { name: String::from("rec2") }])
        .unwrap();
    assert_eq!(cprog.entries.len(), 2);
}

#[test]
fn merge_leaves_unrelated_entries_alone() {
    let mut a: PreCompileProgram = Default::default();
    let ra = a.define_ret("keep", 3);
    a.set_export("keep").unwrap();

    let mut b: PreCompileProgram = Default::default();
    b.define_ret("incoming", 0);
    a.merge(&b);

    // The entry the other program says nothing about is untouched.
    assert!(matches!(a.entries[ra.index], Entry::Ret { variant: 3 }));
    assert_eq!(a.exports.len(), 1);
    // Only names the other program defines or references arrive.
    assert_eq!(a.names.len(), 2);
    assert!(a.find_name_idx("incoming").is_some());
}

#[test]
fn is_group_in_tells_groups_apart() {
    let mut p: PreCompileProgram = Default::default();
    let g = p.define_group("g", &[]);
    let r = p.define_ret("r", 0);
    assert!(g.is_group_in(&p));
    assert!(!r.is_group_in(&p));
    assert!(!lincoln::pre_compile::EntryRef::new(99).is_group_in(&p));
}
