//! The evaluator, driven the way a host drives it: pure steps run
//! inside the library, external work is handed back as a step.

use lincoln::coderef::CodeRef;
use lincoln::coderef::EntryRef;
use lincoln::coderef::ExternRef;
use lincoln::default_context;
use lincoln::error::BuildError;
use lincoln::error::EvalError;
use lincoln::eval_closure;
use lincoln::eval_value;
use lincoln::unwrap;
use lincoln::value::Step;
use lincoln::wrap;
use lincoln::ExternEntry;
use lincoln::PreCompileProgram;
use lincoln::Program;
use lincoln::RunOutcome;
use lincoln::Value;

fn go_of(step: Step) -> CodeRef {
    match step {
        Step::Go(c) => c,
        _ => panic!("expected a plain transfer"),
    }
}

#[test]
fn test_call_ret() {
    let mut prog: PreCompileProgram = Default::default();
    // A call with a direct return is equal to not doing anything.
    prog.define_call("test", "rec1", 2, "rec2");
    prog.define_ret("rec1", 0);
    prog.set_export("test").unwrap();

    let cprog = prog
        .compile(vec![ExternEntry::Eval { name: String::from("rec2") }])
        .unwrap();
    let mut ctx = default_context();
    ctx.push(wrap(1));
    ctx.push(wrap(2));
    ctx.push(wrap(3));
    let mut next = cprog.get_export_ent("test", 0).unwrap();
    next = go_of(cprog.eval(&mut ctx, next).unwrap());
    assert!(matches!(next, CodeRef::Entry(_)));
    next = go_of(cprog.eval(&mut ctx, next).unwrap());
    assert!(matches!(next, CodeRef::Extern(_)));
    let step = cprog.eval(&mut ctx, next).unwrap();
    match step {
        Step::RunExternal(ExternRef(0)) => {
            // The host function behind rec2.
            assert_eq!(unwrap(ctx.pop().unwrap()).unwrap(), 3);
            assert_eq!(unwrap(ctx.pop().unwrap()).unwrap(), 2);
            assert_eq!(unwrap(ctx.pop().unwrap()).unwrap(), 1);
        },
        _ => panic!("expected the external to be requested"),
    }
}

#[test]
fn test_call() {
    let mut prog: PreCompileProgram = Default::default();
    prog.define_call("test", "rec1", 2, "rec2");
    prog.set_export("test").unwrap();

    let cprog = prog
        .compile(vec![
            ExternEntry::Eval { name: String::from("rec1") },
            ExternEntry::Eval { name: String::from("rec2") },
        ])
        .unwrap();

    let mut ctx = default_context();
    ctx.push(wrap(1));
    ctx.push(wrap(2));
    ctx.push(wrap(3));
    let mut next = cprog.get_export_ent("test", 0).unwrap();
    next = go_of(cprog.eval(&mut ctx, next).unwrap());
    let step = cprog.eval(&mut ctx, next).unwrap();
    match step {
        Step::RunExternal(_) => {
            // The host function behind rec1.
            let v = ctx.pop().unwrap();
            assert_eq!(unwrap(ctx.pop().unwrap()).unwrap(), 2);
            assert_eq!(unwrap(ctx.pop().unwrap()).unwrap(), 1);
            next = go_of(eval_closure(v, &mut ctx, 0).unwrap());
        },
        _ => panic!("expected the external to be requested"),
    }
    let step = cprog.eval(&mut ctx, next).unwrap();
    match step {
        Step::RunExternal(_) => {
            // The host function behind rec2.
            assert_eq!(unwrap(ctx.pop().unwrap()).unwrap(), 3);
        },
        _ => panic!("expected the external to be requested"),
    }
}

#[test]
fn tests_test_call() {
    let mut prog: PreCompileProgram = Default::default();
    prog.define_call("test", "rec1", 2, "rec2");
    prog.set_export("test").unwrap();
    let cprog = prog
        .compile(vec![
            ExternEntry::Eval { name: String::from("rec1") },
            ExternEntry::Eval { name: String::from("rec2") },
        ])
        .unwrap();
    assert_eq!(cprog.externs.len(), 2);
    assert_eq!(cprog.entries.len(), 1);
}

#[test]
fn zero_variant_closure_terminates() {
    // A closure without variants is the terminator sentinel: whatever
    // the variant, it merges its captured values and ends the run.
    let mut captured = default_context();
    captured.push(wrap(9));
    let c = Value::Closure { tags: Vec::new(), captured };
    let mut ctx = default_context();
    ctx.push(wrap(5));
    let step = eval_value(c, &mut ctx, 7).unwrap();
    assert!(matches!(step, Step::Go(CodeRef::Termination)));
    assert_eq!(ctx.len(), 2);
    assert_eq!(unwrap(ctx.pop().unwrap()).unwrap(), 9);
    assert_eq!(unwrap(ctx.pop().unwrap()).unwrap(), 5);
}

#[test]
fn closure_drop_variant() {
    // Variant 1 on a single-variant closure: discard the claim, keep
    // the continuation, which then sees its own captured values.
    let c = Value::Closure { tags: vec![CodeRef::Termination], captured: default_context() };
    let mut cont_captured = default_context();
    cont_captured.push(wrap(5));
    let cont = Value::Closure { tags: vec![CodeRef::entry(3)], captured: cont_captured };
    let mut ctx = default_context();
    ctx.push(cont);
    let step = eval_value(c, &mut ctx, 1).unwrap();
    assert!(matches!(step, Step::Go(CodeRef::Entry(EntryRef(3)))));
    assert_eq!(ctx.len(), 1);
    assert_eq!(unwrap(ctx.pop().unwrap()).unwrap(), 5);
}

#[test]
fn closure_copy_variant() {
    // Variant 2 on a single-variant closure: two fresh handles with
    // the same tags and empty captured contexts appear.
    let c = Value::Closure { tags: vec![CodeRef::entry(4)], captured: default_context() };
    let cont = Value::Closure { tags: Vec::new(), captured: default_context() };
    let mut ctx = default_context();
    ctx.push(cont);
    let step = eval_value(c, &mut ctx, 2).unwrap();
    assert!(matches!(step, Step::Go(CodeRef::Termination)));
    assert_eq!(ctx.len(), 2);
    let fresh = ctx.pop().unwrap();
    let step = eval_closure(fresh, &mut ctx, 0).unwrap();
    assert!(matches!(step, Step::Go(CodeRef::Entry(EntryRef(4)))));
}

#[test]
fn drop_needs_exactly_the_continuation() {
    let c = Value::Closure { tags: vec![CodeRef::Termination], captured: default_context() };
    let mut ctx = default_context();
    ctx.push(wrap(1));
    ctx.push(wrap(2));
    let e = eval_value(c, &mut ctx, 1).unwrap_err();
    assert!(matches!(e, EvalError::ValueAccess(_)));
}

#[test]
fn variant_out_of_bound_is_reported() {
    let c = Value::Closure { tags: vec![CodeRef::Termination], captured: default_context() };
    let mut ctx = default_context();
    let e = eval_value(c, &mut ctx, 5).unwrap_err();
    assert!(matches!(e, EvalError::VariantOutOfBound { given: 5, max: 1 }));
}

#[test]
fn wrapped_cannot_be_called() {
    let mut ctx = default_context();
    let e = eval_value(wrap(3), &mut ctx, 0).unwrap_err();
    assert!(matches!(e, EvalError::CallingWrapped));
}

#[test]
fn eval_on_termination_is_an_error() {
    let prog = Program::new();
    let mut ctx = default_context();
    let e = prog.eval(&mut ctx, CodeRef::Termination).unwrap_err();
    assert!(matches!(e, EvalError::EvalOnTermination));
}

#[test]
fn return_on_empty_context_is_an_error() {
    let mut prog = Program::new();
    let ret = prog.add_return(0);
    let mut ctx = default_context();
    let e = prog.eval(&mut ctx, ret).unwrap_err();
    assert!(matches!(e, EvalError::ValueAccess(_)));
}

#[test]
fn value_external_hands_back_continuation() {
    let mut prog = Program::new();
    let ext = prog.add_extern(ExternEntry::Value { name: String::from("zero") });
    let mut ctx = default_context();
    ctx.push(Value::Closure { tags: Vec::new(), captured: default_context() });
    let step = prog.eval(&mut ctx, ext).unwrap();
    match step {
        Step::ProvideToCont { ext: ExternRef(0), cont } => {
            // The host produces the value and resumes.
            let next = lincoln::resume_with_value(&mut ctx, cont, wrap(0)).unwrap();
            assert!(matches!(next, Step::Go(CodeRef::Termination)));
            assert_eq!(ctx.len(), 1);
            assert_eq!(unwrap(ctx.pop().unwrap()).unwrap(), 0);
        },
        _ => panic!("expected a value request"),
    }
}

#[test]
fn run_drives_to_termination() {
    let mut prog: PreCompileProgram = Default::default();
    prog.define_call("test", "rec1", 0, "rec2");
    prog.define_ret("rec1", 0);
    prog.define_ret("rec2", 0);
    prog.set_export("test").unwrap();
    let cprog = prog.compile(Vec::new()).unwrap();
    let mut ctx = default_context();
    // The top-level terminator continuation.
    ctx.push(Value::Closure { tags: Vec::new(), captured: default_context() });
    let out = cprog.run(&mut ctx, "test", 0, None).unwrap();
    assert!(matches!(out, RunOutcome::Finished));
}

#[test]
fn run_respects_the_round_limit() {
    // A self-jump built directly on the bytecode tables spins
    // forever; a round limit pauses the run where it stands.
    let mut prog = Program::new();
    let g = prog.add_empty_group();
    let j = prog.add_jump(CodeRef::entry(0), lincoln::Permutation(0));
    prog.add_group_entry(g, j).unwrap();
    prog.add_export(String::from("spin"), g);
    let mut ctx = default_context();
    let out = prog.run(&mut ctx, "spin", 0, Some(5)).unwrap();
    assert!(matches!(out, RunOutcome::Paused(CodeRef::Entry(EntryRef(0)))));
}

#[test]
fn export_lookup_errors() {
    let prog = Program::new();
    let e = prog.get_export_ent("missing", 0).unwrap_err();
    assert!(matches!(e, BuildError::ExportNotFound));

    let mut prog: PreCompileProgram = Default::default();
    prog.define_ret("r", 0);
    prog.set_export("r").unwrap();
    let cprog = prog.compile(Vec::new()).unwrap();
    let e = cprog.get_export_ent("r", 3).unwrap_err();
    assert!(matches!(e, BuildError::VariantOutOfRange { given: 3, max: 1 }));
}

#[test]
fn call_and_return_leave_context_unchanged() {
    // A call that keeps one value, whose callee returns at once into
    // the single-tag continuation, hands the context back untouched.
    let mut prog: PreCompileProgram = Default::default();
    prog.define_call("test", "rec1", 1, "rec2");
    prog.define_ret("rec1", 0);
    prog.set_export("test").unwrap();
    let cprog = prog
        .compile(vec![ExternEntry::Eval { name: String::from("rec2") }])
        .unwrap();
    let mut ctx = default_context();
    ctx.push(wrap(41));
    ctx.push(wrap(42));
    let mut next = cprog.get_export_ent("test", 0).unwrap();
    next = go_of(cprog.eval(&mut ctx, next).unwrap());
    assert_eq!(ctx.len(), 2);
    next = go_of(cprog.eval(&mut ctx, next).unwrap());
    assert!(matches!(next, CodeRef::Extern(_)));
    assert_eq!(ctx.len(), 2);
    assert_eq!(unwrap(ctx.pop().unwrap()).unwrap(), 42);
    assert_eq!(unwrap(ctx.pop().unwrap()).unwrap(), 41);
}

#[test]
fn native_closures_are_handed_to_the_host() {
    let v = lincoln::native_closure(String::from("from"), 12);
    let mut ctx = default_context();
    let step = eval_value(v, &mut ctx, 3).unwrap();
    match step {
        Step::RunNative { name, token, variant } => {
            assert_eq!(name, "from");
            assert_eq!(token, 12);
            assert_eq!(variant, 3);
        },
        _ => panic!("expected the native closure to be handed back"),
    }
}
