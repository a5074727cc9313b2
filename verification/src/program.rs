//! The compiled program: four append-only tables and the step-driven
//! evaluator over them.
//!
//! Indices handed out by the builders stay valid for the lifetime of
//! the program.  `eval` performs exactly one instruction; work that
//! only the host can do (externals, native closures) is handed back as
//! a [`Step`].

use vstd::prelude::*;

use crate::coderef::CodeRef;
use crate::coderef::EntryRef;
use crate::coderef::ExternRef;
use crate::coderef::GroupRef;
use crate::entries::Entry;
use crate::entries::ExportEntry;
use crate::entries::ExternEntry;
use crate::error::BuildError;
use crate::error::CodeRefError;
use crate::error::EvalError;
use crate::error::ValueAccessError;
use crate::permutation::apply_perm;
use crate::permutation::Permutation;
use crate::value::eval_value;
use crate::value::step_result_view;
use crate::value::value_step;
use crate::value::Context;
use crate::value::Step;
use crate::value::StepView;
use crate::value::Value;
use crate::value::ValueView;

verus! {

/// A compiled program: instructions, external entries, exports and
/// continuation groups, each in construction order.
#[derive(Debug)]
pub struct Program {
    pub entries: Vec<Entry>,
    pub externs: Vec<ExternEntry>,
    pub exports: Vec<ExportEntry>,
    pub groups: Vec<Vec<CodeRef>>,
}

/// The code references of one group.
pub open spec fn group_seq(p: Program, i: int) -> Seq<CodeRef> {
    p.groups@[i]@
}

/// Whether a group consists of a single value-producing external of
/// the program; a call whose continuation is such a group takes the
/// produced value directly instead of building a closure.
pub open spec fn is_value_extern_group(p: Program, tags: Seq<CodeRef>) -> bool {
    &&& tags.len() == 1
    &&& tags[0] is Extern
    &&& tags[0]->Extern_0.0 < p.externs@.len()
    &&& p.externs@[tags[0]->Extern_0.0 as int] is Value
}

/// What one evaluation step does on a call instruction, after the
/// instruction was found: the context is split, the suffix becomes a
/// closure over the continuation group (or, for a single
/// value-external group, the produced value itself), and control
/// transfers to the callee.
pub open spec fn call_step(
    p: Program,
    ctx: Seq<ValueView>,
    call: CodeRef,
    g: GroupRef,
    num_args: u8,
) -> (Seq<ValueView>, Result<StepView, EvalError>) {
    if num_args > ctx.len() {
        (
            ctx,
            Err(
                EvalError::ValueAccess(
                    ValueAccessError::SplitOutOfRange { at: num_args, total: ctx.len() as u8 },
                ),
            ),
        )
    } else {
        let kept = ctx.take(num_args as int);
        let suffix = ctx.skip(num_args as int);
        if g.0 >= p.groups@.len() {
            (kept, Err(EvalError::CodeRef(CodeRefError::InvalidGroupIndex { index: g })))
        } else {
            let tags = group_seq(p, g.0 as int);
            if is_value_extern_group(p, tags) {
                if suffix.len() != 0 {
                    (
                        kept,
                        Err(
                            EvalError::ValueAccess(
                                ValueAccessError::UnexpectedArgs {
                                    expect: 0,
                                    actual: suffix.len() as u8,
                                },
                            ),
                        ),
                    )
                } else {
                    (kept, Ok(StepView::ProvideAndGo { ext: tags[0]->Extern_0, go: call }))
                }
            } else {
                (
                    kept.push(ValueView::Closure { tags, captured: suffix }),
                    Ok(StepView::Go(call)),
                )
            }
        }
    }
}

/// What one evaluation step of the program does: the next context and
/// either the next code reference or the host work that must happen
/// first, or the error that stopped the step.  As in the value step,
/// the counts that argument errors report are bytes: a context driven
/// beyond the model's 255-value bound reports its count reduced to
/// the low byte.
pub open spec fn program_step(p: Program, ctx: Seq<ValueView>, cr: CodeRef) -> (Seq<ValueView>,
    Result<StepView, EvalError>) {
    match cr {
        CodeRef::Termination => (ctx, Err(EvalError::EvalOnTermination)),
        CodeRef::Entry(er) => {
            if er.0 >= p.entries@.len() {
                (ctx, Err(EvalError::CodeRef(CodeRefError::EntryNotFound { index: er })))
            } else {
                match p.entries@[er.0 as int] {
                    Entry::Jump { cont, per } => (
                        apply_perm(per.0 as nat, ctx),
                        Ok(StepView::Go(cont)),
                    ),
                    Entry::Call { call, cont, num_args } => call_step(p, ctx, call, cont, num_args),
                    Entry::Return { variant } => {
                        if ctx.len() == 0 {
                            (ctx, Err(EvalError::ValueAccess(ValueAccessError::PopFromEmpty)))
                        } else {
                            value_step(ctx.last(), ctx.drop_last(), variant)
                        }
                    },
                }
            }
        },
        CodeRef::Extern(xr) => {
            if xr.0 >= p.externs@.len() {
                (ctx, Err(EvalError::CodeRef(CodeRefError::ExternNotFound { index: xr })))
            } else {
                match p.externs@[xr.0 as int] {
                    ExternEntry::Eval { .. } => (ctx, Ok(StepView::RunExternal(xr))),
                    ExternEntry::Value { .. } => {
                        if ctx.len() != 1 {
                            (
                                ctx,
                                Err(
                                    EvalError::ValueAccess(
                                        ValueAccessError::UnexpectedArgs {
                                            expect: 1,
                                            actual: ctx.len() as u8,
                                        },
                                    ),
                                ),
                            )
                        } else {
                            (
                                Seq::empty(),
                                Ok(StepView::ProvideToCont { ext: xr, cont: ctx[0] }),
                            )
                        }
                    },
                }
            }
        },
    }
}

/// The position of the first export carrying the name, or -1.
pub open spec fn find_export_rec(exports: Seq<ExportEntry>, name: Seq<char>) -> int
    decreases exports.len(),
{
    if exports.len() == 0 {
        -1
    } else if exports[0].name@ == name {
        0
    } else {
        let r = find_export_rec(exports.drop_first(), name);
        if r < 0 {
            -1
        } else {
            r + 1
        }
    }
}

/// What `find_export_rec` finds: either no export carries the name, or
/// the result is the first that does.
pub proof fn lemma_find_export_rec(exports: Seq<ExportEntry>, name: Seq<char>)
    ensures
        find_export_rec(exports, name) == -1 ==> (forall|k: int|
            0 <= k < exports.len() ==> exports[k].name@ != name),
        find_export_rec(exports, name) != -1 ==> {
            let fi = find_export_rec(exports, name);
            &&& 0 <= fi < exports.len()
            &&& exports[fi].name@ == name
            &&& (forall|k: int| 0 <= k < fi ==> exports[k].name@ != name)
        },
    decreases exports.len(),
{
    if exports.len() == 0 {
    } else if exports[0].name@ == name {
    } else {
        lemma_find_export_rec(exports.drop_first(), name);
        assert(forall|k: int|
            1 <= k < exports.len() ==> exports[k] == exports.drop_first()[k - 1]);
    }
}

/// What looking up an export group by name returns.
pub open spec fn get_export_spec(p: Program, name: Seq<char>) -> Result<GroupRef, BuildError> {
    let i = find_export_rec(p.exports@, name);
    if i < 0 {
        Err(BuildError::ExportNotFound)
    } else {
        Ok(p.exports@[i].g)
    }
}

/// What reading one entry of a group returns.
pub open spec fn group_entry_spec(p: Program, g: GroupRef, idx: u8) -> Result<
    CodeRef,
    BuildError,
> {
    if g.0 >= p.groups@.len() {
        Err(BuildError::GroupNotFound(g))
    } else if group_seq(p, g.0 as int).len() <= idx {
        Err(
            BuildError::VariantOutOfRange {
                given: idx,
                max: group_seq(p, g.0 as int).len() as u8,
            },
        )
    } else {
        Ok(group_seq(p, g.0 as int)[idx as int])
    }
}

/// What looking up an export by name and variant returns.
pub open spec fn get_export_ent_spec(p: Program, name: Seq<char>, variant: u8) -> Result<
    CodeRef,
    BuildError,
> {
    match get_export_spec(p, name) {
        Ok(g) => group_entry_spec(p, g, variant),
        Err(e) => Err(e),
    }
}

impl GroupRef {
    /// Retrieves one entry of the group from a program.
    pub fn get_entry(self, p: &Program, idx: u8) -> (r: Result<CodeRef, BuildError>)
        ensures
            r == group_entry_spec(*p, self, idx),
    {
        if self.0 >= p.groups.len() {
            return Err(BuildError::GroupNotFound(self));
        }
        let grp = &p.groups[self.0];
        if grp.len() <= idx as usize {
            return Err(BuildError::VariantOutOfRange { given: idx, max: grp.len() as u8 });
        }
        Ok(grp[idx as usize])
    }
}

impl Program {
    /// Creates a program with empty tables.
    pub fn new() -> (r: Self)
        ensures
            r.entries@ == Seq::<Entry>::empty(),
            r.externs@ == Seq::<ExternEntry>::empty(),
            r.exports@ == Seq::<ExportEntry>::empty(),
            r.groups@ == Seq::<Vec<CodeRef>>::empty(),
    {
        Program { entries: Vec::new(), externs: Vec::new(), exports: Vec::new(), groups: Vec::new() }
    }

    /// Appends an external entry and returns its code reference.
    pub fn add_extern(&mut self, ent: ExternEntry) -> (r: CodeRef)
        ensures
            final(self).externs@ == old(self).externs@.push(ent),
            final(self).entries == old(self).entries,
            final(self).exports == old(self).exports,
            final(self).groups == old(self).groups,
            r == CodeRef::Extern(ExternRef(old(self).externs@.len() as usize)),
    {
        let pos = ExternRef::new_coderef(self.externs.len());
        self.externs.push(ent);
        pos
    }

    /// Appends an instruction and returns its code reference.
    fn add_entry(&mut self, ent: Entry) -> (r: CodeRef)
        ensures
            final(self).entries@ == old(self).entries@.push(ent),
            final(self).externs == old(self).externs,
            final(self).exports == old(self).exports,
            final(self).groups == old(self).groups,
            r == CodeRef::Entry(EntryRef(old(self).entries@.len() as usize)),
    {
        let pos = EntryRef::new_coderef(self.entries.len());
        self.entries.push(ent);
        pos
    }

    /// Appends a return instruction.
    pub fn add_return(&mut self, variant: u8) -> (r: CodeRef)
        ensures
            final(self).entries@ == old(self).entries@.push(Entry::Return { variant }),
            final(self).externs == old(self).externs,
            final(self).exports == old(self).exports,
            final(self).groups == old(self).groups,
            r == CodeRef::Entry(EntryRef(old(self).entries@.len() as usize)),
    {
        self.add_entry(Entry::Return { variant })
    }

    /// Appends a jump instruction.
    pub fn add_jump(&mut self, cont: CodeRef, per: Permutation) -> (r: CodeRef)
        ensures
            final(self).entries@ == old(self).entries@.push(Entry::Jump { cont, per }),
            final(self).externs == old(self).externs,
            final(self).exports == old(self).exports,
            final(self).groups == old(self).groups,
            r == CodeRef::Entry(EntryRef(old(self).entries@.len() as usize)),
    {
        self.add_entry(Entry::Jump { cont, per })
    }

    /// Appends a call instruction; its target must accept the kept
    /// values plus the pushed continuation.
    pub fn add_call(&mut self, call: CodeRef, num_args: u8, cont: GroupRef) -> (r: CodeRef)
        ensures
            final(self).entries@ == old(self).entries@.push(
                Entry::Call { call, cont, num_args },
            ),
            final(self).externs == old(self).externs,
            final(self).exports == old(self).exports,
            final(self).groups == old(self).groups,
            r == CodeRef::Entry(EntryRef(old(self).entries@.len() as usize)),
    {
        self.add_entry(Entry::Call { call, cont, num_args })
    }

    /// Exports a group under a name.
    pub fn add_export(&mut self, name: String, g: GroupRef)
        ensures
            final(self).exports@ == old(self).exports@.push(ExportEntry { name, g }),
            final(self).entries == old(self).entries,
            final(self).externs == old(self).externs,
            final(self).groups == old(self).groups,
    {
        self.exports.push(ExportEntry { name, g });
    }

    /// Appends an empty group and returns its reference.
    pub fn add_empty_group(&mut self) -> (r: GroupRef)
        ensures
            final(self).groups@.len() == old(self).groups@.len() + 1,
            group_seq(*final(self), old(self).groups@.len() as int) == Seq::<CodeRef>::empty(),
            forall|i: int|
                0 <= i < old(self).groups@.len() ==> final(self).groups@[i] == old(
                    self,
                ).groups@[i],
            final(self).entries == old(self).entries,
            final(self).externs == old(self).externs,
            final(self).exports == old(self).exports,
            r == GroupRef(old(self).groups@.len() as usize),
    {
        let pos = GroupRef::new(self.groups.len());
        self.groups.push(Vec::new());
        pos
    }

    /// Appends a code reference to an existing group.
    pub fn add_group_entry(&mut self, grp: GroupRef, ent: CodeRef) -> (r: Result<(), BuildError>)
        ensures
            grp.0 >= old(self).groups@.len() ==> r == Err::<(), BuildError>(
                BuildError::GroupNotFound(grp),
            ) && final(self).groups == old(self).groups,
            grp.0 < old(self).groups@.len() ==> r == Ok::<(), BuildError>(())
                && final(self).groups@.len() == old(self).groups@.len() && group_seq(
                *final(self),
                grp.0 as int,
            ) == group_seq(*old(self), grp.0 as int).push(ent) && (forall|i: int|
                0 <= i < old(self).groups@.len() && i != grp.0 ==> final(self).groups@[i] == old(
                    self,
                ).groups@[i]),
            final(self).entries == old(self).entries,
            final(self).externs == old(self).externs,
            final(self).exports == old(self).exports,
    {
        let i = grp.get_index();
        let n = self.groups.len();
        if i >= n {
            return Err(BuildError::GroupNotFound(grp));
        }
        if i == n - 1 {
            let mut g = match self.groups.pop() {
                Some(g) => g,
                None => vstd::pervasive::unreached(),
            };
            g.push(ent);
            self.groups.push(g);
            proof {
                assert(self.groups@ =~= old(self).groups@.update(
                    i as int,
                    self.groups@[i as int],
                ));
            }
        } else {
            let mut g = self.groups.swap_remove(i);
            g.push(ent);
            self.groups.push(g);
            crate::permutation::vec_swap(&mut self.groups, i, n - 1);
            proof {
                assert(self.groups@ =~= old(self).groups@.update(
                    i as int,
                    self.groups@[i as int],
                ));
            }
        }
        Ok(())
    }

    /// Finds an export by name and returns its group.
    pub fn get_export(&self, export_label: &str) -> (r: Result<GroupRef, BuildError>)
        ensures
            r == get_export_spec(*self, export_label@),
    {
        proof {
            lemma_find_export_rec(self.exports@, export_label@);
        }
        let key = export_label.to_owned();
        let n = self.exports.len();
        let mut i: usize = 0;
        while i < n && !(self.exports[i].name == key)
            invariant
                i <= n,
                n == self.exports@.len(),
                key@ == export_label@,
                forall|k: int| 0 <= k < i ==> self.exports@[k].name@ != export_label@,
            decreases n - i,
        {
            i = i + 1;
        }
        proof {
            lemma_find_export_rec(self.exports@, export_label@);
        }
        if i == n {
            Err(BuildError::ExportNotFound)
        } else {
            Ok(self.exports[i].g)
        }
    }

    /// Finds an export by name and returns the entry of the given
    /// variant of its group.
    pub fn get_export_ent(&self, export_label: &str, variant: u8) -> (r: Result<
        CodeRef,
        BuildError,
    >)
        ensures
            r == get_export_ent_spec(*self, export_label@, variant),
    {
        match self.get_export(export_label) {
            Ok(g) => g.get_entry(self, variant),
            Err(e) => Err(e),
        }
    }

    /// Evaluates the program for one step.  The context is mutated in
    /// place; the result names the next code reference or the host
    /// work that must happen before the run can continue.
    pub fn eval(&self, ctx: &mut Context, cr: CodeRef) -> (r: Result<Step, EvalError>)
        ensures
            final(ctx)@ == program_step(*self, old(ctx)@, cr).0,
            step_result_view(r) == program_step(*self, old(ctx)@, cr).1,
    {
        let ghost c0 = ctx@;
        match cr {
            CodeRef::Termination => Err(EvalError::EvalOnTermination),
            CodeRef::Entry(er) => {
                if er.0 >= self.entries.len() {
                    return Err(EvalError::from_coderef(er.not_found()));
                }
                match self.entries[er.0] {
                    Entry::Jump { cont, per } => {
                        ctx.permutate(per);
                        Ok(Step::Go(cont))
                    },
                    Entry::Call { call, cont, num_args } => self.eval_call(
                        ctx,
                        call,
                        cont,
                        num_args,
                    ),
                    Entry::Return { variant } => {
                        if ctx.is_empty() {
                            return Err(
                                EvalError::ValueAccess(ValueAccessError::PopFromEmpty),
                            );
                        }
                        let v = ctx.take_last();
                        eval_value(v, ctx, variant)
                    },
                }
            },
            CodeRef::Extern(xr) => {
                if xr.0 >= self.externs.len() {
                    return Err(EvalError::from_coderef(xr.not_found()));
                }
                match &self.externs[xr.0] {
                    ExternEntry::Eval { .. } => Ok(Step::RunExternal(xr)),
                    ExternEntry::Value { .. } => {
                        if ctx.len() != 1 {
                            return Err(EvalError::ValueAccess(ValueAccessError::UnexpectedArgs {
                                expect: 1,
                                actual: #[verifier::truncate] (ctx.len() as u8),
                            }));
                        }
                        let cont = ctx.take_last();
                        proof {
                            assert(ctx@ =~= Seq::<ValueView>::empty());
                            assert(cont@ == c0[0]);
                        }
                        Ok(Step::ProvideToCont { ext: xr, cont })
                    },
                }
            },
        }
    }

    /// The call instruction's part of `eval`.
    fn eval_call(&self, ctx: &mut Context, call: CodeRef, g: GroupRef, num_args: u8) -> (r: Result<
        Step,
        EvalError,
    >)
        ensures
            final(ctx)@ == call_step(*self, old(ctx)@, call, g, num_args).0,
            step_result_view(r) == call_step(*self, old(ctx)@, call, g, num_args).1,
    {
        let ghost c0 = ctx@;
        let suffix = match ctx.split(num_args) {
            Ok(s) => s,
            Err(e) => {
                return Err(EvalError::from_value_access(e));
            },
        };
        let ghost sufvals = suffix.values@;
        proof {
            assert(crate::value::vals_view(sufvals) == c0.skip(num_args as int));
        }
        if g.get_index() >= self.groups.len() {
            return Err(EvalError::CodeRef(CodeRefError::InvalidGroupIndex { index: g }));
        }
        let grp = &self.groups[g.get_index()];
        let ghost tags_spec = group_seq(*self, g.0 as int);
        if grp.len() == 1 {
            let is_value_ext = match grp[0] {
                CodeRef::Extern(xr) => {
                    if xr.0 < self.externs.len() {
                        self.externs[xr.0].is_value_kind()
                    } else {
                        false
                    }
                },
                _ => false,
            };
            if is_value_ext {
                let xr = match grp[0] {
                    CodeRef::Extern(xr) => xr,
                    _ => vstd::pervasive::unreached(),
                };
                if suffix.len() != 0 {
                    return Err(EvalError::ValueAccess(ValueAccessError::UnexpectedArgs {
                        expect: 0,
                        actual: #[verifier::truncate] (suffix.len() as u8),
                    }));
                }
                return Ok(Step::ProvideAndGo { ext: xr, go: call });
            }
        }
        let tags = grp.clone();
        proof {
            assert(tags@ =~= tags_spec);
        }
        ctx.push(Value::Closure { tags, captured: suffix });
        proof {
            crate::value::lemma_seq_view_is_vals_view(sufvals);
            assert(!is_value_extern_group(*self, tags_spec));
            assert(ctx@ =~= c0.take(num_args as int).push(
                ValueView::Closure { tags: tags_spec, captured: c0.skip(num_args as int) },
            ));
        }
        Ok(Step::Go(call))
    }
}


/// How far a host-driven run got.
#[derive(Debug)]
pub enum RunOutcome {
    /// The run reached the termination marker.
    Finished,
    /// The round limit ran out; the run can continue at this code
    /// reference.
    Paused(CodeRef),
    /// The run needs host work before it can continue.
    Host(Step),
}

/// The state of a run after at most `n` evaluation steps.
pub enum RunView {
    Running { ctx: Seq<ValueView>, at: CodeRef },
    Finished { ctx: Seq<ValueView> },
    Host { ctx: Seq<ValueView>, step: StepView },
    Failed { ctx: Seq<ValueView>, err: EvalError },
}

/// Drives up to `n` evaluation steps from a code reference, stopping
/// at the termination marker, at host work, or at an error.
pub open spec fn run_steps(p: Program, ctx: Seq<ValueView>, cr: CodeRef, n: nat) -> RunView
    decreases n,
{
    if cr is Termination {
        RunView::Finished { ctx }
    } else if n == 0 {
        RunView::Running { ctx, at: cr }
    } else {
        let (c2, r) = program_step(p, ctx, cr);
        match r {
            Err(e) => RunView::Failed { ctx: c2, err: e },
            Ok(StepView::Go(next)) => run_steps(p, c2, next, (n - 1) as nat),
            Ok(s) => RunView::Host { ctx: c2, step: s },
        }
    }
}

/// Whether a context and a result report exactly the given run state.
pub open spec fn run_outcome_matches(
    v: RunView,
    ctx: Seq<ValueView>,
    r: Result<RunOutcome, EvalError>,
) -> bool {
    match v {
        RunView::Running { ctx: c, at } => ctx == c && r == Ok::<RunOutcome, EvalError>(
            RunOutcome::Paused(at),
        ),
        RunView::Finished { ctx: c } => ctx == c && r == Ok::<RunOutcome, EvalError>(
            RunOutcome::Finished,
        ),
        RunView::Host { ctx: c, step } => ctx == c && (match r {
            Ok(RunOutcome::Host(s)) => s@ == step,
            _ => false,
        }),
        RunView::Failed { ctx: c, err } => ctx == c && r == Err::<RunOutcome, EvalError>(err),
    }
}

impl Program {
    /// Drives evaluation from a code reference until the termination
    /// marker, an error, host work, or the round limit; a run without
    /// an explicit limit is bounded by the machine's largest count.
    #[verifier::loop_isolation(false)]
    pub fn run_from(&self, ctx: &mut Context, start: CodeRef, rounds: Option<usize>) -> (r:
        Result<RunOutcome, EvalError>)
        ensures
            ({
                let n = (match rounds {
                    Some(n) => n,
                    None => usize::MAX,
                });
                run_outcome_matches(run_steps(*self, old(ctx)@, start, n as nat), final(ctx)@, r)
            }),
    {
        let ghost c0 = old(ctx)@;
        let n0: usize = match rounds {
            Some(n) => n,
            None => usize::MAX,
        };
        let mut cur = start;
        let mut left: usize = n0;
        let ghost mut steps: nat = 0nat;
        loop
            invariant
                steps + left == n0,
                forall|m: nat| #[trigger]
                    run_steps(*self, ctx@, cur, m) == run_steps(
                        *self,
                        c0,
                        start,
                        (steps + m) as nat,
                    ),
            decreases left,
        {
            match cur {
                CodeRef::Termination => {
                    proof {
                        assert(run_steps(*self, ctx@, cur, (n0 - steps) as nat)
                            == (RunView::Finished { ctx: ctx@ }));
                    }
                    return Ok(RunOutcome::Finished);
                },
                _ => {},
            }
            if left == 0 {
                proof {
                    assert(run_steps(*self, ctx@, cur, 0) == (RunView::Running {
                        ctx: ctx@,
                        at: cur,
                    }));
                }
                return Ok(RunOutcome::Paused(cur));
            }
            let ghost cpre = ctx@;
            let ghost mleft: nat = left as nat;
            let r = self.eval(ctx, cur);
            match r {
                Err(e) => {
                    proof {
                        assert(run_steps(*self, cpre, cur, mleft) == (RunView::Failed {
                            ctx: ctx@,
                            err: e,
                        }));
                    }
                    return Err(e);
                },
                Ok(Step::Go(next)) => {
                    proof {
                        assert forall|m: nat| #[trigger] run_steps(*self, ctx@, next, m)
                            == run_steps(*self, c0, start, (steps + 1 + m) as nat) by {
                            assert(run_steps(*self, cpre, cur, (m + 1) as nat) == run_steps(
                                *self,
                                ctx@,
                                next,
                                m,
                            ));
                            assert(run_steps(*self, cpre, cur, (m + 1) as nat) == run_steps(
                                *self,
                                c0,
                                start,
                                (steps + (m + 1)) as nat,
                            ));
                        }
                        steps = steps + 1;
                    }
                    cur = next;
                    left = left - 1;
                },
                Ok(s) => {
                    proof {
                        assert(run_steps(*self, cpre, cur, mleft) == (RunView::Host {
                            ctx: ctx@,
                            step: s@,
                        }));
                    }
                    return Ok(RunOutcome::Host(s));
                },
            }
        }
    }

    /// Looks up an export and drives evaluation from it, as `run_from`
    /// does.
    pub fn run(
        &self,
        ctx: &mut Context,
        export_label: &str,
        variant: u8,
        rounds: Option<usize>,
    ) -> (r: Result<RunOutcome, crate::error::RunError>)
        ensures
            (match get_export_ent_spec(*self, export_label@, variant) {
                Err(e) => final(ctx)@ == old(ctx)@ && r == Err::<
                    RunOutcome,
                    crate::error::RunError,
                >(crate::error::RunError::Build(e)),
                Ok(start) => ({
                    let n = (match rounds {
                        Some(n) => n,
                        None => usize::MAX,
                    });
                    match r {
                        Err(crate::error::RunError::Eval(e)) => run_outcome_matches(
                            run_steps(*self, old(ctx)@, start, n as nat),
                            final(ctx)@,
                            Err(e),
                        ),
                        Ok(o) => run_outcome_matches(
                            run_steps(*self, old(ctx)@, start, n as nat),
                            final(ctx)@,
                            Ok(o),
                        ),
                        _ => false,
                    }
                }),
            }),
    {
        let start = match self.get_export_ent(export_label, variant) {
            Ok(c) => c,
            Err(e) => {
                return Err(crate::error::RunError::Build(e));
            },
        };
        match self.run_from(ctx, start, rounds) {
            Ok(o) => Ok(o),
            Err(e) => Err(crate::error::RunError::Eval(e)),
        }
    }
}

/// Whether a code reference names something that exists in the
/// program (the termination marker always does).
pub open spec fn coderef_ok(p: Program, c: CodeRef) -> bool {
    match c {
        CodeRef::Entry(e) => e.0 < p.entries@.len(),
        CodeRef::Extern(x) => x.0 < p.externs@.len(),
        CodeRef::Termination => true,
    }
}

/// Whether every reference stored in the program's tables names
/// something that exists, and every instruction-to-instruction
/// transfer points strictly backwards — what emitting entries in
/// dependency order guarantees.
pub open spec fn wf_compiled(p: Program) -> bool {
    &&& (forall|j: int|
        0 <= j < p.entries@.len() ==> (match #[trigger] p.entries@[j] {
            Entry::Jump { cont, .. } => coderef_ok(p, cont) && (cont matches CodeRef::Entry(e)
                ==> e.0 < j),
            Entry::Call { call, cont, .. } => coderef_ok(p, call) && (call matches CodeRef::Entry(
                e,
            ) ==> e.0 < j) && cont.0 < p.groups@.len(),
            Entry::Return { .. } => true,
        }))
    &&& (forall|g: int, k: int|
        0 <= g < p.groups@.len() && 0 <= k < group_seq(p, g).len() ==> coderef_ok(
            p,
            #[trigger] group_seq(p, g)[k],
        ))
    &&& (forall|e: int| 0 <= e < p.exports@.len() ==> (#[trigger] p.exports@[e]).g.0 < p.groups@.len())
}

/// Growing a table keeps every old reference fine.
pub proof fn lemma_wfc_grow(a: Program, b: Program)
    requires
        wf_compiled(a),
        a.entries@.len() <= b.entries@.len(),
        a.externs@.len() <= b.externs@.len(),
        a.groups@.len() <= b.groups@.len(),
        forall|j: int| 0 <= j < a.entries@.len() ==> a.entries@[j] == b.entries@[j],
        forall|g: int| 0 <= g < a.groups@.len() ==> a.groups@[g] == b.groups@[g],
        forall|e: int| 0 <= e < a.exports@.len() ==> a.exports@[e] == b.exports@[e],
        forall|j: int|
            a.entries@.len() <= j < b.entries@.len() ==> (match #[trigger] b.entries@[j] {
                Entry::Jump { cont, .. } => coderef_ok(a, cont) && (cont matches CodeRef::Entry(
                    e,
                ) ==> e.0 < j),
                Entry::Call { call, cont, .. } => coderef_ok(a, call) && (call
                    matches CodeRef::Entry(e) ==> e.0 < j) && cont.0 < a.groups@.len(),
                Entry::Return { .. } => true,
            }),
        forall|g: int, k: int|
            a.groups@.len() <= g < b.groups@.len() && 0 <= k < group_seq(b, g).len()
                ==> coderef_ok(a, #[trigger] group_seq(b, g)[k]),
        forall|e: int|
            a.exports@.len() <= e < b.exports@.len() ==> (#[trigger] b.exports@[e]).g.0
                < b.groups@.len(),
    ensures
        wf_compiled(b),
{
    assert forall|j: int| 0 <= j < b.entries@.len() implies (match #[trigger] b.entries@[j] {
        Entry::Jump { cont, .. } => coderef_ok(b, cont) && (cont matches CodeRef::Entry(e) ==> e.0
            < j),
        Entry::Call { call, cont, .. } => coderef_ok(b, call) && (call matches CodeRef::Entry(e)
            ==> e.0 < j) && cont.0 < b.groups@.len(),
        Entry::Return { .. } => true,
    }) by {
        if j < a.entries@.len() {
            assert(a.entries@[j] == b.entries@[j]);
        }
    }
    assert forall|g: int, k: int|
        0 <= g < b.groups@.len() && 0 <= k < group_seq(b, g).len() implies coderef_ok(
        b,
        #[trigger] group_seq(b, g)[k],
    ) by {
        if g < a.groups@.len() {
            assert(a.groups@[g] == b.groups@[g]);
            assert(group_seq(a, g) == group_seq(b, g));
            assert(coderef_ok(a, group_seq(a, g)[k]));
        }
    }
}

/// Appending one reference to one group keeps the program well
/// formed, if the reference is fine.
pub proof fn lemma_wfc_group_entry(a: Program, b: Program, g: int, c: CodeRef)
    requires
        wf_compiled(a),
        coderef_ok(a, c),
        0 <= g < a.groups@.len(),
        b.entries == a.entries,
        b.externs == a.externs,
        b.exports == a.exports,
        b.groups@.len() == a.groups@.len(),
        group_seq(b, g) == group_seq(a, g).push(c),
        forall|t: int| 0 <= t < a.groups@.len() && t != g ==> b.groups@[t] == a.groups@[t],
    ensures
        wf_compiled(b),
{
    assert forall|g2: int, k: int|
        0 <= g2 < b.groups@.len() && 0 <= k < group_seq(b, g2).len() implies coderef_ok(
        b,
        #[trigger] group_seq(b, g2)[k],
    ) by {
        if g2 != g {
            assert(b.groups@[g2] == a.groups@[g2]);
            assert(coderef_ok(a, group_seq(a, g2)[k]));
        } else {
            if k < group_seq(a, g).len() {
                assert(coderef_ok(a, group_seq(a, g)[k]));
            }
        }
    }
}

/// Law: a call followed at once by a return at variant 0, through a
/// single-tag continuation group, leaves the context exactly as it
/// was and transfers to the group's tag.  The call splits the context
/// and pushes the closure; the return pops it again and the closure
/// merges its captured values back.
pub proof fn lemma_call_return_inverse(
    p: Program,
    ctx: Seq<ValueView>,
    i: usize,
    ret_i: usize,
    g: GroupRef,
    k: u8,
    next: CodeRef,
)
    requires
        i < p.entries@.len(),
        ret_i < p.entries@.len(),
        p.entries@[i as int] == (Entry::Call {
            call: CodeRef::Entry(EntryRef(ret_i)),
            cont: g,
            num_args: k,
        }),
        p.entries@[ret_i as int] == (Entry::Return { variant: 0 }),
        g.0 < p.groups@.len(),
        group_seq(p, g.0 as int) == seq![next],
        next is Entry,
        k <= ctx.len(),
    ensures
        ({
            let (c1, r1) = program_step(p, ctx, CodeRef::Entry(EntryRef(i)));
            let (c2, r2) = program_step(p, c1, CodeRef::Entry(EntryRef(ret_i)));
            &&& r1 == Ok::<StepView, EvalError>(StepView::Go(CodeRef::Entry(EntryRef(ret_i))))
            &&& c2 == ctx
            &&& r2 == Ok::<StepView, EvalError>(StepView::Go(next))
        }),
{
    let (c1, r1) = program_step(p, ctx, CodeRef::Entry(EntryRef(i)));
    let tags = group_seq(p, g.0 as int);
    assert(!is_value_extern_group(p, tags));
    let clo = ValueView::Closure { tags, captured: ctx.skip(k as int) };
    assert(c1 == ctx.take(k as int).push(clo));
    let (c2, r2) = program_step(p, c1, CodeRef::Entry(EntryRef(ret_i)));
    assert(c1.last() == clo);
    assert(c1.drop_last() =~= ctx.take(k as int));
    assert(ctx.take(k as int) + ctx.skip(k as int) =~= ctx);
}

} // verus!

