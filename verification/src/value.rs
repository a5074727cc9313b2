//! Runtime values and the operand context of the evaluator.
//!
//! A value is a closure (continuation tags plus a captured context), a
//! wrapped host datum, or a host-supplied one-shot evaluator addressed
//! by a token.  A context is the operand stack: an ordered sequence of
//! values whose top is the last position.

use vstd::prelude::*;

use crate::coderef::CodeRef;
use crate::error::EvalError;
use crate::error::ValueAccessError;
use crate::permutation::apply_perm;
use crate::permutation::lemma_apply_from_map;
use crate::permutation::Permutation;

verus! {

/// A runtime value.
#[derive(Debug)]
pub enum Value {
    /// A closure: continuation tags and the context it captured.
    Closure { tags: Vec<CodeRef>, captured: Context },
    /// A wrapped host datum, carried as a plain number; a host that
    /// owns richer data passes a handle into its own table.
    Wrapped { data: u64 },
    /// A host-supplied single-shot evaluator: the host keeps the
    /// function and finds it again by the token; the name is for
    /// display.
    Native { name: String, token: u64 },
}

/// The mathematical shape of a value, with every container replaced by
/// a sequence.
pub enum ValueView {
    Closure { tags: Seq<CodeRef>, captured: Seq<ValueView> },
    Wrapped { data: u64 },
    Native { name: Seq<char>, token: u64 },
}

/// The mathematical shape of a value; containers become sequences.
pub open spec fn value_view(v: Value) -> ValueView
    decreases v,
    via value_view_decreases
{
    match v {
        Value::Closure { tags, captured } => ValueView::Closure {
            tags: tags@,
            captured: seq_view(captured.values@),
        },
        Value::Wrapped { data } => ValueView::Wrapped { data },
        Value::Native { name, token } => ValueView::Native { name: name@, token },
    }
}

/// The views of the values of a sequence, built back to front.
pub open spec fn seq_view(s: Seq<Value>) -> Seq<ValueView>
    decreases s,
{
    if s.len() == 0 {
        Seq::empty()
    } else {
        seq_view(s.subrange(0, s.len() - 1)).push(value_view(s[s.len() - 1]))
    }
}

#[via_fn]
proof fn value_view_decreases(v: Value) {
    match v {
        Value::Closure { tags, captured } => {
            assert(decreases_to!(v => captured));
            assert(decreases_to!(captured => captured.values));
            assert(decreases_to!(captured.values => captured.values@));
        },
        _ => {},
    }
}

impl View for Value {
    type V = ValueView;

    open spec fn view(&self) -> ValueView {
        value_view(*self)
    }
}

/// `seq_view` reads pointwise, as `vals_view` spells it.
pub broadcast proof fn lemma_seq_view_is_vals_view(s: Seq<Value>)
    ensures
        #[trigger] seq_view(s) == vals_view(s),
    decreases s.len(),
{
    if s.len() > 0 {
        lemma_seq_view_is_vals_view(s.subrange(0, s.len() - 1));
        assert(seq_view(s) =~= vals_view(s));
    } else {
        assert(seq_view(s) =~= vals_view(s));
    }
}


/// The views of the values of a sequence, in order.
pub open spec fn vals_view(s: Seq<Value>) -> Seq<ValueView> {
    Seq::new(s.len(), |i: int| s[i]@)
}

/// A container of values: the operand stack of the evaluator.  The
/// first value is at position 0; the top, which a return instruction
/// pops, is the last position.
#[derive(Debug)]
pub struct Context {
    pub values: Vec<Value>,
}

impl View for Context {
    type V = Seq<ValueView>;

    open spec fn view(&self) -> Seq<ValueView> {
        vals_view(self.values@)
    }
}

impl Default for Context {
    /// An empty context.
    fn default() -> (r: Context)
        ensures
            r@ == Seq::<ValueView>::empty(),
    {
        let r = Context { values: Vec::new() };
        proof {
            assert(r@ =~= Seq::<ValueView>::empty());
        }
        r
    }
}

/// An empty context.
pub fn default_context() -> (r: Context)
    ensures
        r@ == Seq::<ValueView>::empty(),
{
    Context::default()
}

/// Wraps a host datum as a value.
pub fn wrap(data: u64) -> (r: Value)
    ensures
        r@ == (ValueView::Wrapped { data }),
{
    Value::Wrapped { data }
}

/// Takes the host datum back out of a wrapped value; closures and
/// native closures are not unwrappable.
pub fn unwrap(v: Value) -> (r: Result<u64, EvalError>)
    ensures
        match v@ {
            ValueView::Wrapped { data } => r == Ok::<u64, EvalError>(data),
            _ => (match r {
                Err(EvalError::ValueAccess(ValueAccessError::UnwrapNotWrapped(m))) => m@
                    == "not a wrapped value"@,
                _ => false,
            }),
        },
{
    match v {
        Value::Wrapped { data } => Ok(data),
        _ => {
            let m = String::from_str("not a wrapped value");
            Err(EvalError::ValueAccess(ValueAccessError::UnwrapNotWrapped(m)))
        },
    }
}

/// Builds a host-supplied one-shot evaluator value; the host keeps the
/// function under the token.
pub fn native_closure(name: String, token: u64) -> (r: Value)
    ensures
        r@ == (ValueView::Native { name: name@, token }),
{
    Value::Native { name, token }
}

/// What the evaluator asks of its caller after one step: where to
/// continue, or which piece of host work must happen first.
#[derive(Debug)]
pub enum Step {
    /// Continue at this code reference; `Termination` here ends the
    /// run.
    Go(CodeRef),
    /// Run the named external function on the context; it names the
    /// next code reference itself.
    RunExternal(crate::coderef::ExternRef),
    /// Produce the external value, then hand it with this continuation
    /// to `resume_with_value`.
    ProvideToCont { ext: crate::coderef::ExternRef, cont: Value },
    /// Produce the external value, push it onto the context, and
    /// continue at `go`.
    ProvideAndGo { ext: crate::coderef::ExternRef, go: CodeRef },
    /// Run the host's one-shot evaluator kept under `token` on the
    /// context, at `variant`.
    RunNative { name: String, token: u64, variant: u8 },
}

/// The mathematical shape of a step.
pub enum StepView {
    Go(CodeRef),
    RunExternal(crate::coderef::ExternRef),
    ProvideToCont { ext: crate::coderef::ExternRef, cont: ValueView },
    ProvideAndGo { ext: crate::coderef::ExternRef, go: CodeRef },
    RunNative { name: Seq<char>, token: u64, variant: u8 },
}

impl View for Step {
    type V = StepView;

    open spec fn view(&self) -> StepView {
        match self {
            Step::Go(c) => StepView::Go(*c),
            Step::RunExternal(e) => StepView::RunExternal(*e),
            Step::ProvideToCont { ext, cont } => StepView::ProvideToCont {
                ext: *ext,
                cont: cont@,
            },
            Step::ProvideAndGo { ext, go } => StepView::ProvideAndGo { ext: *ext, go: *go },
            Step::RunNative { name, token, variant } => StepView::RunNative {
                name: name@,
                token: *token,
                variant: *variant,
            },
        }
    }
}

/// The view of a step result, errors unchanged.
pub open spec fn step_result_view(r: Result<Step, EvalError>) -> Result<StepView, EvalError> {
    match r {
        Ok(s) => Ok(s@),
        Err(e) => Err(e),
    }
}

impl Context {
    /// The number of values held.
    pub fn len(&self) -> (r: usize)
        ensures
            r == self@.len(),
    {
        self.values.len()
    }

    /// Whether no value is held.
    pub fn is_empty(&self) -> (r: bool)
        ensures
            r == (self@.len() == 0),
    {
        self.values.is_empty()
    }

    /// Succeeds exactly when the context holds `args` values; external
    /// functions check their argument count with this.  The count it
    /// reports is exact, so the context must stay within the data
    /// model's bound of 255 values.
    pub fn expect_args(&self, args: u8) -> (r: Result<(), ValueAccessError>)
        requires
            self@.len() <= 255,
        ensures
            self@.len() == args ==> r == Ok::<(), ValueAccessError>(()),
            self@.len() != args ==> r == Err::<(), ValueAccessError>(
                ValueAccessError::UnexpectedArgs { expect: args, actual: self@.len() as u8 },
            ),
    {
        if self.values.len() != args as usize {
            Err(ValueAccessError::UnexpectedArgs { expect: args, actual: self.values.len() as u8 })
        } else {
            Ok(())
        }
    }

    /// Stores one more value on top.
    pub fn push(&mut self, v: Value)
        ensures
            final(self)@ == old(self)@.push(v@),
    {
        self.values.push(v);
        proof {
            assert(self@ =~= old(self)@.push(v@));
        }
    }

    /// Removes and returns the top value; fails on an empty context.
    pub fn pop(&mut self) -> (r: Result<Value, ValueAccessError>)
        ensures
            old(self)@.len() == 0 ==> final(self)@ == old(self)@ && r
                == Err::<Value, ValueAccessError>(ValueAccessError::PopFromEmpty),
            old(self)@.len() > 0 ==> final(self)@ == old(self)@.drop_last() && (match r {
                Ok(v) => v@ == old(self)@.last(),
                Err(_) => false,
            }),
    {
        match self.values.pop() {
            Some(v) => {
                proof {
                    assert(self@ =~= old(self)@.drop_last());
                }
                Ok(v)
            },
            None => {
                proof {
                    assert(self@ =~= old(self)@);
                }
                Err(ValueAccessError::PopFromEmpty)
            },
        }
    }

    /// Removes the top value of a context known not to be empty.
    pub(crate) fn take_last(&mut self) -> (r: Value)
        requires
            old(self)@.len() > 0,
        ensures
            final(self)@ == old(self)@.drop_last(),
            r@ == old(self)@.last(),
    {
        match self.values.pop() {
            Some(v) => {
                proof {
                    assert(self@ =~= old(self)@.drop_last());
                }
                v
            },
            None => vstd::pervasive::unreached(),
        }
    }

    /// Keeps the first `at` values and returns the rest as a new
    /// context; fails when fewer than `at` values are held.
    pub fn split(&mut self, at: u8) -> (r: Result<Context, ValueAccessError>)
        ensures
            old(self)@.len() < at ==> final(self)@ == old(self)@ && r
                == Err::<Context, ValueAccessError>(
                ValueAccessError::SplitOutOfRange { at, total: old(self)@.len() as u8 },
            ),
            old(self)@.len() >= at ==> final(self)@ == old(self)@.take(at as int) && (match r {
                Ok(c) => c@ == old(self)@.skip(at as int),
                Err(_) => false,
            }),
    {
        if self.values.len() < at as usize {
            return Err(ValueAccessError::SplitOutOfRange { at, total: self.values.len() as u8 });
        }
        let tail = self.values.split_off(at as usize);
        proof {
            assert(self@ =~= old(self)@.take(at as int));
            assert(vals_view(tail@) =~= old(self)@.skip(at as int));
        }
        Ok(Context { values: tail })
    }

    /// Appends the other context's values, in their order, onto this
    /// one; the other context is left empty.
    pub fn merge(&mut self, other: &mut Context)
        ensures
            final(self)@ == old(self)@ + old(other)@,
            final(other)@ == Seq::<ValueView>::empty(),
    {
        self.values.append(&mut other.values);
        proof {
            assert(self@ =~= old(self)@ + old(other)@);
            assert(other@ =~= Seq::<ValueView>::empty());
        }
    }

    /// Takes every value out, in order; the context is left empty.
    pub fn take_values(&mut self) -> (r: Vec<Value>)
        ensures
            vals_view(r@) == old(self)@,
            final(self)@ == Seq::<ValueView>::empty(),
    {
        let mut out: Vec<Value> = Vec::new();
        core::mem::swap(&mut out, &mut self.values);
        proof {
            assert(self@ =~= Seq::<ValueView>::empty());
        }
        out
    }

    /// Reorders the values in place; positions beyond the
    /// permutation's length stay put.
    pub fn permutate(&mut self, p: Permutation)
        ensures
            final(self)@ == apply_perm(p.0 as nat, old(self)@),
    {
        let ghost before = self.values@;
        p.permutate(&mut self.values);
        proof {
            let f = |v: Value| v@;
            lemma_apply_from_map(p.0 as nat, 1, before, f);
            assert(vals_view(before) =~= before.map_values(f));
            assert(self@ =~= apply_perm(p.0 as nat, before).map_values(f));
        }
    }
}


/// What evaluating a value at variant 0 does: the non-recursive inner
/// step that drop and copy hand their continuation to.
pub open spec fn value_step_zero(v: ValueView, ctx: Seq<ValueView>) -> (Seq<ValueView>, Result<
    StepView,
    EvalError,
>) {
    match v {
        ValueView::Wrapped { data } => (ctx, Err(EvalError::CallingWrapped)),
        ValueView::Native { name, token } => (
            ctx,
            Ok(StepView::RunNative { name, token, variant: 0 }),
        ),
        ValueView::Closure { tags, captured } => {
            let c1 = ctx + captured;
            if tags.len() == 0 {
                (c1, Ok(StepView::Go(CodeRef::Termination)))
            } else {
                (c1, Ok(StepView::Go(tags[0])))
            }
        },
    }
}

/// What evaluating a value on a context at a variant does: the value
/// is consumed; a closure first merges its captured values onto the
/// context, then transfers to the chosen tag, a zero-variant closure
/// ends the run, and a single-variant closure also offers the
/// distinguished variants 1 (drop) and 2 (copy).  The count an
/// argument-check error reports is held in a byte: a context driven
/// beyond the data model's bound of 255 values reports its count
/// reduced to the low byte.
pub open spec fn value_step(v: ValueView, ctx: Seq<ValueView>, variant: u8) -> (Seq<ValueView>,
    Result<StepView, EvalError>) {
    match v {
        ValueView::Wrapped { data } => (ctx, Err(EvalError::CallingWrapped)),
        ValueView::Native { name, token } => (ctx, Ok(StepView::RunNative { name, token, variant })),
        ValueView::Closure { tags, captured } => {
            let c1 = ctx + captured;
            let cnt = tags.len() as int;
            if cnt == 0 {
                (c1, Ok(StepView::Go(CodeRef::Termination)))
            } else if variant >= cnt && !(cnt == 1 && (variant == 1 || variant == 2)) {
                (c1, Err(EvalError::VariantOutOfBound { given: variant, max: cnt as u8 }))
            } else if cnt == 1 && (variant == 1 || variant == 2) {
                if c1.len() != 1 {
                    (
                        c1,
                        Err(
                            EvalError::ValueAccess(
                                ValueAccessError::UnexpectedArgs {
                                    expect: 1,
                                    actual: c1.len() as u8,
                                },
                            ),
                        ),
                    )
                } else if variant == 1 {
                    value_step_zero(c1[0], Seq::empty())
                } else {
                    let fresh = ValueView::Closure { tags, captured: Seq::empty() };
                    value_step_zero(c1[0], seq![fresh, fresh])
                }
            } else {
                (c1, Ok(StepView::Go(tags[variant as int])))
            }
        },
    }
}

/// Evaluates a value at variant 0; used for continuations.
fn eval_value_cont(v: Value, ctx: &mut Context) -> (r: Result<Step, EvalError>)
    ensures
        final(ctx)@ == value_step_zero(v@, old(ctx)@).0,
        step_result_view(r) == value_step_zero(v@, old(ctx)@).1,
{
    let ghost vv = v@;
    match v {
        Value::Wrapped { .. } => {
            proof {
                assert(value_step_zero(vv, old(ctx)@).0 == old(ctx)@);
            }
            Err(EvalError::CallingWrapped)
        },
        Value::Native { name, token } => {
            proof {
                assert(value_step_zero(vv, old(ctx)@).0 == old(ctx)@);
            }
            Ok(Step::RunNative { name, token, variant: 0 })
        },
        Value::Closure { tags, mut captured } => {
            let ghost capvals0 = captured.values@;
            let ghost cap0 = captured@;
            let ghost c0 = ctx@;
            ctx.merge(&mut captured);
            proof {
                lemma_seq_view_is_vals_view(capvals0);
                assert(vv is Closure);
                assert(vv->Closure_captured == seq_view(capvals0));
                assert(cap0 == vals_view(capvals0));
                assert(ctx@ == c0 + cap0);
                assert(ctx@ == value_step_zero(vv, old(ctx)@).0);
            }
            if tags.len() == 0 {
                Ok(Step::Go(CodeRef::Termination))
            } else {
                Ok(Step::Go(tags[0]))
            }
        },
    }
}

/// Evaluates a value on a context at a variant, consuming the value.
/// This is the dispatch a return instruction performs on the value it
/// popped; the contract is exactly `value_step`.
pub fn eval_value(v: Value, ctx: &mut Context, variant: u8) -> (r: Result<Step, EvalError>)
    ensures
        final(ctx)@ == value_step(v@, old(ctx)@, variant).0,
        step_result_view(r) == value_step(v@, old(ctx)@, variant).1,
{
    let ghost vv = v@;
    let ghost c0 = old(ctx)@;
    match v {
        Value::Wrapped { .. } => {
            proof {
                assert(value_step(vv, c0, variant).0 == c0);
            }
            Err(EvalError::CallingWrapped)
        },
        Value::Native { name, token } => {
            proof {
                assert(value_step(vv, c0, variant).0 == c0);
            }
            Ok(Step::RunNative { name, token, variant })
        },
        Value::Closure { tags, mut captured } => {
            let ghost capvals0 = captured.values@;
            let ghost cap0 = captured@;
            ctx.merge(&mut captured);
            let ghost c1 = ctx@;
            proof {
                lemma_seq_view_is_vals_view(capvals0);
                assert(vv is Closure);
                assert(vv->Closure_captured == seq_view(capvals0));
                assert(cap0 == vals_view(capvals0));
                assert(c1 == c0 + cap0);
                assert(c1 == c0 + vv->Closure_captured);
            }
            let cnt = tags.len();
            if cnt == 0 {
                proof {
                    assert(value_step(vv, c0, variant).0 == c1);
                }
                return Ok(Step::Go(CodeRef::Termination));
            }
            if (variant as usize) >= cnt && !(cnt == 1 && (variant == 1 || variant == 2)) {
                proof {
                    assert(value_step(vv, c0, variant).0 == c1);
                }
                return Err(EvalError::VariantOutOfBound {
                    given: variant,
                    max: #[verifier::truncate] (cnt as u8),
                });
            }
            if cnt == 1 && (variant == 1 || variant == 2) {
                if ctx.len() != 1 {
                    proof {
                        assert(value_step(vv, c0, variant).0 == c1);
                    }
                    return Err(EvalError::ValueAccess(ValueAccessError::UnexpectedArgs {
                        expect: 1,
                        actual: #[verifier::truncate] (ctx.len() as u8),
                    }));
                }
                let cont = ctx.take_last();
                proof {
                    assert(ctx@ =~= Seq::<ValueView>::empty());
                    assert(cont@ == c1[0]);
                }
                if variant == 1 {
                    let r = eval_value_cont(cont, ctx);
                    proof {
                        assert(value_step(vv, c0, variant) == value_step_zero(
                            c1[0],
                            Seq::<ValueView>::empty(),
                        ));
                    }
                    r
                } else {
                    let tags2 = tags.clone();
                    proof {
                        assert(tags2@ =~= tags@);
                    }
                    ctx.push(Value::Closure { tags: tags2, captured: Context::default() });
                    ctx.push(Value::Closure { tags, captured: Context::default() });
                    let ghost fresh = ValueView::Closure { tags: vv->Closure_tags, captured: Seq::empty() };
                    proof {
                        broadcast use lemma_seq_view_is_vals_view;

                        assert(ctx@ =~= seq![fresh, fresh]);
                    }
                    let r = eval_value_cont(cont, ctx);
                    proof {
                        assert(value_step(vv, c0, variant) == value_step_zero(
                            c1[0],
                            seq![fresh, fresh],
                        ));
                    }
                    r
                }
            } else {
                proof {
                    assert(value_step(vv, c0, variant).0 == c1);
                }
                Ok(Step::Go(tags[variant as usize]))
            }
        },
    }
}

/// Evaluates a value that must be a closure; wrapped host data and
/// native closures are rejected, as only a closure can stand for a
/// continuation built by a call instruction.
pub fn eval_closure(v: Value, ctx: &mut Context, variant: u8) -> (r: Result<Step, EvalError>)
    ensures
        v@ is Closure ==> final(ctx)@ == value_step(v@, old(ctx)@, variant).0 && step_result_view(r)
            == value_step(v@, old(ctx)@, variant).1,
        !(v@ is Closure) ==> final(ctx)@ == old(ctx)@ && r == Err::<Step, EvalError>(
            EvalError::CallingWrapped,
        ),
{
    match v {
        Value::Closure { tags, captured } => eval_value(
            Value::Closure { tags, captured },
            ctx,
            variant,
        ),
        _ => Err(EvalError::CallingWrapped),
    }
}

/// Continues after a value-producing external: pushes the produced
/// value and enters the continuation at variant 0, as the evaluator
/// itself would have.
pub fn resume_with_value(ctx: &mut Context, cont: Value, produced: Value) -> (r: Result<
    Step,
    EvalError,
>)
    ensures
        final(ctx)@ == value_step_zero(cont@, old(ctx)@.push(produced@)).0,
        step_result_view(r) == value_step_zero(cont@, old(ctx)@.push(produced@)).1,
{
    ctx.push(produced);
    eval_value_cont(cont, ctx)
}

/// Law: splitting a context and merging the two parts back restores
/// it.  After a split at `k` the head holds the first `k` values and
/// the tail the rest; merging appends the tail back, giving the
/// original sequence, and leaves the tail empty.
pub proof fn lemma_split_merge_round_trip(c: Seq<ValueView>, k: int)
    requires
        0 <= k <= c.len(),
    ensures
        c.take(k).len() == k,
        c.skip(k).len() == c.len() - k,
        c.take(k) + c.skip(k) == c,
{
    assert(c.take(k) + c.skip(k) =~= c);
}

/// Law (drop): evaluating a single-variant closure without captured
/// values at variant 1, on a context holding only a continuation
/// closure, discards the evaluated closure and enters the continuation
/// at variant 0, so the context becomes exactly what the continuation
/// had captured.
pub proof fn lemma_closure_drop(tags: Seq<CodeRef>, ctags: Seq<CodeRef>, cap: Seq<ValueView>)
    requires
        tags.len() == 1,
    ensures
        ({
            let c = ValueView::Closure { tags, captured: Seq::empty() };
            let cont = ValueView::Closure { tags: ctags, captured: cap };
            let (ctx2, r) = value_step(c, seq![cont], 1);
            &&& ctx2 == cap
            &&& r == Ok::<StepView, EvalError>(
                StepView::Go(
                    if ctags.len() == 0 {
                        CodeRef::Termination
                    } else {
                        ctags[0]
                    },
                ),
            )
        }),
{
    let c = ValueView::Closure { tags, captured: Seq::empty() };
    let cont = ValueView::Closure { tags: ctags, captured: cap };
    assert(seq![cont] + Seq::<ValueView>::empty() =~= seq![cont]);
    assert(Seq::<ValueView>::empty() + cap =~= cap);
}

/// Law (copy): the same setup at variant 2 enters the continuation at
/// variant 0 on a context holding two fresh single-variant closures
/// with the same tags and empty captured contexts, followed by what
/// the continuation had captured.
pub proof fn lemma_closure_copy(tags: Seq<CodeRef>, ctags: Seq<CodeRef>, cap: Seq<ValueView>)
    requires
        tags.len() == 1,
    ensures
        ({
            let c = ValueView::Closure { tags, captured: Seq::empty() };
            let cont = ValueView::Closure { tags: ctags, captured: cap };
            let fresh = ValueView::Closure { tags, captured: Seq::empty() };
            let (ctx2, r) = value_step(c, seq![cont], 2);
            &&& ctx2 == seq![fresh, fresh] + cap
            &&& r == Ok::<StepView, EvalError>(
                StepView::Go(
                    if ctags.len() == 0 {
                        CodeRef::Termination
                    } else {
                        ctags[0]
                    },
                ),
            )
        }),
{
    let cont = ValueView::Closure { tags: ctags, captured: cap };
    assert(seq![cont] + Seq::<ValueView>::empty() =~= seq![cont]);
}

/// Law (terminator): a closure without variants, evaluated at any
/// variant, merges its captured values onto the context and ends the
/// run.
pub proof fn lemma_zero_variant_closure_terminates(
    cap: Seq<ValueView>,
    ctx: Seq<ValueView>,
    variant: u8,
)
    ensures
        ({
            let c = ValueView::Closure { tags: Seq::empty(), captured: cap };
            let (ctx2, r) = value_step(c, ctx, variant);
            &&& ctx2 == ctx + cap
            &&& r == Ok::<StepView, EvalError>(StepView::Go(CodeRef::Termination))
        }),
{
}






} // verus!



