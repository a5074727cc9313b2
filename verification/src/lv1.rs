//! Building blocks for a level-1 surface form: named blocks of
//! assignments ending in a call.

use vstd::prelude::*;

verus! {

/// A named variant of a compound body.
#[derive(Debug)]
pub struct Entry {
    pub name: String,
    pub block: Block,
}

/// What a variable is bound to: one block, or a choice of named
/// variants.
#[derive(Debug)]
pub enum Body {
    Simple { block: Block },
    Compond { variants: Vec<Entry> },
}

/// A variable bound to a body.
#[derive(Debug)]
pub struct Assignment {
    pub var: String,
    pub body: Body,
}

/// A call of a callee, at an optional variant, on arguments.
#[derive(Debug)]
pub struct Call {
    pub callee: String,
    pub variant: Option<String>,
    pub args: Vec<String>,
}

/// A block: arguments, assignments, and the call the block ends in.
#[derive(Debug)]
pub struct Block {
    pub args: Vec<String>,
    pub assignments: Vec<Assignment>,
    pub call: Call,
}

impl Call {
    /// A call of `callee` at `variant` on `args`.
    pub fn new(callee: &str, variant: Option<&str>, args: &[&str]) -> (r: Self)
        ensures
            r.callee@ == callee@,
            (match (r.variant, variant) {
                (Some(a), Some(b)) => a@ == b@,
                (None, None) => true,
                _ => false,
            }),
            r.args@.len() == args@.len(),
            forall|k: int| 0 <= k < args@.len() ==> (#[trigger] r.args@[k])@ == args@[k]@,
    {
        let v = match variant {
            Some(s) => Some(s.to_owned()),
            None => None,
        };
        Call { callee: callee.to_owned(), variant: v, args: strings_of(args) }
    }
}

impl Block {
    /// A block over `args` ending in `call`, with no assignments yet.
    pub fn new(args: &[&str], call: Call) -> (r: Self)
        ensures
            r.args@.len() == args@.len(),
            forall|k: int| 0 <= k < args@.len() ==> (#[trigger] r.args@[k])@ == args@[k]@,
            r.assignments@.len() == 0,
            r.call == call,
    {
        Block { args: strings_of(args), assignments: Vec::new(), call }
    }

    /// Appends an assignment.
    pub fn add_assignment(&mut self, assignment: Assignment)
        ensures
            final(self).assignments@ == old(self).assignments@.push(assignment),
            final(self).args == old(self).args,
            final(self).call == old(self).call,
    {
        self.assignments.push(assignment);
    }
}

impl Assignment {
    /// Binds a variable to one block.
    pub fn simple(var: &str, block: Block) -> (r: Self)
        ensures
            r.var@ == var@,
            r.body == (Body::Simple { block }),
    {
        Assignment { var: var.to_owned(), body: Body::Simple { block } }
    }

    /// Binds a variable to an empty choice of variants.
    pub fn compond(var: &str) -> (r: Self)
        ensures
            r.var@ == var@,
            (r.body matches Body::Compond { variants } && variants@.len() == 0),
    {
        Assignment { var: var.to_owned(), body: Body::Compond { variants: Vec::new() } }
    }

    /// Adds a variant: a simple body becomes a choice between the
    /// block so far, named as the default, and the new entry.
    pub fn add_entry(&mut self, entry: Entry)
        ensures
            final(self).var == old(self).var,
            (match old(self).body {
                Body::Simple { block } => (final(self).body matches Body::Compond { variants }
                    && variants@.len() == 2 && variants@[0].name@ == "default"@
                    && variants@[0].block == block && variants@[1] == entry),
                Body::Compond { variants: old_vs } => (final(self).body matches Body::Compond {
                    variants,
                } && variants@ == old_vs@.push(entry)),
            }),
    {
        let is_simple = match &self.body {
            Body::Simple { .. } => true,
            Body::Compond { .. } => false,
        };
        if is_simple {
            let mut prev = Body::Compond { variants: Vec::new() };
            core::mem::swap(&mut prev, &mut self.body);
            let block = match prev {
                Body::Simple { block } => block,
                Body::Compond { .. } => vstd::pervasive::unreached(),
            };
            let mut variants: Vec<Entry> = Vec::new();
            variants.push(Entry { name: String::from_str("default"), block });
            variants.push(entry);
            self.body = Body::Compond { variants };
        } else {
            match &mut self.body {
                Body::Compond { variants } => {
                    variants.push(entry);
                },
                Body::Simple { .. } => {},
            }
        }
    }
}

/// A call built from a row of names: the first is the callee, the
/// rest are the arguments.
pub fn get_call(names: &[&str], variant: Option<&str>) -> (r: Call)
    requires
        names@.len() >= 1,
    ensures
        r.callee@ == names@[0]@,
        (match (r.variant, variant) {
            (Some(a), Some(b)) => a@ == b@,
            (None, None) => true,
            _ => false,
        }),
        r.args@.len() == names@.len() - 1,
        forall|k: int| 0 <= k < r.args@.len() ==> (#[trigger] r.args@[k])@ == names@[k + 1]@,
{
    let callee = names[0];
    let v = match variant {
        Some(s) => Some(s),
        None => None,
    };
    let mut args: Vec<String> = Vec::new();
    let n = names.len();
    let mut i: usize = 1;
    while i < n
        invariant
            1 <= i <= n,
            n == names@.len(),
            args@.len() == i - 1,
            forall|k: int| 0 <= k < args@.len() ==> (#[trigger] args@[k])@ == names@[k + 1]@,
        decreases n - i,
    {
        args.push(names[i].to_owned());
        i = i + 1;
    }
    let vv = match v {
        Some(s) => Some(s.to_owned()),
        None => None,
    };
    Call { callee: callee.to_owned(), variant: vv, args }
}

/// A block built from argument names and a call.
pub fn get_block(args: &[&str], call: Call) -> (r: Block)
    ensures
        r.args@.len() == args@.len(),
        forall|k: int| 0 <= k < args@.len() ==> (#[trigger] r.args@[k])@ == args@[k]@,
        r.assignments@.len() == 0,
        r.call == call,
{
    Block::new(args, call)
}

/// Owned copies of a row of borrowed names.
fn strings_of(names: &[&str]) -> (r: Vec<String>)
    ensures
        r@.len() == names@.len(),
        forall|k: int| 0 <= k < names@.len() ==> (#[trigger] r@[k])@ == names@[k]@,
{
    let mut out: Vec<String> = Vec::new();
    let n = names.len();
    let mut i: usize = 0;
    while i < n
        invariant
            i <= n,
            n == names@.len(),
            out@.len() == i,
            forall|k: int| 0 <= k < i ==> (#[trigger] out@[k])@ == names@[k]@,
        decreases n - i,
    {
        out.push(names[i].to_owned());
        i = i + 1;
    }
    out
}

} // verus!
