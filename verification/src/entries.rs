//! The rows of a compiled program's tables: instructions, external
//! entries and exports.

use vstd::prelude::*;

use crate::coderef::CodeRef;
use crate::coderef::GroupRef;
use crate::permutation::Permutation;

verus! {

/// One bytecode instruction.
#[derive(Copy, Clone, Debug, PartialEq, Eq, Structural)]
pub enum Entry {
    /// Reorder the context by `per`, then transfer to `cont`.
    Jump { cont: CodeRef, per: Permutation },
    /// Split off all but the first `num_args` values of the context,
    /// wrap them as a closure over the group `cont`, push the closure,
    /// then transfer to `call`.
    Call { call: CodeRef, cont: GroupRef, num_args: u8 },
    /// Pop the top value, interpret it as a closure and re-enter it at
    /// `variant`.
    Return { variant: u8 },
}

/// An entry the host attaches to a program: either a function that is
/// handed the context and names the next code reference, or a nullary
/// producer of one value.  The host keeps the functions themselves;
/// the program records which kind each entry is, under which name.
#[derive(Debug)]
pub enum ExternEntry {
    /// A host function evaluated on the context.
    Eval { name: String },
    /// A host thunk producing one value.
    Value { name: String },
}

impl ExternEntry {
    /// The name under which the entry is addressed.
    pub open spec fn spec_name(&self) -> Seq<char> {
        match self {
            ExternEntry::Eval { name } => name@,
            ExternEntry::Value { name } => name@,
        }
    }

    /// The name under which the entry is addressed.
    pub fn name(&self) -> (r: &str)
        ensures
            r@ == self.spec_name(),
    {
        match self {
            ExternEntry::Eval { name } => name.as_str(),
            ExternEntry::Value { name } => name.as_str(),
        }
    }

    /// Whether the entry is a value producer.
    pub fn is_value_kind(&self) -> (r: bool)
        ensures
            r == (self is Value),
    {
        match self {
            ExternEntry::Eval { .. } => false,
            ExternEntry::Value { .. } => true,
        }
    }
}

/// A named entry point of a program: the name and the group of code
/// references exported under it.
#[derive(Debug)]
pub struct ExportEntry {
    pub name: String,
    pub g: GroupRef,
}

} // verus!
