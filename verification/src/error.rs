//! The error taxonomy of the runtime.
//!
//! Errors surface synchronously from the operation that detected them;
//! nothing inside the core attempts recovery.

use vstd::prelude::*;

use crate::coderef::EntryRef;
use crate::coderef::ExternRef;
use crate::coderef::GroupRef;

verus! {

/// Errors that may occur while a program is being built or while an
/// export is consulted.
#[derive(Debug, Clone, PartialEq, Eq)]
pub enum BuildError {
    /// The group reference does not name a group of the program.
    GroupNotFound(GroupRef),
    /// The requested variant lies outside the group.
    VariantOutOfRange { given: u8, max: u8 },
    /// No export carries the requested name.
    ExportNotFound,
}

/// Errors that may occur when a code reference is resolved.
#[derive(Debug, Clone, PartialEq, Eq)]
pub enum CodeRefError {
    /// The group reference does not name a group of the program.
    InvalidGroupIndex { index: GroupRef },
    /// The entry reference does not name an instruction of the program.
    EntryNotFound { index: EntryRef },
    /// The external reference does not name an external entry.
    ExternNotFound { index: ExternRef },
    /// Only external code references may stand in an auto-wrapping
    /// closure.
    CodeRefNotExtern,
}

/// Errors that may occur when values of a context are accessed.
#[derive(Debug, Clone, PartialEq, Eq)]
pub enum ValueAccessError {
    /// A context was split beyond its length.
    SplitOutOfRange { at: u8, total: u8 },
    /// A value was requested from an empty context.
    PopFromEmpty,
    /// The value is not a wrapped host datum.
    UnwrapNotWrapped(String),
    /// A closure with captured values cannot be unwrapped.
    UnwrappingNonEmptyClosure,
    /// A closure with several variants cannot be unwrapped.
    UnwrappingMultivariantClosure,
    /// Only value externals can stand in an auto-wrapping closure.
    ExternNotValue,
    /// The value cannot be turned into a wrapped one.
    CannotTurnIntoWrapped,
    /// The wrapped value holds nothing.
    UnwrapEmptyValue,
    /// The context holds a different number of values than expected.
    UnexpectedArgs { expect: u8, actual: u8 },
}

/// Errors that may occur when a permutation is read from text.
#[derive(Debug, Clone, PartialEq, Eq)]
pub enum ParseError {
    /// The text names more than 20 positions.
    TooLong,
    /// A letter that the text should hold is missing, so the text is
    /// not a permutation of an alphabet prefix.
    CharNotFound { letter: char },
}

/// Errors that may occur during evaluation.
#[derive(Debug, Clone, PartialEq, Eq)]
pub enum EvalError {
    /// Evaluation was attempted on the termination marker.
    EvalOnTermination,
    /// A return instruction reached an external value.
    ReturnToExtern,
    /// The requested variant lies outside the closure's tag list.
    VariantOutOfBound { given: u8, max: u8 },
    /// A wrapped host datum was invoked as a closure.
    CallingWrapped,
    /// A code reference could not be resolved.
    CodeRef(CodeRefError),
    /// A value access failed.
    ValueAccess(ValueAccessError),
    /// An external function reported a failure of its own.
    External(String),
}

/// Errors that may occur when a pre-compile program is worked on or
/// lowered to bytecode.
#[derive(Debug, Clone, PartialEq, Eq)]
pub enum CompileError {
    /// Entries that refer to each other in a cycle that no group
    /// breaks cannot be ordered; the names of the entries left over
    /// are listed.
    CircularReference(Vec<String>),
    /// A placeholder names an external function the host did not
    /// provide.
    ExternNotFound(String),
    /// The name is not defined.
    NameNotFound(String),
}

/// Errors that may stop a host-driven run: the export lookup failed,
/// or an evaluation step did.
#[derive(Debug, Clone, PartialEq, Eq)]
pub enum RunError {
    Build(BuildError),
    Eval(EvalError),
}

impl EvalError {
    /// Wraps a code reference error.
    pub fn from_coderef(e: CodeRefError) -> (r: EvalError)
        ensures
            r == EvalError::CodeRef(e),
    {
        EvalError::CodeRef(e)
    }

    /// Wraps a value access error.
    pub fn from_value_access(e: ValueAccessError) -> (r: EvalError)
        ensures
            r == EvalError::ValueAccess(e),
    {
        EvalError::ValueAccess(e)
    }
}

} // verus!
