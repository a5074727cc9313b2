//! References into the tables of a compiled program.
//!
//! A `CodeRef` designates one executable step: an instruction slot, an
//! external entry, or the end of execution.  A `GroupRef` designates a
//! group of `CodeRef`s that backs a multi-variant continuation.

use vstd::prelude::*;

use crate::error::CodeRefError;

verus! {

/// Refers to one instruction slot of a program.
#[derive(Copy, Clone, Debug, PartialEq, Eq, Structural, Hash, PartialOrd, Ord)]
pub struct EntryRef(pub usize);

impl EntryRef {
    /// The error reported when this reference does not name an
    /// instruction of the program at hand.
    pub fn not_found(&self) -> (r: CodeRefError)
        ensures
            r == (CodeRefError::EntryNotFound { index: *self }),
    {
        CodeRefError::EntryNotFound { index: *self }
    }

    /// Wraps an index as an instruction code reference.
    pub fn new_coderef(index: usize) -> (r: CodeRef)
        ensures
            r == CodeRef::Entry(EntryRef(index)),
    {
        CodeRef::Entry(EntryRef(index))
    }
}

/// Refers to one external entry of a program.
#[derive(Copy, Clone, Debug, PartialEq, Eq, Structural, Hash)]
pub struct ExternRef(pub usize);

impl ExternRef {
    /// The error reported when this reference does not name an external
    /// entry of the program at hand.
    pub fn not_found(&self) -> (r: CodeRefError)
        ensures
            r == (CodeRefError::ExternNotFound { index: *self }),
    {
        CodeRefError::ExternNotFound { index: *self }
    }

    /// Wraps an index as an external code reference.
    pub fn new_coderef(index: usize) -> (r: CodeRef)
        ensures
            r == CodeRef::Extern(ExternRef(index)),
    {
        CodeRef::Extern(ExternRef(index))
    }
}

/// Refers to a single executable entry: an instruction of a program, an
/// external entry defined outside the program, or the end of execution.
#[derive(Copy, Clone, Debug, PartialEq, Eq, Structural, Hash)]
pub enum CodeRef {
    /// An entry point within the program.
    Entry(EntryRef),
    /// An external function or value attached to the program.
    Extern(ExternRef),
    /// The end of execution.
    Termination,
}

impl CodeRef {
    /// Builds a reference to the instruction at `index`.
    pub fn entry(index: usize) -> (r: Self)
        ensures
            r == CodeRef::Entry(EntryRef(index)),
    {
        CodeRef::Entry(EntryRef(index))
    }

    /// Builds a reference to the external entry at `index`.
    pub fn ext(index: usize) -> (r: Self)
        ensures
            r == CodeRef::Extern(ExternRef(index)),
    {
        CodeRef::Extern(ExternRef(index))
    }

    /// The index stored in the reference, if any.
    pub fn get_index(&self) -> (r: Option<usize>)
        ensures
            r == (match *self {
                CodeRef::Entry(EntryRef(i)) => Some(i),
                CodeRef::Extern(ExternRef(i)) => Some(i),
                CodeRef::Termination => None::<usize>,
            }),
    {
        match self {
            CodeRef::Entry(EntryRef(i)) => Some(*i),
            CodeRef::Extern(ExternRef(i)) => Some(*i),
            CodeRef::Termination => None,
        }
    }
}

/// Refers to a group of `CodeRef`s, used by call instructions to
/// implement conditional control flow.
#[derive(Copy, Clone, Debug, PartialEq, Eq, Structural, Hash)]
pub struct GroupRef(pub usize);

impl GroupRef {
    /// Wraps an index as a group reference.
    pub fn new(i: usize) -> (r: GroupRef)
        ensures
            r == GroupRef(i),
    {
        GroupRef(i)
    }

    /// The index stored in the reference.
    pub fn get_index(&self) -> (r: usize)
        ensures
            r == self.0,
    {
        self.0
    }
}

} // verus!
