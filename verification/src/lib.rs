//! A small runtime for a linear-logic-inspired closure-passing calculus:
//! a compact permutation codec, a low-level bytecode program model, a
//! step-driven evaluator over operand contexts, and a name-based
//! pre-compile representation that resolves references, detects cycles
//! and lowers to bytecode.

pub mod coderef;
pub mod entries;
pub mod error;
pub mod lv1;
pub mod permutation;
pub mod pre_compile;
pub mod program;
pub mod types;
pub mod value;

pub use coderef::CodeRef;
pub use coderef::EntryRef;
pub use coderef::ExternRef;
pub use coderef::GroupRef;
pub use error::BuildError;
pub use error::CodeRefError;
pub use error::EvalError;
pub use error::ValueAccessError;
pub use permutation::Permutation;
pub use entries::Entry;
pub use entries::ExternEntry;
pub use entries::ExportEntry;
pub use value::Value;
pub use value::Context;
pub use value::Step;
pub use value::wrap;
pub use value::unwrap;
pub use value::native_closure;
pub use value::default_context;
pub use value::eval_value;
pub use value::eval_closure;
pub use value::resume_with_value;
pub use program::Program;
pub use pre_compile::PreCompileProgram;
pub use types::LCType;
pub use types::TupleType;
pub use error::CompileError;
pub use error::ParseError;
pub use program::RunOutcome;
pub use error::RunError;
