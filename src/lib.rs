//! An interpreter for a small indentation-sensitive language that describes
//! build targets: named units of work, each with the targets it requires and
//! a body of statements.
//!
//! - `ast`: the syntax tree and its mathematical model.
//! - `parse`: the grammar, as spec functions over the input's characters,
//!   and a parser proved to compute exactly them.
//! - `unparse`: a fully parenthesising printer, and the proof that what the
//!   expression parser gives reads back unchanged.
//! - `value`: the dynamic values, with arithmetic, equality, truthiness and
//!   text.
//! - `rt`: the run-space and the evaluator, proved against `rt::eval` and
//!   `rt::run_target`.
//! - `host`: what the evaluator asks of its surroundings.
//!
//! Floating-point arithmetic, writing lines and spawning processes are done
//! by a `host::Host` that the caller supplies; floats travel as IEEE-754 bit
//! patterns. Every answer the host gives is logged, and each contract holds
//! for every `host::Oracle` that agrees with that log: the result is then
//! determined by the program, the state, and the host's answers.
pub mod ast;
pub mod host;
pub mod text;
pub mod value;
pub mod rt;
pub mod parse;
pub mod unparse;
