//! An interpreter core for a small, statically and structurally typed,
//! non-recursive functional expression language.
//!
//! A script declares named functions whose argument types, return type and
//! body may mention earlier arguments.  The crate reads scripts
//! ([`parse::parse`]), merges a builtin prelude with one user script
//! ([`combine::combine`]), checks the result statically
//! ([`typecheck::type_check`]) and evaluates the entry declaration
//! ([`combine::Program::eval_main`]).
//!
//! Every function is verified against a contract over mathematical models
//! of its data: expressions are seen as [`ast::Term`]s, programs as
//! [`combine::ProgramView`]s, values as [`eval::Value`]s.  What holds of
//! the combiner for all scripts is proved in [`laws`].

pub mod ast;
pub mod combine;
pub mod eval;
pub mod integer;
pub mod laws;
pub mod namemap;
pub mod ordering;
pub mod parse;
pub mod typecheck;
