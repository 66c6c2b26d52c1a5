//! A small expression language: a grammar front end produces syntax trees,
//! and an evaluator resolves a tree to a scalar or matrix value against a
//! mutable table of named bindings, memoizing what bound identifiers resolve
//! to.  A small capability framework over finite and infinite numeric
//! domains rounds the core out.
//!
//! Scalars are IEEE 754 binary64 numbers, carried as their bit patterns so
//! that every operation on them can be given an exact specification.  The
//! textual front end itself lives outside this crate; it hands the evaluator
//! trees of [`syntax::Tree`] nodes.

pub mod scalar;
pub mod sets;
pub mod state;
pub mod syntax;
pub mod types;

pub use state::State;
pub use syntax::{Rule, ToTree, Tree};
pub use types::{Error, Value};
