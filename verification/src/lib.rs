//! The incremental front end of a statically typed, embeddable language.
//!
//! Two parts work together. The compilation database (`query`) memoizes the
//! steps from the text of a module to its global, invalidates what depends on
//! a changed module, and finds cyclic imports. The macro expander (`macros`)
//! finds the macro invocations of a syntax tree, starts their expansions, and
//! puts each result in the place of its invocation, in source order.
//!
//! Everything is specified over mathematical views: `expansion` says what
//! expansion means, `resolve` what a dotted name is bound to, `cache` when a
//! memoized result is valid.
pub mod ast;
pub mod cache;
pub mod cow;
pub mod error;
pub mod expansion;
pub mod macros;
pub mod names;
pub mod pending;
pub mod query;
pub mod resolve;
pub mod state;
pub mod table;
pub mod types;
