//! An interpreter for a small single-assignment language whose variables hold
//! sets of possible values and whose external calls resolve later.
//!
//! - `value`: concrete values and abstract values (non-empty possibility sets).
//! - `ast`: programs, statements, expressions and blocks, with their
//!   mathematical forms.
//! - `state`: the program being rewritten, the scope and the calls in flight.
//! - `rewriter`: the rewrite rules, one pass at a time, and the fixpoint.
//! - `dispatcher`: finding, dispatching and completing external calls.
//! - `external`: the registry of external functions.
//! - `laws`: properties that hold across the functions above.
pub mod error;
pub mod value;
pub mod ast;
pub mod state;
pub mod rewriter;
pub mod dispatcher;
pub mod external;
pub mod laws;
