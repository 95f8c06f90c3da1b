//! A minimal command-log interpreter: a verified parser for a small textual
//! command grammar, and a verified in-memory key-value store that applies the
//! parsed commands one by one, producing one textual reply per command.
//!
//! Errors are explicit values, never panics: a line that matches no grammar
//! rule yields a [`grammar::ParseError`], and an `INCR` of a value that does
//! not read as an `i64` yields a [`store::IncrTypeError`], with the store
//! left untouched. The bundled [`runner`] halts a run at the first such
//! failure; callers that prefer to skip bad lines can drive
//! [`runner::run_line`] themselves and carry on.

pub mod command;
pub mod grammar;
pub mod ints;
pub mod runner;
pub mod store;
