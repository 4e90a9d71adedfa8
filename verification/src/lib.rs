//! Parsing and schema unification for POSIX-style locale source files.
//!
//! The crate has two halves, consumed in sequence:
//!
//! * [`parser`] turns the raw text of one locale source file into an ordered
//!   list of categories, each an ordered list of keyed value runs, honouring
//!   the file's own comment and escape characters ([`grammar`] states the
//!   grammar as spec functions, and the parser is proved to return exactly
//!   what it says).
//! * [`generator`] folds the parsed categories of every locale into one
//!   canonical field table per category name — scalar type, arity class,
//!   optionality — and fills every locale's table to that shape
//!   ([`schema`] states the fold; [`laws`] proves it deterministic, that
//!   arity and type only ever widen, and that the filled field-key sets are
//!   identical across locales).
//!
//! [`fixes`] repairs a few known gaps in `LC_TIME` categories before
//! unification, and [`render`] gives every value a canonical textual form
//! that is proved to parse back to an equal value.

pub mod alist;
pub mod chars;
pub mod fixes;
pub mod generator;
pub mod grammar;
pub mod laws;
pub mod order;
pub mod parser;
pub mod render;
pub mod schema;
