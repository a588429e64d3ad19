//! Compiler from a regular expression's high-level intermediate
//! representation to code for a Pike-style virtual machine.
//!
//! Two instruction streams are produced, one that matches left-to-right and
//! one that matches right-to-left, together with a set of short literals
//! ("atoms") that a multi-pattern search can use to find candidate positions.
//!
//! `compiler` holds the compiler itself. What it emits is stated in `code`
//! as bytes and in `program` as instructions; which atoms it keeps is stated
//! in `walk`; `laws` holds what follows for every expression.

pub mod instr;
pub mod hir;
pub mod atoms;
pub mod location;
pub mod literal_seq;
pub mod regexp_atoms;
pub mod code;
pub mod state;
pub mod compiler;
pub mod walk;
pub mod program;
pub mod laws;
