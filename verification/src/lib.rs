//! A verified parser for a small logic-programming language: facts and
//! rules over predicates, variables, and nested compound terms, together
//! with a lowering step that records each clause's head predicate.

pub mod ast;
pub mod grammar;
pub mod lower;
pub mod parser;
pub mod render;
pub mod roundtrip;

pub use ast::{Instruction, ParseError, PrologAtom, PrologClause, PrologTerm, Step};
pub use lower::compile_clause;
pub use parser::parse_program;
