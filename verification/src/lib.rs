//! The front-end analysis core of a small educational compiler.
//!
//! A boolean-matrix algebra represents relations over grammar symbols;
//! from FIRST/LAST-style matrices the precedence relations YIELDS,
//! TAKES and EQUAL are derived and compressed into two integer arrays
//! whose comparison reproduces them; a precedence shift/reduce parse
//! then linearizes a token stream into Polish order, and a single pass
//! over that order produces the quad instruction list.

pub mod fsa;
pub mod lexical;
pub mod loader;
pub mod matrix;
pub mod precedence;
pub mod syntax;
