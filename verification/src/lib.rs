//! A compiler from puzzle descriptions (Sudoku and its relatives) to one
//! propositional formula in the syntax of the `limboole` solver, and the
//! reading of the solver's answers back into grids.
//!
//! A description is parsed into a syntax tree elsewhere; this library
//! flattens the tree, evaluates each statement into truth tables over the
//! atoms `<row><column>_<value>`, joins them into one formula together with
//! the base rules of the puzzle's order, and, for each answer of the
//! solver, shows the grid it found and the clause that rules it out.
pub mod text;
pub mod helpers;
pub mod comparators;
pub mod operators;
pub mod prefixes;
pub mod base_rules;
pub mod compiler;
pub mod interpreter;
pub mod placeholder;
pub mod semantics;
pub mod laws;
