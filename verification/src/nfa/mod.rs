//! Nondeterministic finite automata without epsilon moves.

pub mod machine;
pub mod reader;
