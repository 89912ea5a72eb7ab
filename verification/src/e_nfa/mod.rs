//! Nondeterministic finite automata with epsilon moves.

pub mod machine;
pub mod reader;
