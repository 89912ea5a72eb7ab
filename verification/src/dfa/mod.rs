//! Deterministic finite automata.

pub mod machine;
pub mod reader;
