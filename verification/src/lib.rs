//! Finite-state automata over single-character alphabets.
//!
//! Three variants are provided, each with a validating builder and a
//! membership test: deterministic automata ([`dfa`]), nondeterministic
//! automata without epsilon moves ([`nfa`]), and nondeterministic automata
//! with epsilon moves ([`e_nfa`]). A line-oriented text format for each
//! variant is read by the `reader` submodules.

pub mod dfa;
pub mod e_nfa;
pub mod nfa;
pub mod states;
pub mod text;
