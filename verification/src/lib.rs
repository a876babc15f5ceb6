//! Nondeterministic finite automata read from a small line-oriented text
//! format, simulated against a sequence of input symbols, together with the
//! line editor and the per-key decisions of the interactive session that
//! drives the simulation.

pub mod dfa;
pub mod grammar;
pub mod model;
pub mod nfa;
pub mod text;
pub mod trusted;
pub mod tui;
