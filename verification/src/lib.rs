//! Byte-level deterministic automata for driving a character-level
//! (typically Levenshtein) automaton one UTF-8 byte at a time.
//!
//! A caller registers its coarse states (`DFABuilder::add_state`), optionally
//! adds explicit per-character edges (`DFAStateBuilder::add_transition`), and
//! freezes the result (`DFABuilder::build`) into an immutable [`DFA`] whose
//! transition table is total over all 256 byte values.

pub mod distance;
pub mod utf8;
pub mod dfa;

pub use crate::distance::Distance;
pub use crate::dfa::DFA;
pub use crate::dfa::DFABuilder;
pub use crate::dfa::DFAStateBuilder;
