//! Deterministic finite automata over ranges of symbols, with the regular
//! operations (union, intersection, complement, concatenation, Kleene star),
//! minimization, and the conversion of a `char` automaton to one over UTF-8 bytes.

pub mod state;
pub mod state_id_set;
pub mod symbol;
pub mod char_table;
pub mod byte_table;
pub mod char_set;
mod key_index;
pub mod dfa;
pub mod display;
pub mod dot_listing;
pub mod numerals;
pub mod escapes;
pub mod dot_laws;
pub mod laws;
