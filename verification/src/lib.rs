//! Core of a Life-like cellular automaton: the board and its update
//! rule, rule-string parsing, rectangular selections with geometric
//! transforms, and a run-length-encoded savestate codec.

pub mod board;
pub mod codec;
pub mod rule;
pub mod selection;
pub mod subgrid;
pub mod util;
