//! A single-table Texas Hold'em engine: deck construction, the
//! round/stage state machine, the betting protocol with its legality
//! rules, pot accounting, and showdown pay-out.
//!
//! Interactive prompting and the network call to the hand-ranking
//! service live outside this crate; the engine works on plain values.

pub mod cards;
pub mod logic;
pub mod text;
