//! A rules engine and adversarial search for a trick-style card game played
//! on three ascending "lines" with a 54-card deck, together with a
//! depth-bounded minimax search over the states the engine produces.

pub mod gamestate;
pub mod gen;
pub mod model;
pub mod search;
