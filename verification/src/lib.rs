//! Rules engine for the board game Go: board state, move legality,
//! chain formation, liberties and captures.

pub mod chain;
pub mod connectivity;
pub mod game;
pub mod laws;
pub mod legality;
pub mod preservation;
pub mod mov;
pub mod rules;
pub mod sequences;
pub mod states;
pub mod utils;
