//! Rules engine and adversarial search for the Game of the Amazons.

pub mod text;
pub mod bits;
pub mod board;
pub mod compact_board;
pub mod evaluate;
pub mod moves;
pub mod ranking;
pub mod algo;
pub mod pieces;
pub mod game;
pub mod selection;
