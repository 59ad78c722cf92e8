//! Rule engine for the board game Othello/Reversi: an 8x8 grid of cells,
//! legal-move computation, piece placement with capture flips, turn
//! alternation, and winner counting.

pub mod board;
pub mod game;
