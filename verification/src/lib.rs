//! Simulation core of a falling-block puzzle game: the board of colored
//! cells, the geometric transforms on falling pieces, the placement and
//! line-elimination rules, and the timing-gated game state machine.

pub mod board;
pub mod geom;
pub mod game;
pub mod lines;
