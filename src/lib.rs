//! The engine of a sliding-tile merge puzzle: a grid of tiles, the four
//! moves that slide and merge them, the spawning of new tiles, and the
//! win and loss rules of a session.
pub mod board;
pub mod event;
pub mod game;
pub mod line;
mod random;
