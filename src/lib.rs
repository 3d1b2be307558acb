//! Rule engine of a sliding-tile merge puzzle played on a square grid.
pub mod board;
pub mod cell;
mod chance;
pub mod codec;
pub mod game_state;
