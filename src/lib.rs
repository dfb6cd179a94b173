//! An n-in-a-row game engine on a square grid: board state, terminal
//! detection, and move selection (random or exhaustive negamax).

pub mod tile;
pub mod board;
pub mod moves;
pub mod player;

pub use tile::{Tile, BoardStatus, SetError};
pub use board::Board;
pub use player::Player;
