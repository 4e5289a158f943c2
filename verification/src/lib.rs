//! A verified Minesweeper board engine: board construction with random mine
//! placement, adjacency numbering, flood-fill reveal with a first-click
//! safety guarantee, chording, flagging, and a game session layer with win
//! and loss detection.

pub mod engine;
pub mod grid;
pub mod laws;
pub mod session;
pub mod tile;

pub use engine::MinesweeperBoard;
pub use tile::Tile;
