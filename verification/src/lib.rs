//! Connect four on a fixed-size board, with a depth-bounded minimax player.
//!
//! The board keeps chips stacked bottom-up in columns. Win detection scans
//! rows, columns and both diagonal directions for four chips of one player
//! in a line. The search explores every legal reply down to a fixed depth
//! and scores positions only by wins, losses and draws.

pub mod ai_player;
pub mod board;
pub mod game;
pub mod grid;
pub mod minmax;
pub mod player;
pub mod winner;

pub use ai_player::search_best_move;
pub use board::{Gameboard, GameboardError};
pub use game::Game;
pub use minmax::minmax_search;
pub use player::Player;
