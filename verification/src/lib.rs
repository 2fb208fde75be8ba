//! Tic-tac-toe: a 3x3 board model and an exhaustive-search engine, with
//! machine-checked contracts.

pub mod ai;
pub mod board;
pub mod game;
pub mod input;
pub mod unbeatable;

pub use ai::AiAgent;
pub use board::{Board, Cell};
pub use game::{Game, GameError, GameResult, Player};
