//! Decision engine for the Game of the Amazons on a 10x10 board.
//!
//! The crate models coordinates and the queen-line geometry of the board,
//! enumerates legal moves lazily, scores positions with territory
//! heuristics and picks moves with a time-boxed alpha-beta search.

pub mod board;
pub mod clock;
pub mod contest;
pub mod convert;
pub mod coord;
pub mod error;
pub mod geometry;
pub mod heuristics;
pub mod laws;
pub mod mirror;
pub mod moves;
pub mod notation;
pub mod random;
pub mod reach;
pub mod render;
pub mod search;
pub mod tally;
pub mod territory;

pub use board::{Board, Move, TileState};
pub use clock::Clock;
pub use contest::reachable_heuristic;
pub use coord::{Coord, Dim};
pub use error::GameError;
pub use geometry::MoveTable;
pub use heuristics::{area_heuristic, better_reachable_heuristic, moves_heuristic};
pub use moves::{MoveBoardIterator, MoveIterator, PieceMoveIterator};
pub use random::{random_black, random_white};
pub use reach::ReachableIterator;
pub use search::{alpha_beta, close_round, deepen, minimax, search_to_depth, Outcome};
pub use territory::{hit_squares, hops_from};
