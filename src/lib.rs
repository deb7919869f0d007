//! An autonomous Minesweeper player: a board model, deterministic deduction
//! strategies, and a combinatorial probability engine for guesses.

pub mod combination;
pub mod game;
pub mod grouping;
pub mod placement;
pub mod probability;
pub mod render;
pub mod session;
pub mod solver;

pub use combination::CombinationIterator;
pub use render::rgb_to_u32;
