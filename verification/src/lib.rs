//! A line-propagation solver for nonogram puzzles.

pub mod cell;
pub mod config;
pub mod error;
pub mod generator;
pub mod grid;
pub mod line;
pub mod loader;
pub mod possibility;
pub mod process;
pub mod progress;
pub mod propagation;
pub mod puzzle_info;
pub mod shape;
