//! Conway's Game of Life on a grid of fixed size. Nothing wraps round the
//! edges: a cell on the rim has fewer neighbours than a cell inside.
//!
//! - [`grid`] is the model that every contract speaks of: the cells as a
//!   sequence of flags, row by row.
//! - [`board`] holds the [`Board`] itself: how it is made, read and written.
//! - [`rules`] counts neighbours and steps a board to its next generation.
//! - [`pattern`] lays drawings on a board, among them the glider and the
//!   glider gun.
//! - [`glider`] follows the glider on its way across the grid.
//! - [`raster`] paints straight lines.
//! - [`chance`] fills a board by the flip of a coin.

pub mod board;
pub mod chance;
pub mod glider;
pub mod grid;
pub mod pattern;
pub mod raster;
pub mod rules;

pub use board::Board;
