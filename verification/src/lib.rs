//! Conway's Game of Life on a grid of fixed size with hard edges.
//!
//! - [`field`] states the game as mathematics: a field, its live cells,
//!   the neighbour count and the rule for the next generation.
//! - [`order`] fixes the order in which cells are visited and listed, and
//!   shows that the lists hold the cells that the rule names.
//! - [`cell`] ties the stored cells to positions of the field.
//! - [`game`] is the engine: grid and list of live cells, one generation
//!   at a time.
//! - [`frame`] is the text that shows a grid.
//! - [`laws`] proves what holds of every field: bounds at the edges, the
//!   rule for birth, still lifes and oscillators.

pub mod cell;
pub mod field;
pub mod frame;
pub mod game;
pub mod laws;
pub mod order;
