//! Conway's Game of Life on a bounded or toroidal rectangular grid.
//!
//! [`grid`] holds the mathematical model of a grid and of one generation
//! step; [`field`] and [`game`] hold the executable engine, whose contracts
//! are stated over that model.

pub mod cell;
pub mod neighbours;
pub mod grid;
pub mod field;
pub mod game;
pub mod layout;

pub use cell::{CellPosition, CellState};
pub use field::Field;
pub use game::Game;
