//! Bombs on a board.
//!
//! A board is a grid of cells: enemies, bombs, rocks, walls, tiles that turn
//! fire, and empty cells. Setting off a bomb sends fire in the four
//! directions; the fire hurts enemies, is stopped or turned by what it
//! meets, and sets off the bombs that it reaches.
//!
//! * [`maze_types`] holds the board and the functions that work on it.
//! * [`board_text`] reads a board from its text.
//! * [`grid`], [`fire`] and [`detonation`] say what those functions compute:
//!   the board as a mathematical value, the way of one burst of fire, and
//!   the chain of bombs that go off. Their proof functions state what holds
//!   of every board.
//! * [`errors`] holds the error type.

pub mod board_text;
pub mod detonation;
pub mod errors;
pub mod fire;
pub mod grid;
pub mod maze_types;
