//! A verified solving core for classic 9x9 sudoku.
//!
//! The engine works by iterative constraint elimination: a narrow phase
//! removes, from every open cell, the candidates some peer has committed, and
//! a collapse phase commits every cell left with exactly one candidate. The
//! grid itself is an `array2d::Array2D<Field>`; a textual puzzle loader and
//! read accessors complete the core, and every operation carries a contract
//! over the ghost grid model of `model`.

pub mod cell;
pub mod grid;
pub mod laws;
pub mod loader;
pub mod model;
pub mod parse;
pub mod seq_facts;
pub mod solver;

pub use cell::Field;
pub use grid::{has_contradiction, is_clue_at, value_at};
pub use loader::{read_puzzle, PuzzleError};
pub use model::CellView;
pub use solver::update;
