//! A Minesweeper engine and the mine-probability estimators that go with it.

pub mod autoplay;
pub mod big_nat;
pub mod board;
pub mod capped;
pub mod chance;
pub mod combos;
pub mod console;
pub mod counting;
pub mod layouts;
pub mod moves;
pub mod page;
pub mod probability;
pub mod readout;
pub mod samples;
pub mod session;
pub mod settings;
pub mod status;
pub mod text;
pub mod window;

pub use board::{Cell, CellContent, CellState, GameState, Minesweeper};
