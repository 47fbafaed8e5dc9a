//! A minesweeper board engine: a grid of cells with randomized mine
//! placement, per-cell adjacent-mine counts, flood-fill reveal and flag
//! toggling. Rendering and input handling are left to callers; the engine
//! is purely reactive data and verbs.

pub mod board;
pub mod cell;
pub mod counting;
pub mod grid;
pub mod laws;

pub use board::Board;
pub use board::BoardError;
pub use board::Direction;
pub use board::RevealOutcome;
pub use cell::Cell;
pub use cell::Interaction;
