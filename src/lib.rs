pub mod board;
pub mod laws;
pub mod layout;
pub mod model;
pub mod random;

pub use board::Minesweeper;
pub use model::{BoardView, OpenResult, Position};
pub use random::{random_range, range_of_word};
