pub mod board;
pub mod grid;
pub mod gui;
pub mod mino;
pub mod parse;
pub mod reorder;
pub mod shape;

pub use board::{check_wall_count, Board, SolveError, TransForm};
pub use grid::Rotation;
pub use gui::Scale;
pub use mino::{sort_by_wall_count, Mino};
pub use shape::Shape;
