pub mod board;
pub mod path;
pub mod point;
pub mod utils;

pub use board::{Board, BoardView};
pub use point::{Point, PointWithParent};
