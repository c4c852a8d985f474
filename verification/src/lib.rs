pub mod grid;
pub mod order;
pub mod shapes;
pub mod board;
pub mod solver;
