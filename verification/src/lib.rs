pub mod board;
pub mod field;
pub mod probability;
pub mod solver;
