pub mod board;
pub mod lemmas;
pub mod solver;
