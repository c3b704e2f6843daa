//! An exact-cover solver on dancing links, and the Sudoku puzzles it makes.

pub mod arrange;
pub mod board;
pub mod consumer;
pub mod cover;
pub mod dancing_links;
pub mod exact_cover;
pub mod generator;
pub mod layout;
pub mod sudoku;
