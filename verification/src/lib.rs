//! A falling-block playfield engine: the fixed 10 x 22 grid of settled
//! blocks, the piece geometry tables, and the algorithms that decide
//! collision, resting, merging a piece into the grid, and line clearing.

pub mod tetromino;
pub mod well;
