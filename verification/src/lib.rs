//! Blocked matrix multiplication over square tiles: layout, seeded fill,
//! the tile and matrix multiply-accumulate schedules, command-line parsing and timing.
pub mod matrix;
pub mod multiply;
pub mod cli;
pub mod timing;
