//! A small tile-based maze library: a randomized perfect-maze generator
//! (recursive backtracking over a two-cells-per-unit grid), a wall-connector
//! classification pass, and a reward placement / discovery subsystem.

pub mod assets;
pub mod classify;
pub mod generate;
pub mod laws;
pub mod maze;
pub mod model;
pub mod player;
pub mod randsrc;
pub mod rewards;
pub mod tile;
