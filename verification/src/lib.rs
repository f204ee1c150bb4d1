pub mod cell;
pub mod grid;
pub mod maze;
mod rng;
