//! A population of energy-bearing specimens on a bounded two-dimensional
//! lattice, advanced generation by generation, together with the grid and
//! neighbourhood machinery it is built on and Conway's Game of Life for
//! contrast.

pub mod board;
pub mod field;
pub mod good_evil;
pub mod life;
pub mod options;
pub mod random;
pub mod simulation;
pub mod split;
pub mod torus;
