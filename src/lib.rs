//! Puzzle solvers over small text inputs, each with its logic verified.
//!
//! The central one is `pipes`: it traces the closed loop of pipes through the
//! start tile of a grid, measures the distance of each loop tile from the
//! start, and finds the tiles the loop encloses.

pub mod text;
pub mod pipes;
pub mod races;
pub mod almanac;
pub mod cubes;
pub mod scratchcards;
pub mod oasis;
pub mod galaxies;
pub mod lenses;
pub mod network;
pub mod camel;
pub mod platform;
pub mod mirrors;
pub mod calibration;
pub mod schematic;
pub mod springs;
