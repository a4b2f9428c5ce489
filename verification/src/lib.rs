//! Wildfire percolation on a square lattice.
//!
//! Trees are seeded onto a grid at a requested density, one cell is ignited,
//! and the fire advances in discrete waves along a chosen neighbourhood
//! relation until nothing is burning any more.

pub mod config;
pub mod fire_spread;
pub mod forest;
pub mod lattice;
pub mod laws;
pub mod model;
pub mod percolation;
pub mod random;
pub mod ratio;
pub mod simulation;
