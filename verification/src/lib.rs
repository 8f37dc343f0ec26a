//! Terrain heightfields: square grids, strided views over them, midpoint
//! displacement, and erosion by droplets.
//!
//! The cell type of a grid is a parameter. The library decides which cells are
//! read and written, from which neighbours and in which order, when erosion
//! runs and how long a droplet lives; the arithmetic on cell values and the
//! physics of a droplet are supplied by the caller as plain functions, and the
//! noise is drawn from a seeded generator that the caller threads through.

pub mod diamondsquare;
pub mod droplet;
pub mod erosion;
pub mod geometry;
pub mod grid;
pub mod image_generation;
pub mod lattice;
pub mod midpoint;
pub mod powers;
pub mod random;
pub mod reduced;

pub use grid::{Arr2d, GridView};
pub use reduced::{ReducedArrayWrapper, ReducedView};
