//! Spatial partitioning and particle integration: a bounds reduction, a uniform
//! grid with fixed-capacity cells, and a Verlet integrator that reads the grid.
//!
//! A tick runs, in this order: reset and reduce the bounds, clear and fill the
//! grid, integrate. Positions are integer coordinates.
pub mod bounds;
pub mod cell;
pub mod common;
pub mod descriptor;
pub mod grid;
pub mod material;
pub mod profiling;
pub mod simulation;

pub use bounds::{compute_bounds, BoundsPartition};
pub use cell::Cell;
pub use common::{Bounds, ConfigError, IVec3, Particle, MAX_PARTICLES_PER_GRID_CELL};
pub use descriptor::SimulationDescriptor;
pub use grid::{axis_cell, build_grid, cell_index, Grid, GridCell, GridPartition};
pub use material::Material;
pub use profiling::Timing;
pub use simulation::{advance, integrate, Simulation, COLLISION_DISTANCE, NEIGHBOURHOOD};
