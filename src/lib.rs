//! Simulation core of a top-down maze arena shooter: maze generation,
//! grid path planning, and the per-tick world update.
pub mod entity;
pub mod geometry;
pub mod maze;
pub mod path;
pub mod sim;
