//! Diffusion-limited aggregation on a fixed-point grid: a bucketed spatial
//! index of frozen particles and the simulation step that grows it.

pub mod approach;
pub mod bins;
pub mod config;
pub mod dla;
pub mod geometry;
pub mod grid;
pub mod grouping;
pub mod motion;
pub mod particle;
pub mod rng;
pub mod world;
