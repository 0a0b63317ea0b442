//! Re-tiling of sprite sheets: a grid descriptor parser, a raster model with
//! cropping and placement, and the slicing and compositing steps that move the
//! cells of one grid layout onto another.

pub mod grid;
pub mod raster;
pub mod resample;
pub mod tiles;
pub mod pipeline;
