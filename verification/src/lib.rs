//! Verified core of a map-visualization engine: the per-sensor row index
//! over a resident point cloud, and the intensity-to-color palette.

pub mod cloud;
pub mod palette;
