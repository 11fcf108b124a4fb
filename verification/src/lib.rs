//! Lloyd's k-means clustering of points in the plane, on fixed-point
//! coordinates, with machine-checked contracts.

pub mod point;
pub mod centroid;
pub mod engine;
pub mod sampling;
pub mod laws;
pub mod objective;
