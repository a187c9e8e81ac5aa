//! Points of the grid, distances between them, and helpers for slices of
//! points.
pub mod distance;
pub mod helper;
pub mod point;

pub use distance::{Distance, Euclidean, Manhattan};
pub use helper::{
    convert_to_points, extract_id, extract_x, extract_y, reset_id, sort_by_x, sort_by_y,
};
pub use point::{Axis, Point};
