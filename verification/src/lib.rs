//! A learned spatial hash map: a hash map for points of the plane that takes
//! a learned model for its hash function.
//!
//! The model, such as a linear regression, is fitted to the stored points and
//! estimates the rank of a coordinate among them; the estimate is the index
//! of the bucket. A model that fits the data spreads the points evenly over
//! the buckets. And if the model is monotonic, the buckets follow the order
//! of the coordinates, which is what lets a hash map answer range queries.
//!
//! The map supports:
//! - point queries,
//! - rectangle queries,
//! - radius range queries,
//! - nearest-neighbour queries.
//!
//! Coordinates are `i32` cells of a grid that the caller lays over the plane,
//! and every quantity that is derived from them, such as a mean, a variance
//! or the line of a regression, is an exact rational number. Each operation
//! states what it gives in a contract that is verified.
//!
//! ```text
//! let mut points = vec![Point::new(0, 1, 1), Point::new(0, 2, 1), Point::new(0, 3, 2)];
//! let mut map = LearnedHashMap::<LinearModel>::new();
//! map.batch_insert(&mut points).unwrap();
//!
//! assert!(map.get(&[1, 1]).is_some());
//! assert!(map.get(&[3, 1]).is_none());
//! assert!(map.range_search(&[0, 0], &[3, 3]).is_some());
//! assert!(map.radius_range(&[2, 1], 1).is_some());
//! assert!(map.nearest_neighbor(&[2, 1]).is_some());
//! ```
pub mod error;
pub mod geometry;
pub mod hasher;
pub mod map;
pub mod models;
mod scalar;

pub use error::Error;
pub use geometry::{
    convert_to_points, extract_id, extract_x, extract_y, reset_id, sort_by_x, sort_by_y, Axis,
    Distance, Euclidean, Manhattan, Point,
};
pub use hasher::{make_hash, make_hash_point, unhash, LearnedHasher};
pub use map::iter::{IntoIter, Iter};
pub use map::nn::NearestNeighborState;
pub use map::table::{Bucket, Table};
pub use map::LearnedHashMap;
pub use models::{
    covariance, linear_regression, linear_regression_tuple, mean, mean_squared_error, slr,
    variance, LinearModel, Model, Ratio, Trainer,
};
