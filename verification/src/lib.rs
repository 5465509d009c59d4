//! Watertight ray-triangle intersection on IEEE 754 binary32 values.
//!
//! Numbers are carried as bit patterns and every arithmetic step is done in
//! integer code, so the whole routine, down to each rounding, is verified.

pub mod power;
pub mod format;
pub mod rounding;
pub mod ops;
pub mod facts;
pub mod order;
pub mod accuracy;
pub mod scalar;
pub mod vector;
pub mod intersection;
pub mod guarantees;

pub use intersection::{watertight_ray_triangle_intersection, Hit};
pub use scalar::{Scalar, Wide};
pub use vector::Vector3;
