//! Diagonal traversal of ragged two-dimensional arrays.
//!
//! Each cell of a ragged array is placed in the Cartesian plane (row 0 on
//! top maps to the largest y-coordinate), every point is assigned the
//! x-intercept of the line of a fixed non-zero slope through it, and points
//! sharing an x-intercept — that is, points on the same diagonal — are
//! grouped together, groups ordered by ascending intercept.

pub mod group;
pub mod laws;
pub mod line;
pub mod point;
pub mod rational;
