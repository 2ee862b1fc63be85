//! An adaptive quadtree spatial index over a fixed root rectangle.
//!
//! A [`store::PointStore`] owns the positions of all tracked points; the
//! [`tree::Tree`] indexes them by their store indices, rebuilding from
//! scratch each update cycle.  Rectangles are half-open on both axes, a
//! point accumulates in every node on the path from the root down to its
//! resting depth, and a quadrant spawns a child node only once the number
//! of points falling inside it reaches the configured split threshold.

pub mod geometry;
pub mod laws;
pub mod model;
pub mod store;
pub mod tree;
