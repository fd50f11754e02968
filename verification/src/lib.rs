//! A verified K-Means clustering engine for 2D points.
//!
//! Coordinates are fixed-point integers: one unit of a coordinate is
//! `SCALE` grid steps, so the grid resolution equals the engine's
//! point-equality tolerance and point equality is exact integer equality.
//! The engine partitions points into K clusters by Lloyd iteration and
//! records one snapshot (cluster assignment and total squared error)
//! per iteration, stopping when the error stabilizes or the iteration
//! budget is exhausted.

pub mod config;
pub mod generate;
pub mod kmeans;
pub mod laws;
pub mod point;
