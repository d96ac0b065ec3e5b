//! A small graph-processing engine: a graph store holding fixed-point 3D
//! node positions and an edge list, a force-directed layout step, and a
//! single-level greedy modularity-based community detector.
//!
//! Coordinates are fixed-point integers; a host-facing layer converts
//! floating-point positions to this representation at the boundary.

pub mod community;
pub mod graph;
pub mod laws;
pub mod layout;
pub mod math;
