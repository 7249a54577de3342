//! Star catalog formats.

pub mod gaia;
pub mod hipparcos;
