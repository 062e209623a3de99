//! Mesh construction and topology for a small finite-volume toolkit.
//!
//! Lengths are kept as whole multiples of a fixed resolution, so every
//! geometric quantity the mesh engine derives is exact.

pub mod common;
pub mod config;
pub mod finite_volume;
pub mod gas;
pub mod grid;
