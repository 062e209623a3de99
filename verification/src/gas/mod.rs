//! The models of a gas that a simulation can be run with.

/// The names of the gas models.
pub mod gas_model;
