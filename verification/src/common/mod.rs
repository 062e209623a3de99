//! Numbers, vectors and units shared by the rest of the toolkit.

/// Fixed-resolution numbers and their decimal text.
pub mod number;

/// Three-component vectors.
pub mod vector3;

/// Lines and tokens of a text.
pub mod text;

/// Units of measurement.
pub mod unit;
