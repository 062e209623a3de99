//! Where the files of a simulation lie, and how much the program says.

/// The settings of the program.
pub mod settings;

/// What the program tells its user.
pub mod logging;
