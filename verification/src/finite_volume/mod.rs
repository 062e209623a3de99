//! The grid as the flow solver keeps it: the parts of a block side by side
//! in arrays.

/// Lists of numbers in groups.
pub mod util;

/// The interfaces of a block in arrays.
pub mod interface;

/// The cells of a block in arrays.
pub mod cells;

/// The boundaries of a block.
pub mod boundary_conditions;

/// A block of the flow solver.
pub mod fluid_block;

/// Writing a block of the flow solver.
pub mod fluid_block_io;
