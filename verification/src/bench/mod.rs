//! The benchmark's verdicts: whether a strategy edited a configuration
//! right, and whether it left the rest of the file alone.

pub mod keys;
pub mod lines;
pub mod spans;
pub mod task;
pub mod judge;
pub mod run;
