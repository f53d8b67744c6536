//! The backend that lays gates out as rows of a table with explicit cells.

pub mod cli;
pub mod field;
pub mod synth;
