//! The backend that hands gates to a composer, which keeps the wiring.

pub mod field;
pub mod synth;
