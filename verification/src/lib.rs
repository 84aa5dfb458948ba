//! A location-guessing game library.
//!
//! The library loads named geographic records from delimited text, computes
//! great-circle distances on a spherical Earth in fixed-point integer
//! arithmetic, and drives the guess-session state machine.

pub mod distance;
pub mod loader;
pub mod session;

