//! Simulation of two sides of a payment flow, driven by a declarative
//! configuration: which parameters a synthetic user picks, and whether a
//! payment connector approves a request with given parameters.

pub mod simulate;
pub mod types;
