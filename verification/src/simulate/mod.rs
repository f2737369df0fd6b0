//! The two simulations and the source of their random draws.

pub mod psp;
pub mod random;
pub mod user;
