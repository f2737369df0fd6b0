//! The configuration model.

pub mod balance;
pub mod config;
pub mod keymap;
