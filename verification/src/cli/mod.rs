//! The command surface.

pub mod args;
