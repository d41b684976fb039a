//! What the command line says.

pub mod args;
