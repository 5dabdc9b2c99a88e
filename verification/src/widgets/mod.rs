//! State and layout rules of the terminal widgets. Drawing is left to the
//! program that owns the terminal.

pub mod container;
pub mod list;
pub mod path;
