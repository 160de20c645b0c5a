//! State shared by the parts of the type checker.

pub mod stdlib_loader;
