//! Moving in from other file systems.
pub mod detect;
