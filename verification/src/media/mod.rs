//! What devices are made of, and what that asks of placement and alignment.
pub mod alignment;
pub mod class;
pub mod tier;

pub use class::MediaClass;
