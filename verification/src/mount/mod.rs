//! Mounting and unmounting.
pub mod options;
pub mod unmount;
