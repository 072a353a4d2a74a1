//! Inode attributes: who may access, and when things changed.
pub mod permissions;
pub mod timestamps;
