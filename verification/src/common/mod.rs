//! Helpers that several parts share.
pub mod checksum;
pub mod num;
pub mod text;
pub mod version;
