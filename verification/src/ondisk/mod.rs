//! Formats and records of the on-disk image.
pub mod block_group;
pub mod extent;
pub mod inode_v3;
pub mod object_header;
pub mod serialization;
pub mod superblock;
pub mod validation;
pub mod xattr;
