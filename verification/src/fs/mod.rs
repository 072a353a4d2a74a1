//! The mounted file system.
pub mod attr_laws;
pub mod cipher;
pub mod commit;
pub mod compression;
pub mod content_laws;
pub mod copy_laws;
pub mod cow;
pub mod dedupe;
pub mod damage;
pub mod extents;
pub mod filesystem;
pub mod listing_laws;
pub mod load;
pub mod metadata;
pub mod mount_laws;
pub mod names_laws;
pub mod operations;
pub mod page_cache;
pub mod placement;
pub mod reflink;
pub mod retention;
pub mod retention_laws;
pub mod snapshots;
pub mod space_laws;
pub mod stat;
pub mod store;
pub mod vfs;
pub mod vfs_acl;
pub mod vfs_attrs;
pub mod vfs_copy;
pub mod vfs_data;
pub mod vfs_impl;
pub mod vfs_names;
pub mod volume;
