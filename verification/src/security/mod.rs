//! Access lists.
pub mod posix_acl;
