//! Data integrity: checksums, the bad-block ledger, and the pin counts that
//! keep shared blocks from being modified in place.
pub mod algorithms;
pub mod bad_blocks;
pub mod refcount;
