//! Space of an image.

use crate::ondisk::serialization::{Superblock, BLOCK_SIZE};
use vstd::prelude::*;

verus! {

/// Longest file name, in bytes.
pub const MAX_NAME_LEN: u32 = 255;

/// Space of an image.
#[derive(Debug, Clone, Copy, PartialEq, Eq, Structural)]
pub struct FsStats {
    /// Blocks.
    pub total_blocks: u64,
    /// Free blocks.
    pub free_blocks: u64,
    /// Inodes.
    pub total_inodes: u64,
    /// Inodes that can still be made, roughly.
    pub free_inodes_estimate: u64,
    /// Size of a block.
    pub block_size: u32,
    /// Longest name.
    pub max_name_len: u32,
}

/// The space that a superblock tells of. Inodes live in a tree without a
/// bound, so the free blocks stand for the inodes that can still be made.
pub open spec fn stats_of(sb: Superblock) -> FsStats {
    FsStats {
        total_blocks: sb.total_blocks,
        free_blocks: sb.free_blocks,
        total_inodes: sb.inode_count,
        free_inodes_estimate: sb.free_blocks,
        block_size: 4096,
        max_name_len: MAX_NAME_LEN,
    }
}

/// The space that a superblock tells of.
pub fn compute_stats(sb: &Superblock) -> (r: FsStats)
    ensures
        r == stats_of(*sb),
{
    FsStats {
        total_blocks: sb.total_blocks,
        free_blocks: sb.free_blocks,
        total_inodes: sb.inode_count,
        free_inodes_estimate: sb.free_blocks,
        block_size: BLOCK_SIZE as u32,
        max_name_len: MAX_NAME_LEN,
    }
}

/// The space is what the superblock says: its blocks, its free blocks, which
/// stand for the inodes that can still be made too, and its inodes.
pub proof fn space_is_that_of_the_superblock(sb: Superblock)
    ensures
        stats_of(sb).total_blocks == sb.total_blocks,
        stats_of(sb).free_blocks == sb.free_blocks,
        stats_of(sb).free_inodes_estimate == sb.free_blocks,
        stats_of(sb).total_inodes == sb.inode_count,
        stats_of(sb).block_size == 4096,
        stats_of(sb).max_name_len == 255,
{
}

} // verus!
