//! How the blocks of a file are encoded.

use crate::ondisk::serialization::{Inode, Superblock};
use vstd::prelude::*;

verus! {

/// How the blocks of a file are encoded.
#[derive(Debug, Clone, Copy, PartialEq, Eq, Structural)]
pub struct BlockCipherContext {
    pub compression_algo: u8,
    pub encryption_algo: u8,
    /// The number of the key, for a file that is encrypted.
    pub key: Option<u64>,
    pub crypto_tree_root: u64,
}

/// How the blocks of a file are encoded. `key_of_file` is the number of the key
/// that was found for it; it counts only if the file is encrypted.
pub fn resolve_block_cipher_ctx(inode: &Inode, sb: &Superblock, key_of_file: Option<u64>) -> (r:
    BlockCipherContext)
    ensures
        r == (BlockCipherContext {
            compression_algo: inode.compression_algo,
            encryption_algo: inode.encryption_algo,
            key: if inode.encryption_algo != 0 {
                key_of_file
            } else {
                None
            },
            crypto_tree_root: sb.crypto_tree_root,
        }),
{
    let key = if inode.encryption_algo != 0 {
        key_of_file
    } else {
        None
    };
    BlockCipherContext {
        compression_algo: inode.compression_algo,
        encryption_algo: inode.encryption_algo,
        key,
        crypto_tree_root: sb.crypto_tree_root,
    }
}

} // verus!
