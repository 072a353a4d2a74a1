//! What the operations of a mounted image take and give.

use crate::error::{Error, ErrorKind};
use crate::posix;
use vstd::prelude::*;

verus! {

/// An error number.
#[derive(Debug, Clone, Copy, PartialEq, Eq, Structural)]
pub struct VfsError {
    /// The number.
    pub errno: i32,
}

/// The error number of a kind of error.
pub open spec fn errno_of(kind: ErrorKind) -> i32 {
    match kind {
        ErrorKind::InvalidInput => posix::EINVAL,
        ErrorKind::InvalidData => posix::EIO,
        ErrorKind::NotFound => posix::ENODATA,
        ErrorKind::AlreadyExists => posix::EEXIST,
        ErrorKind::StorageFull => posix::ENOSPC,
        ErrorKind::Unsupported => posix::ENOTSUP,
    }
}

impl VfsError {
    /// The error of number `errno`.
    pub fn new(errno: i32) -> (r: Self)
        ensures
            r.errno == errno,
    {
        VfsError { errno }
    }

    /// The error of an operation that is not there.
    pub fn nosys() -> (r: Self)
        ensures
            r.errno == posix::ENOSYS,
    {
        VfsError { errno: posix::ENOSYS }
    }

    /// The error number that stands for `err`.
    pub fn from_io(err: &Error) -> (r: Self)
        ensures
            r.errno == errno_of(err.kind),
    {
        VfsError {
            errno: match err.kind {
                ErrorKind::InvalidInput => posix::EINVAL,
                ErrorKind::InvalidData => posix::EIO,
                ErrorKind::NotFound => posix::ENODATA,
                ErrorKind::AlreadyExists => posix::EEXIST,
                ErrorKind::StorageFull => posix::ENOSPC,
                ErrorKind::Unsupported => posix::ENOTSUP,
            },
        }
    }
}

/// What an inode is.
#[derive(Debug, Clone, Copy, PartialEq, Eq, Structural)]
pub enum VfsKind {
    /// A directory.
    Directory,
    /// A regular file.
    RegularFile,
}

/// The attributes of an inode. Times are seconds since the epoch.
#[derive(Debug, Clone, Copy, PartialEq, Eq, Structural)]
pub struct VfsAttr {
    /// Inode number.
    pub ino: u64,
    /// Size in bytes.
    pub size: u64,
    /// Blocks that the size takes.
    pub blocks: u64,
    /// Kind.
    pub kind: VfsKind,
    /// Permission bits.
    pub perm: u32,
    /// Links.
    pub nlink: u32,
    /// Owner.
    pub uid: u32,
    /// Group.
    pub gid: u32,
    /// Time of the last access.
    pub atime: u64,
    /// Time of the last change of the contents.
    pub mtime: u64,
    /// Time of the last change of the inode.
    pub ctime: u64,
    /// Size of a block.
    pub blksize: u32,
    /// Flags.
    pub flags: u32,
}

/// What a new inode is made with.
#[derive(Debug, Clone, Copy, PartialEq, Eq, Structural)]
pub struct VfsCreate {
    /// Mode.
    pub mode: u32,
    /// Owner.
    pub uid: u32,
    /// Group.
    pub gid: u32,
}

/// Which attributes to change, and to what. Times are seconds since the epoch.
#[derive(Debug, Clone, Copy, PartialEq, Eq, Structural)]
pub struct VfsSetAttr {
    /// Mode.
    pub mode: Option<u32>,
    /// Owner.
    pub uid: Option<u32>,
    /// Group.
    pub gid: Option<u32>,
    /// Size.
    pub size: Option<u64>,
    /// Time of the last access.
    pub atime: Option<i64>,
    /// Time of the last change of the contents.
    pub mtime: Option<i64>,
}

impl Default for VfsSetAttr {
    /// Nothing to change.
    fn default() -> (r: Self)
        ensures
            r == (VfsSetAttr {
                mode: None,
                uid: None,
                gid: None,
                size: None,
                atime: None,
                mtime: None,
            }),
    {
        VfsSetAttr { mode: None, uid: None, gid: None, size: None, atime: None, mtime: None }
    }
}

/// One entry of a directory listing.
#[derive(Debug, Clone, PartialEq, Eq)]
pub struct VfsDirEntry {
    /// Inode.
    pub ino: u64,
    /// Kind.
    pub kind: VfsKind,
    /// Name.
    pub name: String,
    /// Offset at which the listing goes on after this entry.
    pub next_offset: u64,
}

/// The space of a mounted image.
#[derive(Debug, Clone, Copy, PartialEq, Eq, Structural)]
pub struct VfsStatFs {
    /// Blocks.
    pub total_blocks: u64,
    /// Free blocks.
    pub free_blocks: u64,
    /// Free blocks for ordinary users.
    pub avail_blocks: u64,
    /// Inodes.
    pub total_inodes: u64,
    /// Free inodes.
    pub free_inodes: u64,
    /// Size of a block.
    pub block_size: u32,
    /// Longest name.
    pub max_name_len: u32,
}

/// Each kind of error has a number of its own.
pub proof fn kinds_of_error_have_their_numbers(kind: ErrorKind)
    ensures
        errno_of(ErrorKind::InvalidInput) == 22,
        errno_of(ErrorKind::InvalidData) == 5,
        errno_of(ErrorKind::NotFound) == 61,
        errno_of(ErrorKind::AlreadyExists) == 17,
        errno_of(ErrorKind::StorageFull) == 28,
        errno_of(ErrorKind::Unsupported) == 95,
        errno_of(kind) > 0,
{
}

} // verus!
