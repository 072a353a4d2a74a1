//! File modes, access bits and error numbers.

use vstd::prelude::*;

verus! {

/// Mask of the file type in a mode.
pub const S_IFMT: u32 = 0o170000;

/// Type of a directory.
pub const S_IFDIR: u32 = 0o040000;

/// Type of a regular file.
pub const S_IFREG: u32 = 0o100000;

/// Type of a symbolic link.
pub const S_IFLNK: u32 = 0o120000;

/// Operation not permitted.
pub const EPERM: i32 = 1;

/// No such file or directory.
pub const ENOENT: i32 = 2;

/// Input/output error.
pub const EIO: i32 = 5;

/// Permission denied.
pub const EACCES: i32 = 13;

/// File exists.
pub const EEXIST: i32 = 17;

/// Not a directory.
pub const ENOTDIR: i32 = 20;

/// Invalid argument.
pub const EINVAL: i32 = 22;

/// No space left.
pub const ENOSPC: i32 = 28;

/// Function not implemented.
pub const ENOSYS: i32 = 38;

/// Directory not empty.
pub const ENOTEMPTY: i32 = 39;

/// No such attribute.
pub const ENODATA: i32 = 61;

/// Operation not supported.
pub const ENOTSUP: i32 = 95;

/// The file type of `mode`.
pub open spec fn type_of(mode: u32) -> u32 {
    mode & S_IFMT
}

/// The file type of `mode`.
pub fn file_type_of(mode: u32) -> (r: u32)
    ensures
        r == type_of(mode),
{
    mode & S_IFMT
}

/// Whether `mode` is that of a directory.
pub fn is_dir(mode: u32) -> (r: bool)
    ensures
        r == (type_of(mode) == S_IFDIR),
{
    mode & S_IFMT == S_IFDIR
}

/// Whether `mode` is that of a symbolic link.
pub fn is_lnk(mode: u32) -> (r: bool)
    ensures
        r == (type_of(mode) == S_IFLNK),
{
    mode & S_IFMT == S_IFLNK
}

/// The directory-entry type byte of `mode`: 2 for a directory, 1 for
/// anything else.
pub open spec fn entry_type(mode: u32) -> u8 {
    if type_of(mode) == S_IFDIR {
        2
    } else {
        1
    }
}

/// The directory-entry type byte of `mode`.
pub fn dirent_type(mode: u32) -> (r: u8)
    ensures
        r == entry_type(mode),
{
    if is_dir(mode) {
        2
    } else {
        1
    }
}

/// The type of a file stands in the four bits above the permissions; the entry
/// of a directory is of type 2, that of anything else of type 1.
pub proof fn types_stand_above_the_permissions(mode: u32)
    ensures
        type_of(mode) == mode & 0o170000,
        S_IFDIR == 0o040000,
        S_IFREG == 0o100000,
        S_IFLNK == 0o120000,
        mode & 0o170000 == 0o040000 ==> entry_type(mode) == 2,
        mode & 0o170000 != 0o040000 ==> entry_type(mode) == 1,
{
}

} // verus!
