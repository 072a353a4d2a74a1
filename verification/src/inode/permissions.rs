//! Who may access an inode.

use crate::ondisk::serialization::Inode;
use vstd::prelude::*;

verus! {

/// Only that the inode is there.
pub const F_OK: i32 = 0;

/// Read access.
pub const R_OK: i32 = 4;

/// Write access.
pub const W_OK: i32 = 2;

/// Execute access.
pub const X_OK: i32 = 1;

/// The permission bits of the class that the caller is in: owner, else
/// group, else other.
pub open spec fn class_bits(inode: Inode, uid: u32, gid: u32) -> u32 {
    if uid == inode.uid {
        (inode.mode >> 6) & 7
    } else if gid == inode.gid {
        (inode.mode >> 3) & 7
    } else {
        inode.mode & 7
    }
}

/// The caller may access the inode as `mask` says: root always, anybody if
/// nothing is asked, else if the caller's class has every bit of `mask`.
pub open spec fn may_access(inode: Inode, uid: u32, gid: u32, mask: i32) -> bool {
    uid == 0 || mask == F_OK || (class_bits(inode, uid, gid) as i32) & mask == mask
}

/// Whether the caller may access the inode as `mask` says.
pub fn check_access(inode: &Inode, uid: u32, gid: u32, mask: i32) -> (r: bool)
    ensures
        r == may_access(*inode, uid, gid, mask),
        uid == 0 ==> r,
        mask == 0 ==> r,
        uid != 0 && mask != 0 && uid == inode.uid ==> r == (((inode.mode >> 6) & 7) as i32 & mask
            == mask),
        uid != 0 && mask != 0 && uid != inode.uid && gid == inode.gid ==> r == (((inode.mode >> 3)
            & 7) as i32 & mask == mask),
        uid != 0 && mask != 0 && uid != inode.uid && gid != inode.gid ==> r == ((inode.mode
            & 7) as i32 & mask == mask),
{
    if uid == 0 {
        return true;
    }
    if mask == F_OK {
        return true;
    }
    let mode: u32 = inode.mode;
    let bits: u32 = if uid == inode.uid {
        (mode >> 6) & 7
    } else if gid == inode.gid {
        (mode >> 3) & 7
    } else {
        mode & 7
    };
    (bits as i32) & mask == mask
}

/// Whether the caller may read.
pub fn can_read(inode: &Inode, uid: u32, gid: u32) -> (r: bool)
    ensures
        r == may_access(*inode, uid, gid, R_OK),
{
    check_access(inode, uid, gid, R_OK)
}

/// Whether the caller may write.
pub fn can_write(inode: &Inode, uid: u32, gid: u32) -> (r: bool)
    ensures
        r == may_access(*inode, uid, gid, W_OK),
{
    check_access(inode, uid, gid, W_OK)
}

/// Whether the caller may execute.
pub fn can_execute(inode: &Inode, uid: u32, gid: u32) -> (r: bool)
    ensures
        r == may_access(*inode, uid, gid, X_OK),
{
    check_access(inode, uid, gid, X_OK)
}

/// Root passes, whatever the mode and the mask.
pub proof fn root_always_passes(inode: Inode, gid: u32, mask: i32)
    ensures
        may_access(inode, 0, gid, mask),
{
}

/// What is granted for two masks together is granted for each.
pub proof fn combined_mask_needs_all_bits(inode: Inode, uid: u32, gid: u32, a: i32, b: i32)
    requires
        may_access(inode, uid, gid, a | b),
        0 <= a < 8,
        0 <= b < 8,
    ensures
        may_access(inode, uid, gid, a),
        may_access(inode, uid, gid, b),
{
    let bits: i32 = class_bits(inode, uid, gid) as i32;
    assert(bits & (a | b) == (a | b) ==> bits & a == a && bits & b == b) by (bit_vector);
    assert(a | b == 0 ==> a == 0 && b == 0) by (bit_vector);
}

/// One class decides: the owner's bits for the owner, even where those of the
/// group or of others would grant more, the group's for the group, and those of
/// others for everybody else. What is asked for is granted if and only if that
/// class has every bit of it.
pub proof fn one_class_decides(inode: Inode, uid: u32, gid: u32, mask: i32)
    requires
        uid != 0,
        0 < mask < 8,
    ensures
        ({
            let wanted = mask as u32;
            let mode = inode.mode;
            &&& uid == inode.uid ==> may_access(inode, uid, gid, mask) == (mode & (wanted << 6)
                == wanted << 6)
            &&& uid != inode.uid && gid == inode.gid ==> may_access(inode, uid, gid, mask) == (mode
                & (wanted << 3) == wanted << 3)
            &&& uid != inode.uid && gid != inode.gid ==> may_access(inode, uid, gid, mask) == (mode
                & wanted == wanted)
        }),
{
    let mode = inode.mode;
    let w = mask as u32;
    assert((((mode >> 6) & 7) as i32 & (w as i32) == (w as i32)) == (mode & (w << 6) == w << 6)
        && (((mode >> 3) & 7) as i32 & (w as i32) == (w as i32)) == (mode & (w << 3) == w << 3)
        && ((mode & 7) as i32 & (w as i32) == (w as i32)) == (mode & w == w)) by (bit_vector)
        requires
            0 < w < 8,
    ;
}

/// Nobody but root is granted what no class has.
pub proof fn nothing_is_granted_without_bits(inode: Inode, uid: u32, gid: u32, mask: i32)
    requires
        uid != 0,
        0 < mask < 8,
        inode.mode & 0o777 == 0,
    ensures
        !may_access(inode, uid, gid, mask),
{
    one_class_decides(inode, uid, gid, mask);
    let mode = inode.mode;
    let w = mask as u32;
    assert(mode & (w << 6) != w << 6 && mode & (w << 3) != w << 3 && mode & w != w) by (bit_vector)
        requires
            0 < w < 8,
            mode & 0o777 == 0,
    ;
}

} // verus!
