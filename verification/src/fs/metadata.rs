//! Changes of inode attributes.

use crate::inode::timestamps;
use crate::ondisk::serialization::Inode;
use crate::posix;
use vstd::prelude::*;

verus! {

/// A time to set.
#[derive(Debug, Clone, Copy, PartialEq, Eq, Structural)]
pub enum TimeOrNow {
    /// The time at which the change is made.
    Now,
    /// A fixed time.
    At(i64),
}

/// Which attributes to change, and to what.
#[derive(Debug, Clone, Copy, PartialEq, Eq, Structural)]
pub struct AttrChanges {
    /// Permission bits.
    pub mode: Option<u32>,
    /// Owner.
    pub uid: Option<u32>,
    /// Group.
    pub gid: Option<u32>,
    /// Time of the last access.
    pub atime: Option<TimeOrNow>,
    /// Time of the last change of the contents.
    pub mtime: Option<TimeOrNow>,
}

impl Default for AttrChanges {
    /// Nothing to change.
    fn default() -> (r: Self)
        ensures
            r == (AttrChanges { mode: None, uid: None, gid: None, atime: None, mtime: None }),
    {
        AttrChanges { mode: None, uid: None, gid: None, atime: None, mtime: None }
    }
}

/// The mode with the permission bits of `bits` and the file type kept.
pub open spec fn chmodded(mode: u32, bits: u32) -> u32 {
    (mode & posix::S_IFMT) | (bits & 0o7777)
}

/// The inode after `changes` at `now`. The time of the last change of the
/// inode moves whatever else does; the size never does.
pub open spec fn attrs_applied(inode: Inode, changes: AttrChanges, now: i64) -> Inode {
    Inode {
        mode: match changes.mode {
            Some(m) => chmodded(inode.mode, m),
            None => inode.mode,
        },
        uid: match changes.uid {
            Some(u) => u,
            None => inode.uid,
        },
        gid: match changes.gid {
            Some(g) => g,
            None => inode.gid,
        },
        atime: match changes.atime {
            Some(t) => timestamps::resolved(t, now),
            None => inode.atime,
        },
        mtime: match changes.mtime {
            Some(t) => timestamps::resolved(t, now),
            None => inode.mtime,
        },
        ctime: now,
        ..inode
    }
}

/// Applies `changes` to `inode` at `now`.
pub fn apply_attr_changes(inode: &mut Inode, changes: AttrChanges, now: i64)
    ensures
        *final(inode) == attrs_applied(*old(inode), changes, now),
        changes.uid matches Some(u) ==> final(inode).uid == u,
        changes.uid is None ==> final(inode).uid == old(inode).uid,
        changes.gid matches Some(g) ==> final(inode).gid == g,
        changes.gid is None ==> final(inode).gid == old(inode).gid,
        changes.mode matches Some(m) ==> final(inode).mode & 0o7777 == m & 0o7777,
        changes.mode is None ==> final(inode).mode == old(inode).mode,
        final(inode).mode & posix::S_IFMT == old(inode).mode & posix::S_IFMT,
        changes.atime == Some(TimeOrNow::Now) ==> final(inode).atime == now,
        changes.atime matches Some(TimeOrNow::At(t)) ==> final(inode).atime == t,
        changes.atime is None ==> final(inode).atime == old(inode).atime,
        changes.mtime == Some(TimeOrNow::Now) ==> final(inode).mtime == now,
        changes.mtime matches Some(TimeOrNow::At(t)) ==> final(inode).mtime == t,
        changes.mtime is None ==> final(inode).mtime == old(inode).mtime,
        final(inode).ctime == now,
        final(inode).size == old(inode).size,
{
    proof {
        asked_attributes_are_set(*inode, changes, now);
    }
    if let Some(m) = changes.mode {
        inode.mode = (inode.mode & posix::S_IFMT) | (m & 0o7777);
    }
    if let Some(u) = changes.uid {
        inode.uid = u;
    }
    if let Some(g) = changes.gid {
        inode.gid = g;
    }
    if let Some(a) = changes.atime {
        inode.atime = timestamps::resolve_time_or_now(a, now);
    }
    if let Some(m) = changes.mtime {
        inode.mtime = timestamps::resolve_time_or_now(m, now);
    }
    inode.ctime = now;
}

/// A change of the mode keeps the file type and sets the permission bits.
pub proof fn chmod_preserves_file_type(mode: u32, bits: u32)
    ensures
        posix::type_of(chmodded(mode, bits)) == posix::type_of(mode),
        chmodded(mode, bits) & 0o7777 == bits & 0o7777,
{
    assert(((mode & 0o170000) | (bits & 0o7777)) & 0o170000 == mode & 0o170000) by (bit_vector);
    assert(((mode & 0o170000) | (bits & 0o7777)) & 0o7777 == bits & 0o7777) by (bit_vector);
}

/// Each attribute that is asked for becomes what was asked: owner, group,
/// permission bits and times. The file type never changes, and the inode's
/// own time becomes that of the change.
pub proof fn asked_attributes_are_set(inode: Inode, changes: AttrChanges, now: i64)
    ensures
        ({
            let after = attrs_applied(inode, changes, now);
            &&& changes.uid matches Some(u) ==> after.uid == u
            &&& changes.gid matches Some(g) ==> after.gid == g
            &&& changes.mode matches Some(m) ==> after.mode & 0o7777 == m & 0o7777 && after.mode
                == (inode.mode & 0o170000) | (m & 0o7777)
            &&& after.mode & 0o170000 == inode.mode & 0o170000
            &&& changes.atime == Some(TimeOrNow::Now) ==> after.atime == now
            &&& changes.atime matches Some(TimeOrNow::At(t)) ==> after.atime == t
            &&& changes.mtime == Some(TimeOrNow::Now) ==> after.mtime == now
            &&& changes.mtime matches Some(TimeOrNow::At(t)) ==> after.mtime == t
            &&& after.ctime == now
        }),
{
    match changes.mode {
        Some(m) => chmod_preserves_file_type(inode.mode, m),
        None => {},
    }
}

/// An attribute that is not asked for stays as it was, and so does everything
/// of the inode that is no attribute.
pub proof fn other_attributes_stay(inode: Inode, changes: AttrChanges, now: i64)
    ensures
        ({
            let after = attrs_applied(inode, changes, now);
            &&& changes.uid is None ==> after.uid == inode.uid
            &&& changes.gid is None ==> after.gid == inode.gid
            &&& changes.mode is None ==> after.mode == inode.mode
            &&& changes.atime is None ==> after.atime == inode.atime
            &&& changes.mtime is None ==> after.mtime == inode.mtime
            &&& after.size == inode.size
            &&& after == (Inode {
                mode: after.mode,
                uid: after.uid,
                gid: after.gid,
                atime: after.atime,
                mtime: after.mtime,
                ctime: after.ctime,
                ..inode
            })
        }),
{
}

} // verus!
