//! What a change of attributes promises, and what is shown of an inode.

use crate::fs::filesystem::SharedCore;
use crate::fs::metadata;
use crate::fs::store;
use crate::fs::vfs::{VfsKind, VfsSetAttr};
use crate::fs::vfs_acl;
use crate::fs::vfs_data;
use crate::fs::vfs_impl;
use crate::fs::vfs_names;
use crate::fs::volume;
use crate::fs::volume::VolumeView;
use crate::integrity::refcount::RefCountManager;
use crate::ondisk::serialization::Inode;
use crate::security::posix_acl;
use crate::security::posix_acl::ACL_ACCESS_XATTR;
use vstd::prelude::*;

verus! {

/// What is shown of an inode is what the inode says: its number, size, links,
/// owner, group and permission bits; a directory if and only if its mode says
/// so; the blocks that hold its bytes, none without bytes; and its times, with
/// those before the epoch shown as the epoch.
pub proof fn attributes_are_those_of_the_inode(inode: Inode)
    ensures
        ({
            let shown = vfs_impl::attr_of(inode);
            &&& shown.ino == inode.ino
            &&& shown.size == inode.size
            &&& shown.nlink == inode.links_count
            &&& shown.uid == inode.uid
            &&& shown.gid == inode.gid
            &&& shown.perm == inode.mode & 0o7777
            &&& shown.kind is Directory <==> inode.mode & 0o170000 == 0o040000
            &&& inode.size <= shown.blocks * 4096 < inode.size + 4096
            &&& inode.atime >= 0 ==> shown.atime == inode.atime
            &&& inode.mtime >= 0 ==> shown.mtime == inode.mtime
            &&& inode.ctime >= 0 ==> shown.ctime == inode.ctime
            &&& inode.atime < 0 ==> shown.atime == 0
            &&& inode.mtime < 0 ==> shown.mtime == 0
            &&& inode.ctime < 0 ==> shown.ctime == 0
            &&& shown.blksize == 4096
            &&& shown.flags == 0
        }),
{
}

/// Buffered writes show in the attributes: the size is that of the file as it
/// reads, its blocks hold that size, and the time of the last change is that of
/// the last buffered write. Nothing else of the inode is hidden by them.
pub proof fn buffered_writes_show_in_the_attributes(core: SharedCore, ino: u64)
    requires
        core.vol@.inodes.contains_key(ino),
        core.vol@.inodes[ino].ino == ino,
    ensures
        ({
            let inode = core.vol@.inodes[ino];
            let plain = vfs_impl::attr_of(inode);
            let shown = vfs_impl::shadowed_attr(core, inode);
            &&& shown.size == core.content(ino).len()
            &&& shown.size <= shown.blocks * 4096 < shown.size + 4096
            &&& core.page_cache.shadow_of(ino) matches Some((_, t)) ==> t > 0 ==> shown.mtime
                == t
            &&& core.page_cache.shadow_of(ino) is None ==> shown == plain
            &&& shown.ino == ino
            &&& shown.kind == plain.kind
            &&& shown.perm == plain.perm
            &&& shown.uid == plain.uid
            &&& shown.gid == plain.gid
            &&& shown.nlink == plain.nlink
            &&& shown.atime == plain.atime
            &&& shown.ctime == plain.ctime
        }),
{
}

/// The permission bits of an access list change no other bits of a mode.
proof fn lemma_list_bits(mode: u32, bits: u32)
    requires
        bits <= 0o777,
    ensures
        vfs_names::with_acl_bits(mode, bits) & 0o170000 == mode & 0o170000,
        vfs_names::with_acl_bits(mode, bits) & 0o7000 == mode & 0o7000,
        vfs_names::with_acl_bits(mode, bits) & 0o777 == bits,
{
    assert(((mode & !0o777u32) | bits) & 0o170000 == mode & 0o170000 && ((mode & !0o777u32) | bits)
        & 0o7000 == mode & 0o7000 && ((mode & !0o777u32) | bits) & 0o777 == bits) by (bit_vector)
        requires
            bits <= 0o777,
    ;
}

/// After a change of attributes the inode has each one that was asked for as it
/// was asked for: owner, group, times, and the size if it fits. Of a mode that
/// was asked for it has the permission bits, unless an access list stands in
/// for them, and never the file type. What was not asked for is as it was. The
/// time of the last change of the inode is that of the change, and no other
/// inode changes. The attributes that are returned say the same.
pub proof fn setattr_sets_what_was_asked(
    v: VolumeView,
    b: VolumeView,
    rc: RefCountManager,
    ino: u64,
    attr: VfsSetAttr,
    now: u64,
)
    requires
        v.inodes.contains_key(ino),
        v.inodes[ino].ino == ino,
        vfs_data::volume_changed(v, b, rc, ino, attr, now),
    ensures
        ({
            let before = v.inodes[ino];
            let after = b.inodes[ino];
            let shown = vfs_impl::attr_of(vfs_data::inode_changed(v, rc, ino, attr, now));
            &&& b.inodes.contains_key(ino)
            &&& b.inodes.remove(ino) == v.inodes.remove(ino)
            &&& after.ino == ino && shown.ino == ino
            &&& after.links_count == before.links_count && shown.nlink == before.links_count
            &&& after.uid == (match attr.uid {
                Some(u) => u,
                None => before.uid,
            })
            &&& shown.uid == after.uid
            &&& after.gid == (match attr.gid {
                Some(g) => g,
                None => before.gid,
            })
            &&& shown.gid == after.gid
            &&& after.atime == (match attr.atime {
                Some(t) => t,
                None => before.atime,
            })
            &&& after.mtime == (match attr.mtime {
                Some(t) => t,
                None => before.mtime,
            })
            &&& after.ctime == now as i64
            &&& after.mode & 0o170000 == before.mode & 0o170000
            &&& attr.mode is None ==> after.mode == before.mode
            &&& attr.mode matches Some(m) ==> after.mode & 0o7000 == m & 0o7000
            &&& attr.mode matches Some(m) ==> vfs_acl::stored_acl(v, ino, ACL_ACCESS_XATTR@) is None
                ==> after.mode & 0o7777 == m & 0o7777
            &&& shown.perm == after.mode & 0o7777
            &&& (shown.kind == VfsKind::Directory) == (before.mode & 0o170000 == 0o040000)
            &&& attr.size is None ==> after.size == before.size
            &&& attr.size matches Some(n) ==> after.size == n || after.size == before.size
            &&& attr.size matches Some(n) ==> n <= v.limits.file_bytes && store::can_resize(
                v,
                rc,
                ino,
                n,
            ) ==> after.size == n
            &&& shown.size == after.size
            &&& shown.atime == (if after.atime >= 0 {
                after.atime as u64
            } else {
                0
            })
            &&& shown.mtime == (if after.mtime >= 0 {
                after.mtime as u64
            } else {
                0
            })
        }),
{
    reveal(vfs_data::inode_changed);
    reveal(vfs_acl::chmod_of);
    let before = v.inodes[ino];
    let made = vfs_data::inode_changed(v, rc, ino, attr, now);
    let changes = vfs_data::changes_of(attr);
    let sized = Inode {
        size: match vfs_data::new_size(v, rc, ino, attr) {
            Some(n) => n,
            None => before.size,
        },
        ..before
    };
    metadata::asked_attributes_are_set(sized, changes, now as i64);
    let changed = metadata::attrs_applied(sized, changes, now as i64);
    if vfs_data::acl_follows(v, ino, attr) {
        let bits = vfs_acl::chmod_of(v, ino, attr)->0.mode_bits;
        let list = vfs_acl::stored_acl(v, ino, ACL_ACCESS_XATTR@)->0;
        posix_acl::lists_give_no_other_bits(posix_acl::after_chmod(list, attr.mode->0));
        lemma_list_bits(changed.mode, bits);
    }
    assert(b.inodes.remove(ino) =~= v.inodes.remove(ino));
    if attr.mode is Some {
        let m = attr.mode->0;
        let c = changed.mode;
        assert(c & 0o7777 == m & 0o7777 ==> c & 0o7000 == m & 0o7000) by (bit_vector);
    }
}

/// A flush before a change of the size leaves the inode there, with its owner,
/// group, mode, links and time of access.
pub proof fn lemma_settled_inode(
    a: SharedCore,
    mid: SharedCore,
    ino: u64,
    attr: VfsSetAttr,
    now: u64,
)
    requires
        a.wf(),
        vfs_data::settled(a, mid, ino, attr, now),
    ensures
        mid.vol@.inodes.contains_key(ino) == a.vol@.inodes.contains_key(ino),
        a.vol@.inodes.contains_key(ino) ==> {
            let before = a.vol@.inodes[ino];
            let after = mid.vol@.inodes[ino];
            &&& after.ino == ino
            &&& before.ino == ino
            &&& after.uid == before.uid
            &&& after.gid == before.gid
            &&& after.mode == before.mode
            &&& after.links_count == before.links_count
            &&& after.atime == before.atime
            &&& attr.size is None ==> after == before
        },
{
    volume::lemma_inode_fits(a.vol, ino);
}

} // verus!
