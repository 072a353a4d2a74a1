//! The operations on extended attributes.

use crate::common::text;
use crate::common::version;
use crate::error::ErrorKind;
use crate::fs::filesystem;
use crate::fs::filesystem::LionFS;
use crate::fs::vfs;
use crate::fs::vfs::VfsError;
use crate::fs::vfs_acl;
use crate::fs::vfs_impl::{HEALTH_INO, SCRUB_INO};
use crate::fs::vfs_names;
use crate::fs::volume;
use crate::fs::volume::{VolumeView, XATTR_TREE_NODE_TYPE};
use crate::ondisk::serialization::{Inode, Superblock};
use crate::ondisk::xattr;
use crate::posix;
use crate::security::posix_acl::{ACL_ACCESS_XATTR, ACL_DEFAULT_XATTR};
use vstd::prelude::*;

verus! {

/// The name is that of an access list.
pub open spec fn is_acl_name(name: Seq<char>) -> bool {
    name == ACL_ACCESS_XATTR@ || name == ACL_DEFAULT_XATTR@
}

/// The volume with an attribute tree: on first use one is made, its root is
/// published with the open transaction, and the feature is recorded.
#[verifier::opaque]
pub open spec fn with_attr_tree(v: VolumeView) -> VolumeView {
    if v.sb.xattr_tree_root == 0 {
        let root = v.fresh.last();
        VolumeView {
            fresh: v.fresh.drop_last(),
            root_cells: v.root_cells.insert(XATTR_TREE_NODE_TYPE, root),
            sb: Superblock {
                xattr_tree_root: root,
                fs_features: v.sb.fs_features | version::FS_FEATURE_XATTR,
                ..v.sb
            },
            ..v
        }
    } else {
        v
    }
}

/// There is an attribute tree, or a block to make one.
pub open spec fn can_have_attrs(v: VolumeView) -> bool {
    v.sb.xattr_tree_root != 0 || v.fresh.len() > 0
}

/// The inode once one of its attributes is set: the time of its last change
/// is `now`, and an access list sets the permission bits.
pub open spec fn inode_after_set(inode: Inode, name: Seq<char>, acl_bits: u32, now: u64) -> Inode {
    Inode {
        mode: if name == ACL_ACCESS_XATTR@ {
            vfs_names::with_acl_bits(inode.mode, acl_bits)
        } else {
            inode.mode
        },
        ctime: now as i64,
        ..inode
    }
}

impl LionFS {
    /// Makes the attribute tree on first use; whether there is one now.
    fn ensure_attr_tree(&mut self) -> (ok: bool)
        requires
            old(self).wf(),
        ensures
            final(self).wf(),
            *final(self) == (LionFS { core: final(self).core, ..*old(self) }),
            final(self).core == (filesystem::SharedCore {
                vol: final(self).core.vol,
                ..old(self).core
            }),
            ok == can_have_attrs(old(self).core.vol@),
            final(self).core.vol@ == (if ok {
                with_attr_tree(old(self).core.vol@)
            } else {
                old(self).core.vol@
            }),
            final(self).core.vol@.inodes == old(self).core.vol@.inodes,
            final(self).core.vol@.data == old(self).core.vol@.data,
            final(self).core.vol@.limits == old(self).core.vol@.limits,
            final(self).core.vol@.sb.next_ino == old(self).core.vol@.sb.next_ino,
    {
        proof {
            reveal(with_attr_tree);
        }
        if self.core.vol.sb.xattr_tree_root == 0 {
            match self.core.vol.allocate_block() {
                Some(root) => {
                    self.core.vol.set_root_cell(XATTR_TREE_NODE_TYPE, root);
                    let mut sb = self.core.vol.sb;
                    sb.xattr_tree_root = root;
                    sb.fs_features = sb.fs_features | version::FS_FEATURE_XATTR;
                    self.core.vol.set_superblock(sb);
                },
                None => {
                    return false;
                },
            }
        }
        true
    }

    /// Sets an attribute. What is set under the name of an access list has to
    /// be one, and sets the permission bits of the inode.
    pub fn setxattr(
        &mut self,
        ino: u64,
        name: &str,
        value: &[u8],
        flags: i32,
        now: u64,
    ) -> (r: Result<(), VfsError>)
        requires
            old(self).wf(),
            old(self).core.can_stage(),
        ensures
            final(self).wf(),
            final(self).same_storage(old(self)),
            final(self).core.page_cache == old(self).core.page_cache,
            final(self).core.commit_wake == old(self).core.commit_wake,
            ({
                let v = old(self).core.vol@;
                let v1 = with_attr_tree(v);
                if ino == SCRUB_INO || ino == HEALTH_INO {
                    &&& r matches Err(e) && e.errno == posix::EPERM
                    &&& *final(self) == *old(self)
                } else if !v.inodes.contains_key(ino) {
                    &&& r matches Err(e) && e.errno == posix::ENOENT
                    &&& *final(self) == *old(self)
                } else if vfs_acl::judged(name@, value@) is Err {
                    &&& r matches Err(e) && e.errno == posix::EINVAL
                    &&& *final(self) == *old(self)
                } else if !can_have_attrs(v) {
                    &&& r matches Err(e) && e.errno == posix::ENOSPC
                    &&& final(self).core.vol@ == v
                    &&& final(self).core.commit_due == old(self).core.commit_due
                    &&& filesystem::staged(old(self).core, final(self).core, now, 0)
                } else {
                    let is_symlink = posix::type_of(v.inodes[ino].mode) == posix::S_IFLNK;
                    &&& filesystem::staged(old(self).core, final(self).core, now, 1)
                    &&& match v1.set_refused(ino, name@, value@, flags, is_symlink) {
                        Some(kind) => {
                            &&& r matches Err(e) && e.errno == vfs::errno_of(kind)
                            &&& final(self).core.vol@ == v1
                            &&& final(self).core.commit_due == old(self).core.commit_due
                        },
                        None => {
                            &&& r is Ok
                            &&& final(self).core.vol@ == v1.with_attrs(
                                ino,
                                v1.attrs_after_set(
                                    ino,
                                    name@,
                                    value@,
                                    xattr::class_of(name@)->0,
                                ),
                            ).with_inode(
                                inode_after_set(
                                    v.inodes[ino],
                                    name@,
                                    vfs_acl::judged(name@, value@)->Ok_0,
                                    now,
                                ),
                            )
                            &&& final(self).core.commit_due
                        },
                    }
                }
            }),
    {
        if ino == SCRUB_INO || ino == HEALTH_INO {
            return Err(VfsError::new(posix::EPERM));
        }
        let mut inode = match self.core.get_inode(ino) {
            Ok(inode) => inode,
            Err(_) => {
                return Err(VfsError::new(posix::ENOENT));
            },
        };
        let ghost v = self.core.vol@;
        let is_symlink = posix::is_lnk(inode.mode);
        let is_access = text::same_text(name, ACL_ACCESS_XATTR);
        let bits: u32 = match vfs_acl::judge_acl(name, value) {
            Ok(b) => b,
            Err(e) => {
                return Err(VfsError::from_io(&e));
            },
        };
        if !self.ensure_attr_tree() {
            let _ = self.core.stage(now, 0);
            return Err(VfsError::new(posix::ENOSPC));
        }
        match self.core.vol.set_attr(ino, name, value, flags, is_symlink) {
            Ok(_) => {},
            Err(e) => {
                let _ = self.core.stage(now, 1);
                return Err(VfsError::from_io(&e));
            },
        }
        if is_access {
            inode.mode = (inode.mode & !0o777u32) | bits;
        }
        inode.ctime = now as i64;
        let _ = self.core.put_inode(inode);
        let _ = self.core.stage(now, 1);
        self.core.commit_due = true;
        Ok(())
    }

    /// Removes an attribute. Access lists are not removed this way. As with
    /// every change of an attribute, the time of the last change of the inode is
    /// `now`.
    pub fn removexattr(&mut self, ino: u64, name: &str, now: u64) -> (r: Result<(), VfsError>)
        requires
            old(self).wf(),
            old(self).core.can_stage(),
        ensures
            final(self).wf(),
            final(self).same_storage(old(self)),
            final(self).core.page_cache == old(self).core.page_cache,
            final(self).core.commit_wake == old(self).core.commit_wake,
            ({
                let v = old(self).core.vol@;
                if ino == SCRUB_INO || ino == HEALTH_INO {
                    &&& r matches Err(e) && e.errno == posix::EPERM
                    &&& *final(self) == *old(self)
                } else if is_acl_name(name@) {
                    &&& r matches Err(e) && e.errno == posix::EACCES
                    &&& *final(self) == *old(self)
                } else if !v.inodes.contains_key(ino) {
                    &&& r matches Err(e) && e.errno == posix::ENOENT
                    &&& *final(self) == *old(self)
                } else if v.sb.xattr_tree_root == 0 || !v.has_attr(ino, name@) {
                    &&& r matches Err(e) && e.errno == posix::ENODATA
                    &&& final(self).core.vol@ == v
                    &&& final(self).core.commit_due == old(self).core.commit_due
                    &&& filesystem::staged(old(self).core, final(self).core, now, 0)
                } else {
                    &&& r is Ok
                    &&& final(self).core.vol@ == v.with_attrs(
                        ino,
                        v.attrs(ino).remove(volume::attr_pos(v.attrs(ino), name@) as int),
                    ).with_inode(Inode { ctime: now as i64, ..v.inodes[ino] })
                    &&& final(self).core.commit_due
                    &&& filesystem::staged(old(self).core, final(self).core, now, 1)
                }
            }),
    {
        if ino == SCRUB_INO || ino == HEALTH_INO {
            return Err(VfsError::new(posix::EPERM));
        }
        if text::same_text(name, ACL_ACCESS_XATTR) || text::same_text(name, ACL_DEFAULT_XATTR) {
            return Err(VfsError::new(posix::EACCES));
        }
        let mut inode = match self.core.get_inode(ino) {
            Ok(inode) => inode,
            Err(_) => {
                return Err(VfsError::new(posix::ENOENT));
            },
        };
        let existed = self.core.vol.sb.xattr_tree_root != 0 && self.core.vol.remove_attr(ino, name);
        if !existed {
            let _ = self.core.stage(now, 0);
            return Err(VfsError::new(posix::ENODATA));
        }
        inode.ctime = now as i64;
        let _ = self.core.put_inode(inode);
        let _ = self.core.stage(now, 1);
        self.core.commit_due = true;
        Ok(())
    }
}

/// The position of a name in attributes that have it.
proof fn lemma_attr_pos(s: Seq<volume::Attr>, name: Seq<char>)
    ensures
        volume::attr_pos(s, name) <= s.len(),
        volume::attr_pos(s, name) < s.len() ==> s[volume::attr_pos(s, name) as int].name == name,
        forall|i: int| 0 <= i < volume::attr_pos(s, name) ==> (#[trigger] s[i]).name != name,
    decreases s.len(),
{
    if s.len() > 0 && s[0].name != name {
        let t = s.drop_first();
        lemma_attr_pos(t, name);
        let p = volume::attr_pos(t, name) as int;
        if p < t.len() {
            assert(t[p] == s[p + 1]);
        }
        assert forall|i: int| 0 <= i < volume::attr_pos(s, name) implies (#[trigger] s[i]).name
            != name by {
            if i > 0 {
                assert(t[i - 1] == s[i]);
            }
        }
    }
}

/// A position that has the name, with none before it, is the position of it.
proof fn lemma_attr_pos_is(s: Seq<volume::Attr>, name: Seq<char>, p: int)
    requires
        0 <= p < s.len(),
        s[p].name == name,
        forall|i: int| 0 <= i < p ==> (#[trigger] s[i]).name != name,
    ensures
        volume::attr_pos(s, name) == p,
{
    lemma_attr_pos(s, name);
    let q = volume::attr_pos(s, name) as int;
    if q < p {
        assert(s[q].name != name);
    }
    if p < q {
        assert(s[p].name != name);
    }
}

/// An attribute that was set is read back, and every other attribute of the
/// inode is there as before.
pub proof fn set_attribute_is_read_back(
    v: VolumeView,
    ino: u64,
    name: Seq<char>,
    value: Seq<u8>,
    class: u8,
    other: Seq<char>,
)
    ensures
        ({
            let after = v.with_attrs(ino, v.attrs_after_set(ino, name, value, class));
            let attrs = after.attrs(ino);
            &&& after.has_attr(ino, name)
            &&& attrs[volume::attr_pos(attrs, name) as int].value == value
            &&& other != name ==> after.has_attr(ino, other) == v.has_attr(ino, other)
            &&& other != name && v.has_attr(ino, other) ==> attrs[volume::attr_pos(
                attrs,
                other,
            ) as int] == v.attrs(ino)[volume::attr_pos(v.attrs(ino), other) as int]
        }),
{
    let old_attrs = v.attrs(ino);
    let after = v.with_attrs(ino, v.attrs_after_set(ino, name, value, class));
    let attrs = after.attrs(ino);
    lemma_attr_pos(old_attrs, name);
    let p = volume::attr_pos(old_attrs, name) as int;
    assert(attrs[p].name == name);
    assert forall|i: int| 0 <= i < p implies (#[trigger] attrs[i]).name != name by {
        assert(attrs[i] == old_attrs[i]);
    }
    lemma_attr_pos_is(attrs, name, p);
    if other != name {
        lemma_attr_pos(old_attrs, other);
        lemma_attr_pos(attrs, other);
        let q = volume::attr_pos(old_attrs, other) as int;
        let q2 = volume::attr_pos(attrs, other) as int;
        if q < old_attrs.len() {
            assert(attrs[q] == old_attrs[q]);
            assert forall|i: int| 0 <= i < q implies (#[trigger] attrs[i]).name != other by {
                if i != p {
                    assert(attrs[i] == old_attrs[i]);
                }
            }
            lemma_attr_pos_is(attrs, other, q);
        } else if q2 < attrs.len() {
            assert(q2 != p);
            assert(attrs[q2] == old_attrs[q2]);
            assert(old_attrs[q2].name != other);
        }
    }
}

/// An attribute that was removed is gone, if the inode had only one of the
/// name.
pub proof fn removed_attribute_is_gone(v: VolumeView, ino: u64, name: Seq<char>)
    requires
        v.has_attr(ino, name),
        forall|i: int, j: int|
            0 <= i < j < v.attrs(ino).len() ==> !((#[trigger] v.attrs(ino)[i]).name == name && (
            #[trigger] v.attrs(ino)[j]).name == name),
    ensures
        !v.with_attrs(
            ino,
            v.attrs(ino).remove(volume::attr_pos(v.attrs(ino), name) as int),
        ).has_attr(ino, name),
{
    let s = v.attrs(ino);
    let p = volume::attr_pos(s, name) as int;
    let t = s.remove(p);
    lemma_attr_pos(s, name);
    lemma_attr_pos(t, name);
    let q = volume::attr_pos(t, name) as int;
    if q < t.len() {
        if q < p {
            assert(t[q] == s[q]);
        } else {
            assert(t[q] == s[q + 1]);
            assert(s[p].name == name && s[q + 1].name == name);
        }
    }
}

/// When an attribute is refused: a name without a known namespace; one of the
/// user's on a symbolic link; one to be made that is there, or to be replaced
/// that is not; a name of no bytes or more than 255, a value of more than
/// 65535; and attributes that take more than 4064 bytes together. What is none
/// of these is set.
pub proof fn attributes_are_refused_for_a_reason(
    v: VolumeView,
    ino: u64,
    name: Seq<char>,
    value: Seq<u8>,
    flags: i32,
    is_symlink: bool,
)
    ensures
        ({
            let there = exists|i: int|
                0 <= i < v.attrs(ino).len() && (#[trigger] v.attrs(ino)[i]).name == name;
            let after = v.attrs_after_set(ino, name, value, xattr::class_of(name)->0);
            let raws = after.map_values(|a: volume::Attr| a.raw());
            let why = v.set_refused(ino, name, value, flags, is_symlink);
            &&& xattr::class_of(name) is None ==> why == Some(ErrorKind::InvalidInput)
            &&& xattr::class_of(name) matches Some(class) ==> {
                let barred = is_symlink && class == 0;
                let exists_already = flags == 1 && there;
                let missing = flags == 2 && !there;
                let fit = forall|i: int|
                    0 <= i < raws.len() ==> 1 <= (#[trigger] raws[i]).name.len() <= 255
                        && raws[i].value.len() <= 65535;
                &&& barred ==> why == Some(ErrorKind::Unsupported)
                &&& !barred && exists_already ==> why == Some(ErrorKind::AlreadyExists)
                &&& !barred && missing ==> why == Some(ErrorKind::NotFound)
                &&& !barred && !exists_already && !missing && !fit ==> why == Some(
                    ErrorKind::InvalidInput,
                )
                &&& !barred && !exists_already && !missing && fit && xattr::region(raws).len()
                    > 4064 ==> why == Some(ErrorKind::StorageFull)
                &&& !barred && !exists_already && !missing && fit && xattr::region(raws).len()
                    <= 4064 ==> why is None
            }
        }),
{
    reveal(VolumeView::set_refused);
    let s = v.attrs(ino);
    lemma_attr_pos(s, name);
    let p = volume::attr_pos(s, name) as int;
    if p < s.len() {
        assert(s[p].name == name);
    } else {
        assert forall|i: int| 0 <= i < s.len() implies (#[trigger] s[i]).name != name by {}
    }
    let after = v.attrs_after_set(ino, name, value, xattr::class_of(name)->0);
    let raws = after.map_values(|a: volume::Attr| a.raw());
    assert(xattr::all_fit(raws) <==> (forall|i: int|
        0 <= i < raws.len() ==> 1 <= (#[trigger] raws[i]).name.len() <= 255 && raws[i].value.len()
            <= 65535)) by {
        if xattr::all_fit(raws) {
            assert forall|i: int| 0 <= i < raws.len() implies 1 <= (#[trigger] raws[i]).name.len()
                <= 255 && raws[i].value.len() <= 65535 by {
                assert(raws[i].fits());
            }
        }
    }
}

/// Setting an attribute moves the time of the last change of the inode, and
/// changes nothing else of it; but the access list brings its permission bits.
pub proof fn setting_an_attribute_touches_the_inode(
    inode: Inode,
    name: Seq<char>,
    acl_bits: u32,
    now: u64,
)
    requires
        acl_bits <= 0o777,
    ensures
        ({
            let after = inode_after_set(inode, name, acl_bits, now);
            &&& after.ctime == now as i64
            &&& after == (Inode { mode: after.mode, ctime: after.ctime, ..inode })
            &&& name != "system.posix_acl_access"@ ==> after.mode == inode.mode
            &&& name == "system.posix_acl_access"@ ==> after.mode & 0o777 == acl_bits && after.mode
                & !0o777u32 == inode.mode & !0o777u32
        }),
{
    let m = inode.mode;
    assert(((m & !0o777u32) | acl_bits) & 0o777 == acl_bits && ((m & !0o777u32) | acl_bits)
        & !0o777u32 == m & !0o777u32) by (bit_vector)
        requires
            acl_bits <= 0o777,
    ;
}

/// Attributes of one inode leave those of every other, and everything else of
/// the volume, as they were.
pub proof fn attributes_of_others_stay(
    v: VolumeView,
    ino: u64,
    attrs: Seq<volume::Attr>,
    other: u64,
)
    requires
        other != ino,
    ensures
        ({
            let after = v.with_attrs(ino, attrs);
            &&& after.attrs(ino) == attrs
            &&& after.attrs(other) == v.attrs(other)
            &&& after == (VolumeView { xattrs: after.xattrs, ..v })
        }),
{
}

/// The first attribute of a volume makes the tree for them: its root is a block
/// that was set aside, it goes out with the transaction, and the feature is
/// recorded. With a tree nothing is made.
pub proof fn first_attribute_makes_the_tree(v: VolumeView)
    ensures
        v.sb.xattr_tree_root != 0 ==> with_attr_tree(v) == v,
        v.sb.xattr_tree_root == 0 && v.fresh.len() > 0 ==> {
            let w = with_attr_tree(v);
            &&& w.sb.xattr_tree_root == v.fresh.last()
            &&& w.root_cells[XATTR_TREE_NODE_TYPE] == v.fresh.last()
            &&& w.fresh == v.fresh.drop_last()
            &&& w.sb.fs_features & 1 == 1
            &&& w.sb.fs_features | 1 == v.sb.fs_features | 1
            &&& w.inodes == v.inodes && w.dirs == v.dirs && w.xattrs == v.xattrs
        },
{
    reveal(with_attr_tree);
    let f = v.sb.fs_features;
    assert((f | 1) & 1 == 1 && (f | 1) | 1 == f | 1) by (bit_vector);
}

} // verus!
