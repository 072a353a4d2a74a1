//! What the stored access lists say of the operations.

use crate::common::text;
use crate::error::{Error, ErrorKind};
use crate::fs::filesystem::LionFS;
use crate::fs::vfs::VfsSetAttr;
use crate::fs::vfs_attrs;
use crate::fs::vfs_impl;
use crate::fs::volume;
use crate::fs::volume::VolumeView;
use crate::security::posix_acl;
use crate::security::posix_acl::{AclEntry, PosixAcl, ACL_ACCESS_XATTR, ACL_DEFAULT_XATTR};
use vstd::prelude::*;

verus! {

/// The access list that is stored under the name, if what is stored is one.
pub open spec fn stored_acl(v: VolumeView, ino: u64, name: Seq<char>) -> Option<Seq<AclEntry>> {
    if v.sb.xattr_tree_root != 0 && v.has_attr(ino, name) {
        posix_acl::decoded(v.attrs(ino)[volume::attr_pos(v.attrs(ino), name) as int].value)
    } else {
        None
    }
}

/// The access lists that a new directory gets from its parent's default list.
#[derive(Debug)]
pub struct InheritedAcl {
    /// The encoded access list of the new directory.
    pub access: Vec<u8>,
    /// The encoded default list, which the new directory gets too.
    pub default: Vec<u8>,
    /// The permission bits that the access list stands for.
    pub mode_bits: u32,
}

/// What inherited access lists are.
pub struct AclGift {
    /// The encoded access list of the new directory.
    pub access: Seq<u8>,
    /// The encoded default list.
    pub default: Seq<u8>,
    /// The permission bits that the access list stands for.
    pub mode_bits: u32,
}

impl InheritedAcl {
    /// What the lists are.
    pub open spec fn view(&self) -> AclGift {
        AclGift { access: self.access@, default: self.default@, mode_bits: self.mode_bits }
    }
}

/// The access list that a change of the mode makes of an inode's own.
#[derive(Debug)]
pub struct ChmodAcl {
    /// The encoded list.
    pub access: Vec<u8>,
    /// The permission bits that it stands for.
    pub mode_bits: u32,
}

/// What a changed access list is.
pub struct AclChange {
    /// The encoded list.
    pub access: Seq<u8>,
    /// The permission bits that it stands for.
    pub mode_bits: u32,
}

impl ChmodAcl {
    /// What the list is.
    pub open spec fn view(&self) -> AclChange {
        AclChange { access: self.access@, mode_bits: self.mode_bits }
    }
}

/// What a new directory of this mode gets from the default list of its parent,
/// if the parent has one.
#[verifier::opaque]
pub open spec fn gift_of(v: VolumeView, parent: u64, mode: u32) -> Option<AclGift> {
    match stored_acl(v, parent, ACL_DEFAULT_XATTR@) {
        Some(s) => Some(
            AclGift {
                access: posix_acl::encoded(posix_acl::inherited(s, mode)),
                default: posix_acl::encoded(s),
                mode_bits: posix_acl::mode_bits_of(posix_acl::inherited(s, mode)),
            },
        ),
        None => None,
    }
}

/// What a change of the mode makes of the access list of an inode, if it has
/// one.
#[verifier::opaque]
pub open spec fn chmod_of(v: VolumeView, ino: u64, attr: VfsSetAttr) -> Option<AclChange> {
    match (attr.mode, stored_acl(v, ino, ACL_ACCESS_XATTR@)) {
        (Some(mode), Some(s)) => Some(
            AclChange {
                access: posix_acl::encoded(posix_acl::after_chmod(s, mode)),
                mode_bits: posix_acl::mode_bits_of(posix_acl::after_chmod(s, mode)),
            },
        ),
        _ => None,
    }
}

/// What the access list of an inode says of an access, if it has one.
pub open spec fn acl_verdict(v: VolumeView, ino: u64, uid: u32, gid: u32, mask: i32) -> Option<
    bool,
> {
    match stored_acl(v, ino, ACL_ACCESS_XATTR@) {
        Some(s) => Some(
            posix_acl::allows(
                s,
                uid,
                gid,
                v.inodes[ino].uid,
                v.inodes[ino].gid,
                vfs_impl::perm_of_mask(mask),
            ),
        ),
        None => None,
    }
}

/// What the value of an attribute is worth as an access list: its permission
/// bits, or why it is none.
#[verifier::opaque]
pub open spec fn judged(name: Seq<char>, value: Seq<u8>) -> Result<u32, ErrorKind> {
    if !vfs_attrs::is_acl_name(name) {
        Ok(0)
    } else {
        match posix_acl::decoded(value) {
            Some(s) => if posix_acl::valid(s) {
                Ok(posix_acl::mode_bits_of(s))
            } else {
                Err(ErrorKind::InvalidInput)
            },
            None => Err(ErrorKind::InvalidInput),
        }
    }
}

/// What the value of an attribute is worth as an access list.
pub fn judge_acl(name: &str, value: &[u8]) -> (r: Result<u32, Error>)
    ensures
        match judged(name@, value@) {
            Ok(bits) => r == Ok::<u32, Error>(bits),
            Err(kind) => r matches Err(e) && e.kind == kind && kind == ErrorKind::InvalidInput,
        },
{
    proof {
        reveal(judged);
    }
    if !text::same_text(name, ACL_ACCESS_XATTR) && !text::same_text(name, ACL_DEFAULT_XATTR) {
        return Ok(0);
    }
    match PosixAcl::decode(value) {
        Ok(acl) => match acl.validate() {
            Ok(()) => Ok(acl.mode_bits()),
            Err(e) => Err(e),
        },
        Err(e) => Err(e),
    }
}

impl LionFS {
    /// The access list that is stored under the name. What cannot be decoded
    /// counts as none.
    fn read_acl(&self, ino: u64, name: &str) -> (r: Option<PosixAcl>)
        requires
            self.wf(),
        ensures
            match stored_acl(self.core.vol@, ino, name@) {
                Some(s) => r matches Some(acl) && acl.entries@ == s,
                None => r is None,
            },
    {
        if self.core.vol.sb.xattr_tree_root == 0 {
            return None;
        }
        match self.core.vol.get_attr(ino, name) {
            Some(value) => match PosixAcl::decode(value.as_slice()) {
                Ok(acl) => Some(acl),
                Err(_) => None,
            },
            None => None,
        }
    }

    /// What the access list of an inode says of an access, if it has one.
    pub fn acl_allows(&self, ino: u64, uid: u32, gid: u32, mask: i32) -> (r: Option<bool>)
        requires
            self.wf(),
        ensures
            self.core.vol@.inodes.contains_key(ino) ==> r == acl_verdict(
                self.core.vol@,
                ino,
                uid,
                gid,
                mask,
            ),
            !self.core.vol@.inodes.contains_key(ino) ==> r is None,
    {
        let inode = match self.core.get_inode(ino) {
            Ok(inode) => inode,
            Err(_) => {
                return None;
            },
        };
        match self.read_acl(ino, ACL_ACCESS_XATTR) {
            Some(acl) => Some(
                acl.evaluate(uid, gid, inode.uid, inode.gid, vfs_impl::mask_to_perm(mask)),
            ),
            None => None,
        }
    }

    /// What a change of attributes makes of the access list of an inode, if it
    /// has one and the mode is changed.
    pub fn chmod_acl(&self, ino: u64, attr: &VfsSetAttr) -> (r: Option<ChmodAcl>)
        requires
            self.wf(),
        ensures
            match chmod_of(self.core.vol@, ino, *attr) {
                Some(list) => r matches Some(acl) && acl@ == list,
                None => r is None,
            },
    {
        proof {
            reveal(chmod_of);
        }
        match attr.mode {
            Some(mode) => match self.read_acl(ino, ACL_ACCESS_XATTR) {
                Some(acl) => {
                    let updated = acl.apply_chmod(mode);
                    Some(ChmodAcl { access: updated.encode(), mode_bits: updated.mode_bits() })
                },
                None => None,
            },
            None => None,
        }
    }

    /// The access lists that a new directory of this mode gets from its
    /// parent, if the parent has a default list.
    pub fn inherited_acl(&self, parent: u64, mode: u32) -> (r: Option<InheritedAcl>)
        requires
            self.wf(),
        ensures
            match gift_of(self.core.vol@, parent, mode) {
                Some(gift) => r matches Some(acl) && acl@ == gift,
                None => r is None,
            },
    {
        proof {
            reveal(gift_of);
        }
        match self.read_acl(parent, ACL_DEFAULT_XATTR) {
            Some(acl) => {
                let access = acl.inherit_access_from_default(mode);
                Some(
                    InheritedAcl {
                        access: access.encode(),
                        default: acl.encode(),
                        mode_bits: access.mode_bits(),
                    },
                )
            },
            None => None,
        }
    }
}

/// An access list that is set is the one that is in force from then on.
pub proof fn set_list_is_in_force(v: VolumeView, ino: u64, s: Seq<AclEntry>, class: u8)
    requires
        v.sb.xattr_tree_root != 0,
        posix_acl::valid(s),
    ensures
        ({
            let name = ACL_ACCESS_XATTR@;
            let value = posix_acl::encoded(s);
            let after = v.with_attrs(ino, v.attrs_after_set(ino, name, value, class));
            &&& judged(name, value) == Ok::<u32, ErrorKind>(posix_acl::mode_bits_of(s))
            &&& stored_acl(after, ino, name) == Some(s)
        }),
{
    reveal(judged);
    posix_acl::encoding_round_trips(s);
    vfs_attrs::set_attribute_is_read_back(
        v,
        ino,
        ACL_ACCESS_XATTR@,
        posix_acl::encoded(s),
        class,
        ACL_ACCESS_XATTR@,
    );
}

/// The access list of an inode decides if it has one that can be decoded: for
/// its owner and group, and for what the mask asks for.
pub proof fn stored_list_decides(
    v: VolumeView,
    ino: u64,
    uid: u32,
    gid: u32,
    mask: i32,
    s: Seq<AclEntry>,
)
    requires
        v.sb.xattr_tree_root != 0,
        v.has_attr(ino, "system.posix_acl_access"@),
        posix_acl::decoded(
            v.attrs(ino)[volume::attr_pos(v.attrs(ino), "system.posix_acl_access"@) as int].value,
        ) == Some(s),
    ensures
        acl_verdict(v, ino, uid, gid, mask) == Some(
            posix_acl::allows(
                s,
                uid,
                gid,
                v.inodes[ino].uid,
                v.inodes[ino].gid,
                (mask & 7) as u16,
            ),
        ),
{
    vfs_impl::mask_asks_for_its_bits(mask);
}

/// Without an attribute tree, or without the attribute, no list decides.
pub proof fn no_list_decides_nothing(v: VolumeView, ino: u64, uid: u32, gid: u32, mask: i32)
    requires
        v.sb.xattr_tree_root == 0 || !v.has_attr(ino, "system.posix_acl_access"@),
    ensures
        acl_verdict(v, ino, uid, gid, mask) is None,
{
}

/// A new directory takes over the default list of its parent, both as its own
/// default list and, limited by the mode, as its access list; without one it
/// gets no list.
pub proof fn default_list_is_passed_on(v: VolumeView, parent: u64, mode: u32)
    ensures
        stored_acl(v, parent, "system.posix_acl_default"@) is None ==> gift_of(v, parent, mode)
            is None,
        stored_acl(v, parent, "system.posix_acl_default"@) matches Some(s) ==> (gift_of(
            v,
            parent,
            mode,
        ) matches Some(gift) && {
            &&& gift.default == posix_acl::encoded(s)
            &&& gift.access == posix_acl::encoded(posix_acl::inherited(s, mode))
            &&& gift.mode_bits == posix_acl::mode_bits_of(posix_acl::inherited(s, mode))
        }),
{
    reveal(gift_of);
}

/// A change of the mode changes the access list that is stored, and nothing
/// else does: no mode was asked for, or no list is stored.
pub proof fn mode_changes_the_stored_list(v: VolumeView, ino: u64, attr: VfsSetAttr)
    ensures
        chmod_of(v, ino, attr) is Some <==> attr.mode is Some && stored_acl(
            v,
            ino,
            "system.posix_acl_access"@,
        ) is Some,
        chmod_of(v, ino, attr) matches Some(change) ==> {
            let s = stored_acl(v, ino, "system.posix_acl_access"@)->0;
            &&& change.access == posix_acl::encoded(posix_acl::after_chmod(s, attr.mode->0))
            &&& change.mode_bits == posix_acl::mode_bits_of(
                posix_acl::after_chmod(s, attr.mode->0),
            )
        },
{
    reveal(chmod_of);
}

/// A value is worth the bits of the list that it encodes if that list is
/// complete; other attributes are worth nothing; all else is refused.
pub proof fn list_is_judged_by_its_value(name: Seq<char>, value: Seq<u8>)
    ensures
        ({
            let list_name = name == "system.posix_acl_access"@ || name
                == "system.posix_acl_default"@;
            let sound = posix_acl::decoded(value) matches Some(s) && posix_acl::valid(s);
            &&& !list_name ==> judged(name, value) == Ok::<u32, ErrorKind>(0)
            &&& list_name && sound ==> judged(name, value) == Ok::<u32, ErrorKind>(
                posix_acl::mode_bits_of(posix_acl::decoded(value)->0),
            )
            &&& list_name && !sound ==> judged(name, value) == Err::<u32, ErrorKind>(
                ErrorKind::InvalidInput,
            )
        }),
{
    reveal(judged);
}

} // verus!
