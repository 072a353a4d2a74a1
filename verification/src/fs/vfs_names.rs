//! The operations on names: making, linking and unlinking inodes.

use crate::common::version;
use crate::fs::extents;
use crate::fs::filesystem;
use crate::fs::filesystem::LionFS;
use crate::fs::listing_laws;
use crate::fs::names_laws;
use crate::fs::page_cache::PageCache;
use crate::fs::placement;
use crate::fs::vfs::{VfsAttr, VfsCreate, VfsError, VfsKind};
use crate::fs::vfs_acl;
use crate::fs::vfs_acl::{AclGift, InheritedAcl};
use crate::fs::vfs_impl;
use crate::fs::volume;
use crate::fs::volume::{Entry, VolumeView};
use crate::ondisk::serialization::{Extent, Inode, Superblock, BLOCK_SIZE};
use crate::posix;
use crate::security::posix_acl;
use crate::security::posix_acl::{ACL_ACCESS_XATTR, ACL_DEFAULT_XATTR};
use vstd::prelude::*;

verus! {

/// The mode with its permission bits replaced by those of an access list.
pub open spec fn with_acl_bits(mode: u32, bits: u32) -> u32 {
    (mode & !0o777u32) | bits
}

/// `inode` is a new one.
pub open spec fn is_new_inode(
    inode: Inode,
    ino: u64,
    mode: u32,
    create: VfsCreate,
    links: u32,
    now: u64,
) -> bool {
    &&& inode.ino == ino
    &&& inode.mode == mode
    &&& inode.uid == create.uid
    &&& inode.gid == create.gid
    &&& inode.links_count == links
    &&& inode.flags == 0
    &&& inode.padding1 == 0
    &&& inode.size == 0
    &&& inode.ctime == now as i64
    &&& inode.mtime == now as i64
    &&& inode.atime == now as i64
    &&& inode.extent_count == 0
    &&& inode.checksum == 0
    &&& inode.spill_extent_root == 0
    &&& forall|i: int|
        0 <= i < 7 ==> #[trigger] inode.extents@[i] == (Extent {
            logical_start: 0,
            physical_start: 0,
            length: 0,
        })
}

/// The volume once a new directory has its access lists. They are set only on
/// a volume that has an attribute tree; the default list only if the access
/// list could be set.
#[verifier::opaque]
pub open spec fn acl_inherited(v: VolumeView, ino: u64, acl: AclGift) -> VolumeView {
    let access = ACL_ACCESS_XATTR@;
    let default = ACL_DEFAULT_XATTR@;
    if v.set_refused(ino, access, acl.access, 0, false) is Some {
        v
    } else {
        let v1 = v.with_attrs(
            ino,
            v.attrs_after_set(
                ino,
                access,
                acl.access,
                crate::ondisk::xattr::class_of(access)->0,
            ),
        );
        let v2 = VolumeView {
            sb: Superblock {
                fs_features: v1.sb.fs_features | version::FS_FEATURE_XATTR,
                ..v1.sb
            },
            ..v1
        };
        if v2.set_refused(ino, default, acl.default, 0, false) is Some {
            v2
        } else {
            v2.with_attrs(
                ino,
                v2.attrs_after_set(
                    ino,
                    default,
                    acl.default,
                    crate::ondisk::xattr::class_of(default)->0,
                ),
            )
        }
    }
}

/// Access lists touch neither inodes nor names nor contents.
pub proof fn lemma_acl_keeps_names(v: VolumeView, ino: u64, acl: AclGift)
    ensures
        acl_inherited(v, ino, acl).inodes == v.inodes,
        acl_inherited(v, ino, acl).dirs == v.dirs,
        acl_inherited(v, ino, acl).data == v.data,
        acl_inherited(v, ino, acl).limits == v.limits,
        acl_inherited(v, ino, acl).sb.next_ino == v.sb.next_ino,
{
    reveal(acl_inherited);
}

/// The mode of a new directory is that of a directory, with access lists and
/// without.
proof fn lemma_made_mode(v: VolumeView, parent: u64, mode: u32)
    ensures
        vfs_acl::gift_of(v, parent, mode) matches Some(g) ==> g.mode_bits <= 0o777 && with_acl_bits(
            mode | 0o040000,
            g.mode_bits,
        ) & 0o170000 == (mode | 0o040000) & 0o170000,
        mode & 0o130000 == 0 ==> (mode | 0o040000) & 0o170000 == 0o040000,
{
    reveal(vfs_acl::gift_of);
    assert(mode & 0o130000 == 0 ==> (mode | 0o040000) & 0o170000 == 0o040000) by (bit_vector);
    if let Some(g) = vfs_acl::gift_of(v, parent, mode) {
        let list = vfs_acl::stored_acl(v, parent, ACL_DEFAULT_XATTR@)->0;
        posix_acl::lists_give_no_other_bits(posix_acl::inherited(list, mode));
        let bits = g.mode_bits;
        assert((((mode | 0o040000) & !0o777u32) | bits) & 0o170000 == (mode | 0o040000)
            & 0o170000) by (bit_vector)
            requires
                bits <= 0o777,
        ;
    }
}

/// The volume with the entries of a new directory for itself and its parent,
/// as far as there is room.
#[verifier::opaque]
pub open spec fn with_dots(v: VolumeView, ino: u64, parent: u64) -> VolumeView {
    v.with_entry_if_taken(ino, Entry { name: seq!['.'], ino, file_type: 2 }).with_entry_if_taken(
        ino,
        Entry { name: seq!['.', '.'], ino: parent, file_type: 2 },
    )
}

/// An entry that names a new file.
pub open spec fn new_entry(name: Seq<char>, ino: u64, mode: u32) -> Entry {
    Entry { name, ino, file_type: posix::entry_type(mode) }
}

/// A new inode.
fn new_inode(ino: u64, mode: u32, create: &VfsCreate, links: u32, now: u64) -> (r: Inode)
    ensures
        is_new_inode(r, ino, mode, *create, links, now),
        r.compression_algo == 0,
        r.encryption_algo == 0,
        r.key_id == 0,
{
    let mut inode = Inode::zeroed(ino);
    inode.mode = mode;
    inode.uid = create.uid;
    inode.gid = create.gid;
    inode.links_count = links;
    inode.ctime = now as i64;
    inode.mtime = now as i64;
    inode.atime = now as i64;
    inode
}

impl LionFS {
    /// What the operations on names leave alone besides the shell.
    pub open spec fn same_storage(&self, other: &LionFS) -> bool {
        &&& self.same_shell(other)
        &&& self.core.pins == other.core.pins
        &&& self.core.node_stamp == other.core.node_stamp
    }

    fn stage_names(&mut self, now: u64, blocks: u64, wake: bool)
        requires
            old(self).wf(),
            old(self).core.can_stage(),
        ensures
            final(self).wf(),
            final(self).same_storage(old(self)),
            final(self).core.page_cache == old(self).core.page_cache,
            final(self).core.vol == old(self).core.vol,
            final(self).core.commit_due == old(self).core.commit_due,
            final(self).core.commit_wake == (old(self).core.commit_wake || wake),
            filesystem::staged(old(self).core, final(self).core, now, blocks),
    {
        let _ = self.core.stage(now, blocks);
        if wake {
            self.core.commit_wake = true;
        }
    }

    /// Writes a new inode and gives it a name; whether the directory took it.
    fn link_new(
        &mut self,
        parent_inode: Inode,
        name: &str,
        inode: Inode,
        type_byte: u8,
        now: u64,
    ) -> (ok: bool)
        requires
            old(self).wf(),
            old(self).core.vol@.inodes.contains_key(parent_inode.ino),
            old(self).core.vol@.inodes[parent_inode.ino] == parent_inode,
            extents::inode_ok(parent_inode),
            inode.ino < old(self).core.vol@.sb.next_ino,
            !old(self).core.vol@.inodes.contains_key(inode.ino),
            old(self).core.vol@.room_for_inode(inode.ino),
            placement::no_blocks(inode),
        ensures
            final(self).wf(),
            *final(self) == (LionFS { core: final(self).core, ..*old(self) }),
            final(self).core == (filesystem::SharedCore {
                vol: final(self).core.vol,
                ..old(self).core
            }),
            ok == old(self).core.vol@.takes_entry(parent_inode.ino, name@),
            final(self).core.vol@ == (if ok {
                old(self).core.vol@.with_inode(inode).with_entry(
                    parent_inode.ino,
                    Entry { name: name@, ino: inode.ino, file_type: type_byte },
                ).touched(parent_inode, now)
            } else {
                old(self).core.vol@.with_inode(inode)
            }),
    {
        proof {
            volume::lemma_inode_fits(self.core.vol, inode.ino);
        }
        let _ = self.core.put_inode(inode);
        if !self.core.vol.add_entry(parent_inode.ino, name, inode.ino, type_byte) {
            return false;
        }
        self.core.touch(parent_inode, now);
        true
    }

    /// Gives a new directory its entries for itself and its parent.
    fn add_dots(&mut self, ino: u64, parent: u64)
        requires
            old(self).wf(),
        ensures
            final(self).wf(),
            *final(self) == (LionFS { core: final(self).core, ..*old(self) }),
            final(self).core == (filesystem::SharedCore {
                vol: final(self).core.vol,
                ..old(self).core
            }),
            final(self).core.vol@ == with_dots(old(self).core.vol@, ino, parent),
            final(self).core.vol@.inodes == old(self).core.vol@.inodes,
    {
        proof {
            reveal(with_dots);
            reveal_strlit(".");
            reveal_strlit("..");
            assert("."@ =~= seq!['.']);
            assert(".."@ =~= seq!['.', '.']);
        }
        let _ = self.core.vol.add_entry(ino, ".", ino, 2);
        let _ = self.core.vol.add_entry(ino, "..", parent, 2);
    }

    /// Makes a file. `new_key` is the key that was made for it, if files are
    /// encrypted by default.
    pub fn create(
        &mut self,
        parent: u64,
        name: &str,
        create: &VfsCreate,
        new_key: Option<u64>,
        now: u64,
    ) -> (r: Result<VfsAttr, VfsError>)
        requires
            old(self).wf(),
            old(self).core.can_stage(),
        ensures
            final(self).wf(),
            final(self).same_storage(old(self)),
            final(self).core.page_cache == old(self).core.page_cache,
            final(self).core.commit_due == old(self).core.commit_due,
            final(self).core.commit_wake == (old(self).core.commit_wake || r is Ok),
            r matches Err(e) ==> e.errno == posix::EIO,
            ({
                let v = old(self).core.vol@;
                let ino = v.sb.next_ino;
                let mode = create.mode | posix::S_IFREG;
                let made = final(self).core.vol@.inodes[ino];
                if !v.inodes.contains_key(parent) || ino == u64::MAX {
                    &&& r is Err
                    &&& final(self).core.vol@ == v
                    &&& filesystem::staged(old(self).core, final(self).core, now, 0)
                } else if !v.room_for_inode(ino) {
                    &&& r is Err
                    &&& final(self).core.vol@ == v.with_number_taken()
                    &&& filesystem::staged(old(self).core, final(self).core, now, 0)
                } else {
                    &&& is_new_inode(made, ino, mode, *create, 1, now)
                    &&& made.compression_algo == v.sb.default_compression
                    &&& made.encryption_algo == v.sb.default_encryption
                    &&& made.key_id == (if v.sb.default_encryption != 0 && new_key is Some {
                        new_key->0
                    } else {
                        0
                    })
                    &&& filesystem::staged(old(self).core, final(self).core, now, 1)
                    &&& if v.takes_entry(parent, name@) {
                        &&& r == Ok::<VfsAttr, VfsError>(vfs_impl::attr_of(made))
                        &&& names_laws::shown(name@) ==> listing_laws::listed_as(
                            final(self).core,
                            parent,
                            name@,
                            ino,
                            VfsKind::RegularFile,
                        )
                        &&& r->Ok_0.kind is RegularFile
                        &&& final(self).core.vol@ == v.with_number_taken().with_inode(
                            made,
                        ).with_entry(parent, new_entry(name@, ino, mode)).touched(
                            v.inodes[parent],
                            now,
                        )
                    } else {
                        &&& r is Err
                        &&& final(self).core.vol@ == v.with_number_taken().with_inode(made)
                    }
                }
            }),
    {
        let ghost v = self.core.vol@;
        let parent_inode = match self.core.vol.read_inode(parent) {
            Some(p) => p,
            None => {
                self.stage_names(now, 0, false);
                return Err(VfsError::new(posix::EIO));
            },
        };
        let compression_algo = self.core.vol.sb.default_compression;
        let encryption_algo = self.core.vol.sb.default_encryption;
        let key_id: u64 = match new_key {
            Some(id) => if encryption_algo != 0 {
                id
            } else {
                0
            },
            None => 0,
        };
        let ino = match self.core.vol.allocate_inode() {
            Some(ino) => ino,
            None => {
                self.stage_names(now, 0, false);
                return Err(VfsError::new(posix::EIO));
            },
        };
        let mut inode = new_inode(ino, create.mode | posix::S_IFREG, create, 1, now);
        inode.compression_algo = compression_algo;
        inode.encryption_algo = encryption_algo;
        inode.key_id = key_id;
        proof {
            volume::lemma_inode_fits(old(self).core.vol, ino);
        }
        if !self.core.vol.room_for_new() {
            self.stage_names(now, 0, false);
            return Err(VfsError::new(posix::EIO));
        }
        let type_byte = posix::dirent_type(create.mode | posix::S_IFREG);
        if !self.link_new(parent_inode, name, inode, type_byte, now) {
            self.stage_names(now, 1, false);
            return Err(VfsError::new(posix::EIO));
        }
        self.stage_names(now, 1, true);
        proof {
            let mode = create.mode;
            assert((mode | 0o100000) & 0o170000 != 0o040000) by (bit_vector);
            if names_laws::shown(name@) {
                listing_laws::created_file_is_listed_as_a_file(
                    v,
                    self.core,
                    parent,
                    name@,
                    inode,
                    *create,
                    now,
                );
            }
        }
        Ok(Self::to_vfs_attr(&inode))
    }

    fn inherit_acl(&mut self, ino: u64, acl: &InheritedAcl)
        requires
            old(self).wf(),
        ensures
            final(self).wf(),
            final(self).same_storage(old(self)),
            final(self).core.page_cache == old(self).core.page_cache,
            final(self).core.active_tx == old(self).core.active_tx,
            final(self).core.current_tx_id == old(self).core.current_tx_id,
            final(self).core.committing == old(self).core.committing,
            final(self).core.commit_seq == old(self).core.commit_seq,
            final(self).core.commit_end == old(self).core.commit_end,
            final(self).core.commit_coord == old(self).core.commit_coord,
            final(self).core.commit_due == old(self).core.commit_due,
            final(self).core.commit_wake == old(self).core.commit_wake,
            final(self).core.vol@ == acl_inherited(old(self).core.vol@, ino, acl@),
    {
        proof {
            reveal(acl_inherited);
        }
        if self.core.vol.set_attr(ino, ACL_ACCESS_XATTR, acl.access.as_slice(), 0, false).is_ok() {
            let mut sb = self.core.vol.sb;
            sb.fs_features = sb.fs_features | version::FS_FEATURE_XATTR;
            self.core.vol.set_superblock(sb);
            let _ = self.core.vol.set_attr(
                ino,
                ACL_DEFAULT_XATTR,
                acl.default.as_slice(),
                0,
                false,
            );
        }
    }

    /// Makes a directory. It gets its access lists from the default list of the
    /// parent, if the parent has one.
    pub fn mkdir(
        &mut self,
        parent: u64,
        name: &str,
        create: &VfsCreate,
        now: u64,
    ) -> (r: Result<VfsAttr, VfsError>)
        requires
            old(self).wf(),
            old(self).core.can_stage(),
        ensures
            final(self).wf(),
            final(self).same_storage(old(self)),
            final(self).core.page_cache == old(self).core.page_cache,
            final(self).core.commit_due == old(self).core.commit_due,
            final(self).core.commit_wake == (old(self).core.commit_wake || r is Ok),
            r matches Err(e) ==> e.errno == posix::EIO,
            ({
                let v = old(self).core.vol@;
                let ino = v.sb.next_ino;
                let gift = vfs_acl::gift_of(v, parent, create.mode);
                let applies = gift is Some;
                let v2 = if applies {
                    acl_inherited(v.with_number_taken(), ino, gift->0)
                } else {
                    v.with_number_taken()
                };
                let plain = create.mode | posix::S_IFDIR;
                let mode = if applies {
                    with_acl_bits(plain, gift->0.mode_bits)
                } else {
                    plain
                };
                let made = final(self).core.vol@.inodes[ino];
                if !v.inodes.contains_key(parent) || ino == u64::MAX {
                    &&& r is Err
                    &&& final(self).core.vol@ == v
                    &&& filesystem::staged(old(self).core, final(self).core, now, 0)
                } else if !v.room_for_inode(ino) {
                    &&& r is Err
                    &&& final(self).core.vol@ == v2
                    &&& filesystem::staged(
                        old(self).core,
                        final(self).core,
                        now,
                        if applies {
                            1
                        } else {
                            0
                        },
                    )
                } else {
                    &&& is_new_inode(made, ino, mode, *create, 2, now)
                    &&& made.compression_algo == 0
                    &&& made.encryption_algo == 0
                    &&& made.key_id == 0
                    &&& filesystem::staged(old(self).core, final(self).core, now, 1)
                    &&& if v.takes_entry(parent, name@) {
                        &&& r == Ok::<VfsAttr, VfsError>(vfs_impl::attr_of(made))
                        &&& names_laws::shown(name@) ==> listing_laws::listed_as(
                            final(self).core,
                            parent,
                            name@,
                            ino,
                            r->Ok_0.kind,
                        )
                        &&& create.mode & 0o130000 == 0 ==> r->Ok_0.kind is Directory
                        &&& final(self).core.vol@ == with_dots(
                            v2.with_inode(made).with_entry(
                                parent,
                                new_entry(name@, ino, plain),
                            ).touched(v.inodes[parent], now),
                            ino,
                            parent,
                        )
                    } else {
                        &&& r is Err
                        &&& final(self).core.vol@ == v2.with_inode(made)
                    }
                }
            }),
    {
        let ghost v = self.core.vol@;
        let parent_inode = match self.core.vol.read_inode(parent) {
            Some(p) => p,
            None => {
                self.stage_names(now, 0, false);
                return Err(VfsError::new(posix::EIO));
            },
        };
        let inherited = self.inherited_acl(parent, create.mode);
        let ino = match self.core.vol.allocate_inode() {
            Some(ino) => ino,
            None => {
                self.stage_names(now, 0, false);
                return Err(VfsError::new(posix::EIO));
            },
        };
        proof {
            volume::lemma_inode_fits(old(self).core.vol, ino);
        }
        let mut mode: u32 = create.mode | posix::S_IFDIR;
        let mut changed: u64 = 0;
        if let Some(acl) = &inherited {
            self.inherit_acl(ino, acl);
            mode = (mode & !0o777u32) | acl.mode_bits;
            changed = 1;
        }
        proof {
            if inherited is Some {
                lemma_acl_keeps_names(v.with_number_taken(), ino, inherited->0@);
            }
        }
        if !self.core.vol.room_for_new() {
            self.stage_names(now, changed, false);
            return Err(VfsError::new(posix::EIO));
        }
        let inode = new_inode(ino, mode, create, 2, now);
        let type_byte = posix::dirent_type(create.mode | posix::S_IFDIR);
        if !self.link_new(parent_inode, name, inode, type_byte, now) {
            self.stage_names(now, 1, false);
            return Err(VfsError::new(posix::EIO));
        }
        self.add_dots(ino, parent);
        self.stage_names(now, 1, true);
        proof {
            lemma_made_mode(v, parent, create.mode);
            if names_laws::shown(name@) {
                listing_laws::made_directory_is_listed_as_a_directory(
                    v,
                    self.core,
                    parent,
                    name@,
                    inode,
                    *create,
                    vfs_acl::gift_of(v, parent, create.mode),
                    now,
                );
            }
        }
        Ok(Self::to_vfs_attr(&inode))
    }

    /// Removes a name and one link of what it stands for; what has no link
    /// left is free. What was buffered for it is dropped.
    pub fn unlink(&mut self, parent: u64, name: &str, now: u64) -> (r: Result<(), VfsError>)
        requires
            old(self).wf(),
            old(self).core.can_stage(),
            ({
                let v = old(self).core.vol@;
                let target = v.entry_ino(parent, name@);
                v.inodes.contains_key(parent) && v.has_entry(parent, name@)
                    && v.inodes.contains_key(target) ==> v.inodes[target].links_count > 0
            }),
        ensures
            final(self).wf(),
            final(self).same_storage(old(self)),
            final(self).core.commit_due == old(self).core.commit_due,
            final(self).core.commit_wake == (old(self).core.commit_wake || r is Ok),
            r matches Err(e) ==> e.errno == posix::ENOENT,
            ({
                let v = old(self).core.vol@;
                let target = v.entry_ino(parent, name@);
                if !v.inodes.contains_key(parent) || !v.has_entry(parent, name@) {
                    &&& r is Err
                    &&& final(self).core.vol@ == v
                    &&& final(self).core.page_cache == old(self).core.page_cache
                    &&& filesystem::staged(old(self).core, final(self).core, now, 0)
                } else if !v.inodes.contains_key(target) {
                    &&& r is Err
                    &&& final(self).core.vol@ == v.without_entry(parent, name@)
                    &&& final(self).core.page_cache == old(self).core.page_cache
                    &&& filesystem::staged(old(self).core, final(self).core, now, 1)
                } else {
                    &&& r is Ok
                    &&& final(self).core.vol@ == v.without_entry(parent, name@).with_inode(
                        unlinked(v.inodes[target]),
                    ).touched(v.inodes[parent], now)
                    &&& forgets(old(self).core.page_cache, final(self).core.page_cache, target)
                    &&& filesystem::staged(old(self).core, final(self).core, now, 1)
                }
            }),
    {
        let ghost v = self.core.vol@;
        let parent_inode = match self.core.vol.read_inode(parent) {
            Some(p) => p,
            None => {
                self.stage_names(now, 0, false);
                return Err(VfsError::new(posix::ENOENT));
            },
        };
        let target_ino = match self.core.vol.remove_entry(parent, name) {
            Some(ino) => ino,
            None => {
                self.stage_names(now, 0, false);
                return Err(VfsError::new(posix::ENOENT));
            },
        };
        let mut target = match self.core.vol.read_inode(target_ino) {
            Some(t) => t,
            None => {
                self.stage_names(now, 1, false);
                return Err(VfsError::new(posix::ENOENT));
            },
        };
        target.links_count = target.links_count - 1;
        if target.links_count == 0 {
            target.mode = 0;
        }
        let _ = self.core.put_inode(target);
        self.core.touch(parent_inode, now);
        self.stage_names(now, 1, true);
        proof {
            reveal(filesystem::cache_ok);
        }
        let ghost before = self.core;
        self.core.page_cache.drop_ino(target_ino);
        proof {
            lemma_tails_dropped(
                before.page_cache,
                self.core.page_cache,
                self.core.vol@.inodes,
                target_ino,
            );
        }
        Ok(())
    }

    /// Removes a directory that has no entries but itself and its parent.
    pub fn rmdir(&mut self, parent: u64, name: &str, now: u64) -> (r: Result<(), VfsError>)
        requires
            old(self).wf(),
            old(self).core.can_stage(),
            ({
                let v = old(self).core.vol@;
                let target = v.entry_ino(parent, name@);
                v.inodes.contains_key(parent) && v.has_entry(parent, name@)
                    && v.inodes.contains_key(target) ==> v.inodes[target].links_count > 0
            }),
        ensures
            final(self).wf(),
            final(self).same_storage(old(self)),
            ({
                let v = old(self).core.vol@;
                let shown = volume::real_entries(v.listing(parent));
                let pos = volume::entry_pos(shown, name@);
                if !v.inodes.contains_key(parent) || pos >= shown.len() {
                    &&& r matches Err(e) && e.errno == posix::ENOENT
                    &&& *final(self) == *old(self)
                } else if shown[pos as int].file_type != 2 {
                    &&& r matches Err(e) && e.errno == posix::ENOTDIR
                    &&& *final(self) == *old(self)
                } else if volume::real_entries(v.listing(shown[pos as int].ino)).len() > 0 {
                    &&& r matches Err(e) && e.errno == posix::ENOTEMPTY
                    &&& *final(self) == *old(self)
                } else {
                    let target = v.entry_ino(parent, name@);
                    if v.inodes.contains_key(target) {
                        &&& r is Ok
                        &&& final(self).core.vol@ == v.without_entry(parent, name@).with_inode(
                            unlinked(v.inodes[target]),
                        ).touched(v.inodes[parent], now)
                        &&& forgets(
                            old(self).core.page_cache,
                            final(self).core.page_cache,
                            target,
                        )
                        &&& final(self).core.commit_due == old(self).core.commit_due
                        &&& final(self).core.commit_wake
                        &&& filesystem::staged(old(self).core, final(self).core, now, 1)
                    } else {
                        &&& r matches Err(e) && e.errno == posix::ENOENT
                        &&& final(self).core.vol@ == v.without_entry(parent, name@)
                        &&& final(self).core.page_cache == old(self).core.page_cache
                        &&& final(self).core.commit_due == old(self).core.commit_due
                        &&& final(self).core.commit_wake == old(self).core.commit_wake
                        &&& filesystem::staged(old(self).core, final(self).core, now, 1)
                    }
                }
            }),
    {
        let ghost v = self.core.vol@;
        if self.core.vol.read_inode(parent).is_none() {
            return Err(VfsError::new(posix::ENOENT));
        }
        let entries = self.core.vol.read_entries(parent);
        let pos = volume::find_entry(&entries, name);
        if pos == entries.len() {
            return Err(VfsError::new(posix::ENOENT));
        }
        let ghost shown = volume::real_entries(v.listing(parent));
        assert(shown[pos as int] == entries@[pos as int]@);
        if entries[pos].file_type != 2 {
            return Err(VfsError::new(posix::ENOTDIR));
        }
        let inside = self.core.vol.read_entries(entries[pos].ino);
        assert(inside@.len() == volume::entries_of(inside@).len());
        if inside.len() > 0 {
            return Err(VfsError::new(posix::ENOTEMPTY));
        }
        proof {
            lemma_real_entry_found(v.listing(parent), name@);
        }
        self.unlink(parent, name, now)
    }

    /// Gives what a name stands for another name, in the same directory or in
    /// another. If it cannot be added there, the old name is put back, at the
    /// end of its directory.
    pub fn rename(
        &mut self,
        parent: u64,
        name: &str,
        newparent: u64,
        newname: &str,
        now: u64,
    ) -> (r: Result<(), VfsError>)
        requires
            old(self).wf(),
            old(self).core.can_stage(),
        ensures
            final(self).wf(),
            final(self).same_storage(old(self)),
            final(self).core.page_cache == old(self).core.page_cache,
            final(self).core.commit_due == old(self).core.commit_due,
            final(self).core.commit_wake == (old(self).core.commit_wake || r is Ok),
            r matches Err(e) ==> e.errno == posix::ENOENT,
            ({
                let v = old(self).core.vol@;
                let (ok, after) = rename_outcome(v, parent, name@, newparent, newname@, now);
                let ino = v.entry_ino(parent, name@);
                &&& r is Ok == ok
                &&& ok && names_laws::shown(newname@) ==> listing_laws::listed_as(
                    final(self).core,
                    newparent,
                    newname@,
                    ino,
                    vfs_impl::attr_of(v.inodes[ino]).kind,
                )
                &&& final(self).core.vol@ == after
                &&& filesystem::staged(
                    old(self).core,
                    final(self).core,
                    now,
                    if v.inodes.contains_key(parent) && v.has_entry(parent, name@) {
                        1
                    } else {
                        0
                    },
                )
            }),
    {
        let ghost v = self.core.vol@;
        let parent_inode = match self.core.vol.read_inode(parent) {
            Some(p) => p,
            None => {
                self.stage_names(now, 0, false);
                return Err(VfsError::new(posix::ENOENT));
            },
        };
        let target_ino = match self.core.vol.remove_entry(parent, name) {
            Some(ino) => ino,
            None => {
                self.stage_names(now, 0, false);
                return Err(VfsError::new(posix::ENOENT));
            },
        };
        let target = match self.core.vol.read_inode(target_ino) {
            Some(t) => t,
            None => {
                self.stage_names(now, 1, false);
                return Err(VfsError::new(posix::ENOENT));
            },
        };
        let file_type = posix::dirent_type(target.mode);
        let added = if parent == newparent {
            self.core.vol.add_entry(parent, newname, target_ino, file_type)
        } else {
            match self.core.vol.read_inode(newparent) {
                Some(np) => {
                    let ok = self.core.vol.add_entry(newparent, newname, target_ino, file_type);
                    if ok {
                        self.core.touch(np, now);
                    }
                    ok
                },
                None => false,
            }
        };
        if added {
            self.core.touch(parent_inode, now);
        } else {
            let _ = self.core.vol.add_entry(parent, name, target_ino, file_type);
        }
        self.stage_names(now, 1, added);
        proof {
            if added && names_laws::shown(newname@) {
                listing_laws::renamed_entry_is_listed_as_what_it_is(
                    v,
                    self.core,
                    parent,
                    name@,
                    newparent,
                    newname@,
                    now,
                );
            }
        }
        if added {
            Ok(())
        } else {
            Err(VfsError::new(posix::ENOENT))
        }
    }
}

/// Whether a name can be given to what another stands for, and the volume
/// afterwards. A name that stands for nothing is taken out. One that cannot be
/// added is put back where it was, at the end of its directory.
pub open spec fn rename_outcome(
    v: VolumeView,
    parent: u64,
    name: Seq<char>,
    newparent: u64,
    newname: Seq<char>,
    now: u64,
) -> (bool, VolumeView) {
    let target = v.entry_ino(parent, name);
    let v1 = v.without_entry(parent, name);
    if !v.inodes.contains_key(parent) || !v.has_entry(parent, name) {
        (false, v)
    } else if !v.inodes.contains_key(target) {
        (false, v1)
    } else {
        let file_type = posix::entry_type(v.inodes[target].mode);
        let moved = Entry { name: newname, ino: target, file_type };
        if !v.inodes.contains_key(newparent) || !v1.takes_entry(newparent, newname) {
            (false, v1.with_entry_if_taken(parent, Entry { name, ino: target, file_type }))
        } else if parent == newparent {
            (true, v1.with_entry(parent, moved).touched(v.inodes[parent], now))
        } else {
            (
                true,
                v1.with_entry(newparent, moved).touched(v.inodes[newparent], now).touched(
                    v.inodes[parent],
                    now,
                ),
            )
        }
    }
}

/// The inode with one link less; without a link it is free.
pub open spec fn unlinked(inode: Inode) -> Inode {
    Inode {
        links_count: (inode.links_count - 1) as u32,
        mode: if inode.links_count == 1 {
            0
        } else {
            inode.mode
        },
        ..inode
    }
}

/// `b` is `a` without anything about the file.
pub open spec fn forgets(a: PageCache, b: PageCache, ino: u64) -> bool {
    &&& b.inodes@ == a.inodes@.remove(ino)
    &&& b.gates@ == a.gates@.remove(ino)
    &&& b.enabled == a.enabled
}

/// Buffered pages stay zero past the end when one file's are dropped.
proof fn lemma_tails_dropped(a: PageCache, b: PageCache, inodes: Map<u64, Inode>, target: u64)
    requires
        filesystem::tails_zero(a, inodes),
        b.inodes@ == a.inodes@.remove(target),
    ensures
        filesystem::tails_zero(b, inodes),
{
    reveal(filesystem::tails_zero);
    assert forall|ino: u64, k: u64, j: int|
        b.pages(ino).contains_key(k) && 0 <= j < BLOCK_SIZE && k * BLOCK_SIZE + j
            >= filesystem::size_with_shadow(b, inodes, ino) implies #[trigger] b.pages(ino)[k]@[j]
        == 0 by {
        assert(ino != target);
        assert(a.pages(ino)[k]@[j] == 0);
    }
}

/// A name that is listed has an entry.
proof fn lemma_real_entry_found(s: Seq<Entry>, name: Seq<char>)
    requires
        volume::entry_pos(volume::real_entries(s), name) < volume::real_entries(s).len(),
    ensures
        volume::entry_pos(s, name) < s.len(),
{
    let p = |e: Entry| !volume::is_dot(e);
    let shown = volume::real_entries(s);
    let pos = volume::entry_pos(shown, name) as int;
    lemma_pos_has_name(shown, name);
    s.lemma_filter_contains_rev(p, shown[pos]);
    let i = choose|i: int| 0 <= i < s.len() && s[i] == shown[pos];
    lemma_pos_first(s, name, i);
}

proof fn lemma_pos_has_name(s: Seq<Entry>, name: Seq<char>)
    requires
        volume::entry_pos(s, name) < s.len(),
    ensures
        s[volume::entry_pos(s, name) as int].name == name,
    decreases s.len(),
{
    if s[0].name != name {
        lemma_pos_has_name(s.drop_first(), name);
        assert(s.drop_first()[volume::entry_pos(s, name) - 1] == s[volume::entry_pos(
            s,
            name,
        ) as int]);
    }
}

proof fn lemma_pos_first(s: Seq<Entry>, name: Seq<char>, i: int)
    requires
        0 <= i < s.len(),
        s[i].name == name,
    ensures
        volume::entry_pos(s, name) <= i,
    decreases s.len(),
{
    if s[0].name != name {
        assert(s.drop_first()[i - 1] == s[i]);
        lemma_pos_first(s.drop_first(), name, i - 1);
    }
}

} // verus!
