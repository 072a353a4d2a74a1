//! The operations on file contents: buffering, flushing, writing through and
//! changing the size.

use crate::bytes;
use crate::error::{Error, ErrorKind};
use crate::file::area;
use crate::file::writer;
use crate::fs::attr_laws;
use crate::fs::damage;
use crate::fs::filesystem;
use crate::fs::filesystem::{LionFS, SharedCore};
use crate::fs::metadata;
use crate::fs::metadata::{AttrChanges, TimeOrNow};
use crate::fs::page_cache;
use crate::fs::page_cache::{PageCache, FLUSH_HARD_LIMIT_BYTES};
use crate::fs::placement;
use crate::fs::store;
use crate::fs::vfs::{VfsAttr, VfsError, VfsSetAttr};
use crate::fs::vfs_acl;
use crate::fs::vfs_impl;
use crate::fs::vfs_impl::{HEALTH_INO, SCRUB_INO};
use crate::fs::vfs_names;
use crate::fs::volume;
use crate::fs::volume::VolumeView;
use crate::integrity::refcount::RefCountManager;
use crate::ondisk::serialization::{Inode, BLOCK_SIZE};
use crate::ondisk::xattr;
use crate::posix;
use crate::security::posix_acl::ACL_ACCESS_XATTR;
use vstd::prelude::*;

verus! {

/// Rewritten blocks at which a flush asks for a commit.
pub const FLUSH_COMMIT_BLOCKS: u64 = 1024;

/// Rewritten blocks beyond which writing through asks for a commit.
pub const WRITE_COMMIT_BLOCKS: u64 = 8192;

/// The blocks that `len` bytes at `offset` touch, and one for the inode.
pub open spec fn blocks_staged(len: int) -> int {
    len / 4096 + 2
}

/// The inode once what is buffered is flushed at `now`, but for where its blocks
/// are then.
pub open spec fn flushed_inode(core: SharedCore, ino: u64, now: u64) -> Inode {
    Inode { size: core.eff_size(ino), mtime: now as i64, ..core.vol@.inodes[ino] }
}

/// The blocks of a file of which pages are buffered.
pub open spec fn dirty_blocks(core: SharedCore, ino: u64) -> spec_fn(int) -> bool {
    store::page_blocks(core.page_cache.pages(ino))
}

/// The fresh blocks that a flush takes.
pub open spec fn flush_takes(core: SharedCore, ino: u64) -> nat {
    placement::needed(
        core.vol@.area,
        core.pins,
        ino,
        core.vol@.runs(ino),
        dirty_blocks(core, ino),
        0,
        store::size_blocks(core.eff_size(ino) as int),
    )
}

/// There is room for the blocks that a flush writes.
pub open spec fn flush_has_room(core: SharedCore, ino: u64) -> bool {
    store::has_room(
        core.vol@,
        core.pins,
        ino,
        dirty_blocks(core, ino),
        store::size_blocks(core.eff_size(ino) as int),
    )
}

/// Why a flush of buffered pages fails, if it does: the file is gone, or too
/// large, or there is no room for it.
pub open spec fn flush_fails(core: SharedCore, ino: u64) -> Option<ErrorKind> {
    if !core.vol@.inodes.contains_key(ino) {
        Some(ErrorKind::NotFound)
    } else if core.eff_size(ino) > core.vol@.limits.file_bytes {
        Some(ErrorKind::StorageFull)
    } else if !flush_has_room(core, ino) {
        Some(ErrorKind::StorageFull)
    } else {
        None
    }
}

/// The blocks that a flush of `ino` rewrites, with one for the inode.
pub open spec fn flush_blocks(core: SharedCore, ino: u64) -> u64 {
    (core.page_cache.inodes@[ino].dirty_bytes / 4096 + 1) as u64
}

/// The blocks that `b` has in use more than `a`.
pub open spec fn blocks_taken(a: VolumeView, b: VolumeView) -> int {
    area::free_in(a.area.used@) - area::free_in(b.area.used@)
}

/// `b` is `a` with the buffered pages of `ino` flushed at `now`, or with them
/// lost if the flush fails.
pub open spec fn flushed(a: SharedCore, b: SharedCore, ino: u64, now: u64) -> bool {
    &&& b.pins == a.pins
    &&& b.node_stamp == a.node_stamp
    &&& b.live_barrier == a.live_barrier
    &&& b.page_cache.inodes@ == a.page_cache.inodes@.remove(ino)
    &&& b.page_cache.gates == a.page_cache.gates
    &&& b.page_cache.enabled == a.page_cache.enabled
    &&& match flush_fails(a, ino) {
        Some(_) => {
            &&& b.vol@ == a.vol@
            &&& filesystem::staged(a, b, now, 0)
        },
        None => {
            &&& store::rewritten(
                a.vol@,
                VolumeView { damaged: a.vol@.damaged, ..b.vol@ },
                a.pins,
                flushed_inode(a, ino, now),
                a.content(ino),
                dirty_blocks(a, ino),
            )
            &&& b.vol@.damaged == a.vol@.damaged.insert(
                ino,
                damage::after_flush(a.vol@.unreadable_of(ino), a.page_cache.pages(ino)),
            )
            &&& blocks_taken(a.vol@, b.vol@) == flush_takes(a, ino)
            &&& filesystem::staged_taking(
                a,
                b,
                now,
                flush_blocks(a, ino),
                flush_takes(a, ino) as int,
            )
        },
    }
}

/// A commit is to be driven once `ino` is flushed: one was due, or the
/// transaction is large.
pub open spec fn due_after_flush(a: SharedCore, b: SharedCore, ino: u64) -> bool {
    a.commit_due || (flush_fails(a, ino) is None && b.active_tx->0.dirty >= FLUSH_COMMIT_BLOCKS)
}

/// A flush does not change what files hold.
pub proof fn flush_keeps_contents(a: SharedCore, b: SharedCore, ino: u64, now: u64, other: u64)
    requires
        a.wf(),
        flush_fails(a, ino) is None,
        flushed(a, b, ino, now),
    ensures
        b.content(other) == a.content(other),
{
    volume::lemma_inode_fits(a.vol, ino);
    if other == ino {
        assert(b.page_cache.pages(ino) =~= Map::<u64, Vec<u8>>::empty());
        assert(b.eff_size(ino) == a.eff_size(ino));
        assert forall|i: int| 0 <= i < a.eff_size(ino) implies b.byte_at(ino, i) == a.byte_at(
            ino,
            i,
        ) by {
            assert(b.vol@.stored(ino) == a.content(ino));
            assert(a.content(ino)[i] == a.byte_at(ino, i));
        }
    } else {
        assert(b.page_cache.pages(other) == a.page_cache.pages(other));
        assert(b.eff_size(other) == a.eff_size(other));
        assert(b.vol@.stored(other) == a.vol@.stored(other));
        assert forall|i: int| 0 <= i < a.eff_size(other) implies b.byte_at(other, i) == a.byte_at(
            other,
            i,
        ) by {}
    }
    assert(b.content(other) =~= a.content(other));
}

/// A flush makes the blocks that it stores readable, and none unreadable.
pub proof fn flushed_blocks_are_readable(
    a: SharedCore,
    b: SharedCore,
    ino: u64,
    now: u64,
    other: u64,
    k: u64,
)
    requires
        flush_fails(a, ino) is None,
        flushed(a, b, ino, now),
    ensures
        a.page_cache.pages(ino).contains_key(k) ==> !b.vol@.unreadable(ino, k),
        b.vol@.unreadable(other, k) ==> a.vol@.unreadable(other, k),
{
    let pages = a.page_cache.pages(ino);
    damage::lemma_kept(a.vol@.unreadable_of(ino), |k: u64| !pages.contains_key(k), k);
}

/// Buffered pages stay zero past the end when one file's are gone, whatever
/// becomes of its size.
proof fn lemma_tails_flushed(
    a: PageCache,
    b: PageCache,
    inodes: Map<u64, Inode>,
    later: Map<u64, Inode>,
    ino: u64,
)
    requires
        filesystem::tails_zero(a, inodes),
        b.inodes@ == a.inodes@.remove(ino),
        later.remove(ino) == inodes.remove(ino),
    ensures
        filesystem::tails_zero(b, later),
{
    reveal(filesystem::tails_zero);
    assert forall|x: u64, k: u64, j: int|
        b.pages(x).contains_key(k) && 0 <= j < BLOCK_SIZE && k * BLOCK_SIZE + j
            >= filesystem::size_with_shadow(b, later, x) implies #[trigger] b.pages(x)[k]@[j]
        == 0 by {
        assert(x != ino);
        assert(later.remove(ino).contains_key(x) == later.contains_key(x));
        assert(inodes.remove(ino).contains_key(x) == inodes.contains_key(x));
        if later.contains_key(x) {
            assert(later.remove(ino)[x] == later[x]);
            assert(inodes.remove(ino)[x] == inodes[x]);
        }
        assert(filesystem::stored_size(later, x) == filesystem::stored_size(inodes, x));
        assert(a.pages(x)[k]@[j] == 0);
    }
}

impl LionFS {
    fn flush_pages(&mut self, ino: u64, now: u64) -> (r: Result<Option<u64>, Error>)
        requires
            old(self).wf(),
            old(self).core.can_stage(),
            old(self).core.page_cache.inodes@.contains_key(ino),
        ensures
            final(self).wf(),
            final(self).same_storage(old(self)),
            final(self).core.commit_due == old(self).core.commit_due,
            final(self).core.commit_wake == old(self).core.commit_wake,
            flushed(old(self).core, final(self).core, ino, now),
            match flush_fails(old(self).core, ino) {
                Some(kind) => r matches Err(e) && e.kind == kind,
                None => r == Ok::<Option<u64>, Error>(Some(final(self).core.active_tx->0.id)),
            },
    {
        let ghost a = self.core;
        let ghost pages = self.core.page_cache.pages(ino);
        proof {
            reveal(filesystem::cache_ok);
        }
        let blocks: u64 = match self.core.page_cache.inodes.get(ino) {
            Some(c) => (c.dirty_bytes / 4096) as u64 + 1,
            None => 1,
        };
        let unreadable = self.core.vol.unreadable_blocks(ino);
        let unreadable = damage::left_after_flush(
            unreadable.as_slice(),
            &self.core.page_cache,
            ino,
        );
        let (runs, eof) = self.core.page_cache.drain_runs_and_eof(ino);
        proof {
            assert(a.page_cache.inodes@[ino].wf());
            lemma_tails_flushed(
                a.page_cache,
                self.core.page_cache,
                a.vol@.inodes,
                a.vol@.inodes,
                ino,
            );
        }
        let mut inode = match self.core.vol.read_inode(ino) {
            Some(inode) => inode,
            None => {
                let _ = self.core.stage(now, 0);
                return Err(Error::new(ErrorKind::NotFound, "inode not found"));
            },
        };
        let mut logical: u64 = inode.size;
        if let Some(end) = eof {
            if end > logical {
                logical = end;
            }
        }
        assert(logical == a.eff_size(ino));
        if logical > self.core.vol.limits.file_bytes {
            let _ = self.core.stage(now, 0);
            return Err(Error::new(ErrorKind::StorageFull, "file too large"));
        }
        proof {
            assert forall|k: u64| #[trigger] pages.contains_key(k) implies pages[k]@.len()
                == BLOCK_SIZE && k * BLOCK_SIZE < logical by {
                assert(a.page_cache.inodes@[ino].pages@.contains_key(k));
            }
            let content = Seq::new(
                logical as nat,
                |x: int| store::paged_byte(pages, a.vol@.stored(ino), x),
            );
            assert(content =~= a.content(ino));
        }
        inode.size = logical;
        inode.mtime = now as i64;
        let taken: u64 = match self.core.vol.write_runs(
            &self.core.pins,
            inode,
            &runs,
            Ghost(pages),
        ) {
            Some(n) => n,
            None => {
                let _ = self.core.stage(now, 0);
                return Err(Error::new(ErrorKind::StorageFull, "no free block"));
            },
        };
        let ghost written = self.core.vol@;
        self.core.vol.set_unreadable(ino, unreadable);
        proof {
            assert(VolumeView { damaged: a.vol@.damaged, ..self.core.vol@ } == written);
            assert(self.core.vol@.inodes.remove(ino) =~= a.vol@.inodes.remove(ino));
            lemma_tails_flushed(
                a.page_cache,
                self.core.page_cache,
                a.vol@.inodes,
                self.core.vol@.inodes,
                ino,
            );
        }
        let txid = self.core.stage_taking(now, blocks, taken as i64);
        Ok(txid)
    }

    /// Flushes what is buffered of a file into the active transaction. Asks
    /// for a commit once the transaction is large.
    pub fn flush_ino_locked(&mut self, ino: u64, now: u64) -> (r: Result<(), Error>)
        requires
            old(self).wf(),
            old(self).core.can_stage(),
        ensures
            final(self).wf(),
            final(self).same_storage(old(self)),
            final(self).core.commit_wake == old(self).core.commit_wake,
            if !old(self).core.page_cache.inodes@.contains_key(ino) {
                &&& r is Ok
                &&& *final(self) == *old(self)
            } else {
                &&& flushed(old(self).core, final(self).core, ino, now)
                &&& final(self).core.commit_due == due_after_flush(
                    old(self).core,
                    final(self).core,
                    ino,
                )
                &&& match flush_fails(old(self).core, ino) {
                    Some(kind) => r matches Err(e) && e.kind == kind,
                    None => r is Ok,
                }
            },
    {
        proof {
            reveal(filesystem::cache_ok);
        }
        if !self.core.page_cache.has_pages(ino) {
            return Ok(());
        }
        match self.flush_pages(ino, now) {
            Ok(_) => {},
            Err(e) => {
                return Err(e);
            },
        }
        let large = match &self.core.active_tx {
            Some(t) => t.dirty >= FLUSH_COMMIT_BLOCKS,
            None => false,
        };
        if large {
            self.core.commit_due = true;
        }
        Ok(())
    }

    /// Flushes what is buffered of a file.
    pub fn flush_ino(&mut self, ino: u64, now: u64) -> (r: Result<(), Error>)
        requires
            old(self).wf(),
            old(self).core.can_stage(),
        ensures
            final(self).wf(),
            final(self).same_storage(old(self)),
            final(self).core.commit_wake == old(self).core.commit_wake,
            if !old(self).core.page_cache.inodes@.contains_key(ino) {
                &&& r is Ok
                &&& *final(self) == *old(self)
            } else {
                &&& flushed(old(self).core, final(self).core, ino, now)
                &&& final(self).core.commit_due == due_after_flush(
                    old(self).core,
                    final(self).core,
                    ino,
                )
                &&& match flush_fails(old(self).core, ino) {
                    Some(kind) => r matches Err(e) && e.kind == kind,
                    None => r is Ok,
                }
            },
    {
        self.flush_ino_locked(ino, now)
    }

    /// Flushes what is buffered of a file. The transactions that have to land
    /// before the file is safe: the one that the pages went into, or, if none
    /// was buffered, every live one.
    pub fn flush_ino_marked(&mut self, ino: u64, now: u64) -> (r: Result<Vec<u64>, Error>)
        requires
            old(self).wf(),
            old(self).core.can_stage(),
        ensures
            final(self).wf(),
            final(self).same_storage(old(self)),
            final(self).core.commit_wake == old(self).core.commit_wake,
            final(self).core.commit_due == old(self).core.commit_due,
            if !old(self).core.page_cache.inodes@.contains_key(ino) {
                &&& r matches Ok(ids) && ids@ == old(self).core.live_ids()
                &&& *final(self) == *old(self)
            } else {
                &&& flushed(old(self).core, final(self).core, ino, now)
                &&& match flush_fails(old(self).core, ino) {
                    Some(kind) => r matches Err(e) && e.kind == kind,
                    None => r matches Ok(ids) && ids@ == seq![final(self).core.active_tx->0.id],
                }
            },
    {
        proof {
            reveal(filesystem::cache_ok);
        }
        if !self.core.page_cache.has_pages(ino) {
            return Ok(self.core.live_txids());
        }
        match self.flush_pages(ino, now) {
            Ok(txid) => {
                let mut ids: Vec<u64> = Vec::new();
                if let Some(id) = txid {
                    ids.push(id);
                }
                assert(ids@ =~= seq![self.core.active_tx->0.id]);
                Ok(ids)
            },
            Err(e) => Err(e),
        }
    }
}

/// What a file stores after writing through.
pub open spec fn stored_after(stored: Seq<u8>, offset: int, data: Seq<u8>) -> Seq<u8> {
    if data.len() == 0 {
        stored
    } else {
        volume::written(stored, offset, data)
    }
}

/// How large a file of `size` bytes is after a write.
pub open spec fn size_after(size: u64, offset: int, len: int) -> u64 {
    if len > 0 && offset + len > size {
        (offset + len) as u64
    } else {
        size
    }
}

/// What a file holds after a write.
pub open spec fn content_after(content: Seq<u8>, offset: int, data: Seq<u8>) -> Seq<u8> {
    if data.len() == 0 {
        content
    } else {
        volume::written(content, offset, data)
    }
}

/// Writing through a file of which nothing is buffered changes what it holds
/// as the write says, and no other file.
pub proof fn write_through_contents(
    a: SharedCore,
    b: SharedCore,
    ino: u64,
    offset: u64,
    data: Seq<u8>,
    now: u64,
    other: u64,
)
    requires
        a.wf(),
        a.vol@.inodes.contains_key(ino),
        !a.page_cache.inodes@.contains_key(ino),
        offset + data.len() <= u64::MAX,
        b.page_cache == a.page_cache,
        stored_through(a, b, ino, offset, data, now),
    ensures
        b.content(other) == (if other == ino {
            content_after(a.content(ino), offset as int, data)
        } else {
            a.content(other)
        }),
{
    volume::lemma_inode_fits(a.vol, ino);
    let want = if other == ino {
        content_after(a.content(ino), offset as int, data)
    } else {
        a.content(other)
    };
    if other == ino {
        assert(a.page_cache.pages(ino) == Map::<u64, Vec<u8>>::empty());
        assert(b.vol@.stored(ino) == stored_after(a.vol@.stored(ino), offset as int, data));
        assert forall|i: int| 0 <= i < b.eff_size(ino) implies b.byte_at(ino, i) == want[i] by {
            if i < a.eff_size(ino) {
                assert(a.content(ino)[i] == a.byte_at(ino, i));
            }
        }
    } else {
        assert(b.vol@.stored(other) == a.vol@.stored(other));
        assert(b.eff_size(other) == a.eff_size(other));
        assert forall|i: int| 0 <= i < b.eff_size(other) implies b.byte_at(other, i)
            == want[i] by {
            assert(a.content(other)[i] == a.byte_at(other, i));
        }
    }
    assert(b.content(other) =~= want);
}

/// There is room for the blocks that a write past the buffer writes.
pub open spec fn range_has_room(core: SharedCore, ino: u64, offset: int, len: int) -> bool {
    store::has_room(
        core.vol@,
        core.pins,
        ino,
        store::range_blocks(offset, len),
        writer::end_block(offset, len),
    )
}

/// The fresh blocks that a write past the buffer takes.
pub open spec fn range_takes(core: SharedCore, ino: u64, offset: int, len: int) -> nat {
    if len == 0 {
        0
    } else {
        placement::needed(
            core.vol@.area,
            core.pins,
            ino,
            core.vol@.runs(ino),
            store::range_blocks(offset, len),
            0,
            writer::end_block(offset, len),
        )
    }
}

/// The inode after a write past the buffer, but for where its blocks are then.
pub open spec fn inode_through(v: VolumeView, ino: u64, offset: u64, len: int, now: u64) -> Inode {
    Inode {
        size: size_after(v.inodes[ino].size, offset as int, len),
        mtime: now as i64,
        ..v.inodes[ino]
    }
}

/// `b` is `a` with bytes stored.
pub open spec fn stored_through(
    a: SharedCore,
    b: SharedCore,
    ino: u64,
    offset: u64,
    data: Seq<u8>,
    now: u64,
) -> bool {
    let v = a.vol@;
    let made = inode_through(v, ino, offset, data.len() as int, now);
    let unmarked = VolumeView { damaged: v.damaged, ..b.vol@ };
    &&& if data.len() == 0 {
        unmarked == v.with_inode(made)
    } else {
        store::rewritten(
            v,
            unmarked,
            a.pins,
            made,
            stored_after(v.stored(ino), offset as int, data),
            store::range_blocks(offset as int, data.len() as int),
        )
    }
    &&& b.vol@.damaged == v.damaged.insert(
        ino,
        damage::after_write(v.unreadable_of(ino), offset as int, data.len() as int),
    )
}

/// `b` and `r` are what a write past the buffer makes of `a`: the file is
/// missing, would grow past its limit or finds no room, or the bytes are stored
/// and staged.
pub open spec fn through(
    a: SharedCore,
    b: SharedCore,
    ino: u64,
    offset: u64,
    data: Seq<u8>,
    now: u64,
    r: Result<u32, VfsError>,
) -> bool {
    let v = a.vol@;
    &&& b.page_cache == a.page_cache
    &&& if !v.inodes.contains_key(ino) || (data.len() > 0 && (offset + data.len()
        > v.limits.file_bytes || !range_has_room(a, ino, offset as int, data.len() as int))) {
        &&& r == Err::<u32, VfsError>(VfsError { errno: posix::EIO })
        &&& b.vol@ == v
        &&& b.commit_due == a.commit_due
        &&& filesystem::staged(a, b, now, 0)
    } else {
        &&& r == Ok::<u32, VfsError>(data.len() as u32)
        &&& stored_through(a, b, ino, offset, data, now)
        &&& blocks_taken(a.vol@, b.vol@) == range_takes(
            a,
            ino,
            offset as int,
            data.len() as int,
        )
        &&& filesystem::staged_taking(
            a,
            b,
            now,
            blocks_staged(data.len() as int) as u64,
            range_takes(a, ino, offset as int, data.len() as int) as int,
        )
        &&& b.commit_due == (a.commit_due || b.active_tx->0.dirty > WRITE_COMMIT_BLOCKS)
    }
}

impl LionFS {
    /// Writes to a file past the buffer, and asks for a commit once the
    /// transaction is large.
    pub fn write_through(&mut self, ino: u64, offset: u64, data: &[u8], now: u64) -> (r: Result<
        u32,
        VfsError,
    >)
        requires
            old(self).wf(),
            old(self).core.can_stage(),
            offset + data@.len() <= u64::MAX,
        ensures
            final(self).wf(),
            final(self).same_storage(old(self)),
            final(self).core.commit_wake == old(self).core.commit_wake,
            through(old(self).core, final(self).core, ino, offset, data@, now, r),
    {
        let ghost a = self.core;
        let mut inode = match self.core.vol.read_inode(ino) {
            Some(inode) => inode,
            None => {
                let _ = self.core.stage(now, 0);
                return Err(VfsError::new(posix::EIO));
            },
        };
        let end: u64 = offset + data.len() as u64;
        if data.len() > 0 && end > self.core.vol.limits.file_bytes {
            let _ = self.core.stage(now, 0);
            return Err(VfsError::new(posix::EIO));
        }
        inode.mtime = now as i64;
        proof {
            volume::lemma_inode_fits(self.core.vol, ino);
        }
        let mut taken: u64 = 0;
        if data.len() > 0 {
            if end > inode.size {
                inode.size = end;
            }
            match self.core.vol.write_blocks(&self.core.pins, inode, offset, data) {
                Some(n) => {
                    taken = n;
                },
                None => {
                    let _ = self.core.stage(now, 0);
                    return Err(VfsError::new(posix::EIO));
                },
            }
        } else {
            let _ = self.core.vol.write_inode(inode);
        }
        let ghost written = self.core.vol@;
        let unreadable = self.core.vol.unreadable_blocks(ino);
        self.core.vol.set_unreadable(
            ino,
            damage::left_after_write(unreadable.as_slice(), offset, data.len() as u64),
        );
        proof {
            assert(VolumeView { damaged: a.vol@.damaged, ..self.core.vol@ } == written);
            assert(self.core.vol@.inodes =~= a.vol@.inodes.insert(ino, written.inodes[ino]));
            assert(self.core.vol@.all_runs() == written.all_runs());
            filesystem::lemma_tails_written(
                a.page_cache,
                a.vol@.inodes,
                self.core.vol@.inodes[ino],
            );
        }
        let blocks: u64 = (data.len() / 4096) as u64 + 2;
        let _ = self.core.stage_taking(now, blocks, taken as i64);
        let large = match &self.core.active_tx {
            Some(t) => t.dirty > WRITE_COMMIT_BLOCKS,
            None => false,
        };
        if large {
            self.core.commit_due = true;
        }
        Ok(data.len() as u32)
    }
}

/// The byte at `j` of a block as a write finds it: of the buffered page if
/// there is one, else what is stored, which counts as zeros if the block cannot
/// be read.
pub open spec fn base_byte(core: SharedCore, ino: u64, k: u64, j: int) -> u8 {
    let pages = core.page_cache.pages(ino);
    if pages.contains_key(k) {
        pages[k]@[j]
    } else if core.vol@.unreadable(ino, k) {
        0
    } else {
        filesystem::stored_byte(core.vol@.stored(ino), k * BLOCK_SIZE + j)
    }
}

/// `b` is `a` with `data` buffered at `offset` of a file at `now`: each block
/// that the write touches has a page with the bytes of the write over those
/// that the write found; nothing else moves but the shadow of the file.
pub open spec fn buffered(
    a: SharedCore,
    b: SharedCore,
    ino: u64,
    offset: u64,
    data: Seq<u8>,
    now: u64,
) -> bool {
    let old_pages = a.page_cache.pages(ino);
    let new_pages = b.page_cache.pages(ino);
    &&& b.vol == a.vol
    &&& b.pins == a.pins
    &&& b.node_stamp == a.node_stamp
    &&& b.live_barrier == a.live_barrier
    &&& b.active_tx == a.active_tx
    &&& b.current_tx_id == a.current_tx_id
    &&& b.committing == a.committing
    &&& b.commit_seq == a.commit_seq
    &&& b.commit_end == a.commit_end
    &&& b.commit_coord == a.commit_coord
    &&& b.commit_due == a.commit_due
    &&& b.commit_wake == a.commit_wake
    &&& b.page_cache.enabled == a.page_cache.enabled
    &&& b.page_cache.gates == a.page_cache.gates
    &&& b.page_cache.inodes@.remove(ino) == a.page_cache.inodes@.remove(ino)
    &&& data.len() == 0 ==> b.page_cache == a.page_cache
    &&& data.len() > 0 ==> {
        &&& b.page_cache.shadow_of(ino) == Some(
            (
                page_cache::shadow_after(a.page_cache.shadow_of(ino), offset + data.len()),
                now,
            ),
        )
        &&& forall|k: u64| #[trigger]
            new_pages.contains_key(k) <==> old_pages.contains_key(k) || page_cache::touched(
                k as int,
                offset as int,
                data.len() as int,
            )
        &&& forall|k: u64, j: int|
            new_pages.contains_key(k) && 0 <= j < BLOCK_SIZE ==> #[trigger] new_pages[k]@[j] == (
            if offset <= k * BLOCK_SIZE + j < offset + data.len() {
                data[k * BLOCK_SIZE + j - offset]
            } else {
                base_byte(a, ino, k, j)
            })
    }
}

/// A block that a write touches but does not cover is the first or the last.
proof fn lemma_partial_is_boundary(k: int, offset: int, len: int)
    requires
        0 <= offset,
        page_cache::touched(k, offset, len),
        !page_cache::overwrites_block(k, offset, len),
    ensures
        k == offset / 4096 || k == (offset + len - 1) / 4096,
        k == offset / 4096 ==> offset % 4096 != 0 || (k == (offset + len - 1) / 4096 && (offset
            + len) % 4096 != 0),
        k == (offset + len - 1) / 4096 && k != offset / 4096 ==> (offset + len) % 4096 != 0,
{
}

impl LionFS {
    /// The stored bytes of one block of a file, zeros where none is stored or
    /// none can be read.
    pub fn fetch_block(&self, ino: u64, block: u64) -> (r: Vec<u8>)
        requires
            self.wf(),
            block * BLOCK_SIZE <= u64::MAX,
        ensures
            r@ == Seq::new(
                BLOCK_SIZE as nat,
                |j: int|
                    if self.core.vol@.unreadable(ino, block) {
                        0
                    } else {
                        filesystem::stored_byte(
                            self.core.vol@.stored(ino),
                            block * BLOCK_SIZE + j,
                        )
                    },
            ),
    {
        let unreadable = self.core.vol.has_unreadable(ino, block, block);
        assert(unreadable == self.core.vol@.unreadable(ino, block));
        if unreadable {
            let r = bytes::zeros(BLOCK_SIZE);
            return r;
        }
        let out = if block * 4096 > u64::MAX - 4096 {
            // The last block of the address space ends with it.
            let mut out = self.core.vol.read_range(ino, block * 4096, 4095);
            out.push(0);
            out
        } else {
            self.core.vol.read_range(ino, block * 4096, BLOCK_SIZE)
        };
        proof {
            volume::lemma_inode_fits(self.core.vol, ino);
            assert(out@ =~= Seq::new(
                BLOCK_SIZE as nat,
                |j: int|
                    filesystem::stored_byte(self.core.vol@.stored(ino), block * BLOCK_SIZE + j),
            ));
        }
        out
    }

    /// Buffers a write. The blocks at its ends that it covers in part are
    /// completed from what is stored, unless they are buffered already.
    fn buffer_write(&mut self, inode: &Inode, offset: u64, data: &[u8], now: u64)
        requires
            old(self).wf(),
            old(self).core.vol@.inodes.contains_key(inode.ino),
            old(self).core.vol@.inodes[inode.ino] == *inode,
            offset + data@.len() <= u64::MAX,
            old(self).core.page_cache.total_dirty + data@.len() + 2 * BLOCK_SIZE <= usize::MAX,
        ensures
            final(self).wf(),
            final(self).same_storage(old(self)),
            buffered(old(self).core, final(self).core, inode.ino, offset, data@, now),
    {
        let ghost a = self.core;
        let ino = inode.ino;
        let committed_size = inode.size;
        proof {
            reveal(filesystem::cache_ok);
            volume::lemma_inode_fits(self.core.vol, ino);
        }
        let mut head: Option<(u64, Vec<u8>)> = None;
        let mut tail: Option<(u64, Vec<u8>)> = None;
        if data.len() > 0 {
            let end: u64 = offset + data.len() as u64;
            let head_block: u64 = offset / 4096;
            let tail_block: u64 = (end - 1) / 4096;
            let tail_partial = end % 4096 != 0;
            let head_partial = offset % 4096 != 0 || (tail_block == head_block && tail_partial);
            if head_partial && head_block * 4096 < committed_size
                && !self.core.page_cache.has_page(ino, head_block) {
                head = Some((head_block, self.fetch_block(ino, head_block)));
            }
            if tail_partial && tail_block != head_block && tail_block * 4096 < committed_size
                && !self.core.page_cache.has_page(ino, tail_block) {
                tail = Some((tail_block, self.fetch_block(ino, tail_block)));
            }
        }
        let ghost picked = |b: u64| page_for(&head, &tail, b);
        let fetch = |b: u64| -> (p: Vec<u8>)
            ensures
                p@ == page_for(&head, &tail, b),
            { pick_page(&head, &tail, b) };
        assert forall|b: u64, p: Vec<u8>| #[trigger] fetch.ensures((b,), p) implies p@
            == picked(b) && p@.len() == BLOCK_SIZE by {}
        self.core.page_cache.store(ino, offset, data, now, fetch);
        proof {
            let b = self.core;
            if data@.len() > 0 {
                let old_pages = a.page_cache.pages(ino);
                let new_pages = b.page_cache.pages(ino);
                assert forall|k: u64, j: int|
                    new_pages.contains_key(k) && 0 <= j < BLOCK_SIZE implies #[trigger] new_pages[k]@[j]
                    == (if offset <= k * BLOCK_SIZE + j < offset + data@.len() {
                    data@[k * BLOCK_SIZE + j - offset]
                } else {
                    base_byte(a, ino, k, j)
                }) by {
                    assert(page_cache::page_written(
                        old_pages,
                        new_pages[k]@,
                        k,
                        offset as int,
                        data@,
                        fetch,
                    ));
                    let len = data@.len() as int;
                    if page_cache::touched(k as int, offset as int, len)
                        && !page_cache::overwrites_block(k as int, offset as int, len)
                        && !old_pages.contains_key(k) {
                        lemma_partial_is_boundary(k as int, offset as int, len);
                        let base = choose|base: Vec<u8>| #[trigger]
                            fetch.ensures((k,), base) && new_pages[k]@ == page_cache::patched(
                                base@,
                                k as int,
                                offset as int,
                                data@,
                            );
                        assert(base@ == picked(k));
                        assert(picked(k)[j] == base_byte(a, ino, k, j));
                    }
                }
            }
            lemma_tails_buffered(&a, &b, ino, offset, data@, now);
        }
    }
}

/// The page that was fetched for a block, else zeros.
pub open spec fn page_for(
    head: &Option<(u64, Vec<u8>)>,
    tail: &Option<(u64, Vec<u8>)>,
    b: u64,
) -> Seq<u8> {
    if head is Some && head.unwrap().0 == b {
        head.unwrap().1@
    } else if tail is Some && tail.unwrap().0 == b {
        tail.unwrap().1@
    } else {
        Seq::new(BLOCK_SIZE as nat, |j: int| 0u8)
    }
}

/// The page that was fetched for a block, else zeros.
fn pick_page(head: &Option<(u64, Vec<u8>)>, tail: &Option<(u64, Vec<u8>)>, b: u64) -> (p: Vec<u8>)
    ensures
        p@ == page_for(head, tail, b),
{
    if let Some((hb, hp)) = head {
        if *hb == b {
            let r = bytes::copy_range(hp.as_slice(), 0, hp.len());
            assert(r@ =~= hp@);
            return r;
        }
    }
    if let Some((tb, tp)) = tail {
        if *tb == b {
            let r = bytes::copy_range(tp.as_slice(), 0, tp.len());
            assert(r@ =~= tp@);
            return r;
        }
    }
    bytes::zeros(BLOCK_SIZE)
}

/// What is buffered of another file stays.
proof fn lemma_others_kept(
    a: page_cache::PageCache,
    b: page_cache::PageCache,
    ino: u64,
    other: u64,
)
    requires
        other != ino,
        b.inodes@.remove(ino) == a.inodes@.remove(ino),
    ensures
        b.pages(other) == a.pages(other),
        b.shadow_of(other) == a.shadow_of(other),
{
    assert(a.inodes@.remove(ino).contains_key(other) == a.inodes@.contains_key(other));
    assert(b.inodes@.remove(ino).contains_key(other) == b.inodes@.contains_key(other));
    if a.inodes@.contains_key(other) {
        assert(a.inodes@.remove(ino)[other] == a.inodes@[other]);
        assert(b.inodes@.remove(ino)[other] == b.inodes@[other]);
    }
}

/// Buffered pages stay zero past the end when a write is buffered.
proof fn lemma_tails_buffered(
    a: &SharedCore,
    b: &SharedCore,
    ino: u64,
    offset: u64,
    data: Seq<u8>,
    now: u64,
)
    requires
        a.wf(),
        offset + data.len() <= u64::MAX,
        buffered(*a, *b, ino, offset, data, now),
    ensures
        filesystem::tails_zero(b.page_cache, b.vol@.inodes),
{
    reveal(filesystem::tails_zero);
    volume::lemma_inode_fits(a.vol, ino);
    assert forall|x: u64, k: u64, j: int|
        b.page_cache.pages(x).contains_key(k) && 0 <= j < BLOCK_SIZE && k * BLOCK_SIZE + j
            >= b.eff_size(x) implies #[trigger] b.page_cache.pages(x)[k]@[j] == 0 by {
        if x == ino && data.len() > 0 {
            assert(a.eff_size(ino) <= b.eff_size(ino));
            assert(offset + data.len() <= b.eff_size(ino));
            if a.page_cache.pages(ino).contains_key(k) {
                assert(a.page_cache.pages(ino)[k]@[j] == 0);
            }
        } else {
            if x != ino {
                lemma_others_kept(a.page_cache, b.page_cache, ino, x);
            }
            assert(a.page_cache.pages(x)[k]@[j] == 0);
        }
    }
}

/// Every block that a write has to complete from what is stored can be read.
pub open spec fn completable(core: SharedCore, ino: u64, offset: int, len: int) -> bool {
    forall|k: u64| #[trigger]
        core.vol@.unreadable(ino, k) ==> !page_cache::asks_for(
            core.page_cache.pages(ino),
            k,
            offset,
            len,
        )
}

/// The byte at `i` is one that a write found as zero: it is not written, but its
/// block is written in part and cannot be read.
pub open spec fn found_zero(core: SharedCore, ino: u64, offset: int, len: int, i: int) -> bool {
    &&& !(offset <= i < offset + len)
    &&& page_cache::asks_for(core.page_cache.pages(ino), (i / 4096) as u64, offset, len)
    &&& core.vol@.unreadable(ino, (i / 4096) as u64)
}

/// In `b` the file holds the written bytes, and else what it held in `a`, or
/// zeros where the write could not find that.
pub open spec fn bytes_landed(
    a: SharedCore,
    b: SharedCore,
    ino: u64,
    offset: int,
    data: Seq<u8>,
) -> bool {
    let want = content_after(a.content(ino), offset, data);
    &&& b.content(ino).len() == want.len()
    &&& forall|i: int|
        0 <= i < want.len() ==> #[trigger] b.content(ino)[i] == (if found_zero(
            a,
            ino,
            offset,
            data.len() as int,
            i,
        ) {
            0
        } else {
            want[i]
        })
}

/// A buffered write changes what its file holds as the write says, and no
/// other file. Where a block that it covers in part cannot be read, the rest of
/// the block is zero.
pub proof fn buffered_write_contents(
    a: SharedCore,
    b: SharedCore,
    ino: u64,
    offset: u64,
    data: Seq<u8>,
    now: u64,
    other: u64,
)
    requires
        a.wf(),
        a.vol@.inodes.contains_key(ino),
        offset + data.len() <= u64::MAX,
        buffered(a, b, ino, offset, data, now),
    ensures
        bytes_landed(a, b, ino, offset as int, data),
        completable(a, ino, offset as int, data.len() as int) ==> b.content(ino) == content_after(
            a.content(ino),
            offset as int,
            data,
        ),
        other != ino ==> b.content(other) == a.content(other),
{
    if other != ino {
        lemma_others_kept(a.page_cache, b.page_cache, ino, other);
        assert(b.eff_size(other) == a.eff_size(other));
        assert forall|i: int| 0 <= i < a.eff_size(other) implies b.byte_at(other, i) == a.byte_at(
            other,
            i,
        ) by {}
        assert(b.content(other) =~= a.content(other));
    }
    let len = data.len() as int;
    if len == 0 {
        assert(b.content(ino) =~= a.content(ino));
    } else {
        let want = volume::written(a.content(ino), offset as int, data);
        volume::lemma_inode_fits(a.vol, ino);
        assert(b.eff_size(ino) == want.len());
        assert forall|i: int| 0 <= i < want.len() implies #[trigger] b.content(ino)[i] == (
        if found_zero(a, ino, offset as int, len, i) {
            0
        } else {
            want[i]
        }) by {
            let k = (i / 4096) as u64;
            let j = i % 4096;
            assert(k * BLOCK_SIZE + j == i);
            assert(b.content(ino)[i] == b.byte_at(ino, i));
            if i < a.eff_size(ino) {
                assert(a.content(ino)[i] == a.byte_at(ino, i));
            }
            if b.page_cache.pages(ino).contains_key(k) {
                assert(b.page_cache.pages(ino)[k]@[j] == (if offset <= i < offset + len {
                    data[i - offset]
                } else {
                    base_byte(a, ino, k, j)
                }));
                if a.page_cache.pages(ino).contains_key(k) && i >= a.eff_size(ino) {
                    assert(a.page_cache.pages(ino)[k]@[j] == 0) by {
                        reveal(filesystem::tails_zero);
                    }
                }
            } else {
                assert(!page_cache::touched(k as int, offset as int, len));
                assert(!(offset <= i < offset + len));
                assert(!a.page_cache.pages(ino).contains_key(k));
            }
        }
        if completable(a, ino, offset as int, len) {
            assert(b.content(ino) =~= want);
        }
    }
}

/// A control file, or one that is not there, refuses a write.
pub open spec fn write_refused(v: VolumeView, ino: u64) -> Option<i32> {
    if ino == HEALTH_INO {
        Some(posix::EPERM)
    } else if !v.inodes.contains_key(ino) {
        Some(posix::EIO)
    } else {
        None
    }
}

/// Writes to this file are buffered.
pub open spec fn cacheable(core: SharedCore, ino: u64) -> bool {
    core.page_cache.enabled && core.vol@.inodes[ino].compression_algo == 0
}

/// `b` is what a buffered write makes of `a`: the write is buffered, and if
/// too much is buffered then, the file is flushed.
pub open spec fn written_back(
    a: SharedCore,
    b: SharedCore,
    ino: u64,
    offset: u64,
    data: Seq<u8>,
    now: u64,
) -> bool {
    exists|mid: SharedCore| #[trigger]
        buffered(a, mid, ino, offset, data, now) && mid.wf() && if page_cache::sum_dirty(
            mid.page_cache.inodes.entries(),
        ) > FLUSH_HARD_LIMIT_BYTES && mid.page_cache.inodes@.contains_key(ino) {
            flushed(mid, b, ino, now) && b.commit_due == due_after_flush(mid, b, ino)
        } else {
            b == mid
        }
}

/// `b` and `r` are what a write makes of `a`.
pub open spec fn wrote(
    a: SharedCore,
    b: SharedCore,
    ino: u64,
    offset: u64,
    data: Seq<u8>,
    now: u64,
    r: Result<u32, VfsError>,
) -> bool {
    if ino == SCRUB_INO {
        &&& r == Ok::<u32, VfsError>(data.len() as u32)
        &&& b == a
    } else if write_refused(a.vol@, ino) is Some {
        &&& r == Err::<u32, VfsError>(VfsError { errno: write_refused(a.vol@, ino)->0 })
        &&& b == a
    } else if cacheable(a, ino) {
        &&& r == Ok::<u32, VfsError>(data.len() as u32)
        &&& written_back(a, b, ino, offset, data, now)
    } else {
        through(a, b, ino, offset, data, now, r)
    }
}

/// A write leaves every other file as it was, also one that it was copied from
/// or to.
pub proof fn write_leaves_other_files(
    a: SharedCore,
    b: SharedCore,
    ino: u64,
    offset: u64,
    data: Seq<u8>,
    now: u64,
    r: Result<u32, VfsError>,
    other: u64,
)
    requires
        a.wf(),
        wrote(a, b, ino, offset, data, now, r),
        other != ino,
    ensures
        b.content(other) == a.content(other),
{
    if ino != SCRUB_INO && write_refused(a.vol@, ino) is None {
        volume::lemma_inode_fits(a.vol, ino);
        if cacheable(a, ino) {
            let mid = choose|mid: SharedCore| #[trigger]
                buffered(a, mid, ino, offset, data, now) && mid.wf() && if page_cache::sum_dirty(
                    mid.page_cache.inodes.entries(),
                ) > FLUSH_HARD_LIMIT_BYTES && mid.page_cache.inodes@.contains_key(ino) {
                    flushed(mid, b, ino, now) && b.commit_due == due_after_flush(mid, b, ino)
                } else {
                    b == mid
                };
            lemma_others_kept(a.page_cache, mid.page_cache, ino, other);
            assert(b.page_cache.inodes@.remove(ino) =~= mid.page_cache.inodes@.remove(ino));
            lemma_others_kept(mid.page_cache, b.page_cache, ino, other);
        }
        assert(b.vol@.stored(other) == a.vol@.stored(other));
        assert(b.eff_size(other) == a.eff_size(other));
        assert forall|i: int| 0 <= i < a.eff_size(other) implies b.byte_at(other, i) == a.byte_at(
            other,
            i,
        ) by {}
    }
    assert(b.content(other) =~= a.content(other));
}

impl LionFS {
    /// Writes to a file. The bytes are buffered, unless the file is compressed
    /// or buffering is off: they then go through. What is written to the
    /// scrubber's control file is a command, which is for the caller to carry
    /// out.
    pub fn write(&mut self, ino: u64, offset: u64, data: &[u8], now: u64) -> (r: Result<
        u32,
        VfsError,
    >)
        requires
            old(self).wf(),
            old(self).core.can_stage(),
            offset + data@.len() <= u64::MAX,
            old(self).core.page_cache.total_dirty + data@.len() + 2 * BLOCK_SIZE <= usize::MAX,
        ensures
            final(self).wf(),
            final(self).same_storage(old(self)),
            final(self).core.can_stage(),
            final(self).core.commit_wake == old(self).core.commit_wake,
            wrote(old(self).core, final(self).core, ino, offset, data@, now, r),
            ino == SCRUB_INO || write_refused(old(self).core.vol@, ino) is Some ==> *final(self)
                == *old(self),
    {
        if ino == SCRUB_INO {
            return Ok(data.len() as u32);
        }
        if ino == HEALTH_INO {
            return Err(VfsError::new(posix::EPERM));
        }
        let inode = match self.core.get_inode(ino) {
            Ok(inode) => inode,
            Err(_) => {
                return Err(VfsError::new(posix::EIO));
            },
        };
        if !(self.core.page_cache.is_enabled() && inode.compression_algo == 0) {
            return self.write_through(ino, offset, data, now);
        }
        self.buffer_write(&inode, offset, data, now);
        let ghost mid = self.core;
        proof {
            reveal(filesystem::cache_ok);
        }
        if self.core.page_cache.total_dirty() > FLUSH_HARD_LIMIT_BYTES {
            let _ = self.flush_ino_locked(ino, now);
        }
        assert(buffered(old(self).core, mid, ino, offset, data@, now));
        Ok(data.len() as u32)
    }
}

/// There is room to flush the file once a write is buffered.
pub open spec fn write_has_room(core: SharedCore, ino: u64, offset: u64, len: int) -> bool {
    store::has_room(
        core.vol@,
        core.pins,
        ino,
        |l: int| dirty_blocks(core, ino)(l) || page_cache::touched(l, offset as int, len),
        store::size_blocks(size_after(core.eff_size(ino), offset as int, len) as int),
    )
}

/// There is room to flush what a write has buffered, if there was before.
pub proof fn lemma_room_to_flush(
    a: SharedCore,
    mid: SharedCore,
    ino: u64,
    offset: u64,
    data: Seq<u8>,
    now: u64,
)
    requires
        a.wf(),
        a.vol@.inodes.contains_key(ino),
        offset + data.len() <= u64::MAX,
        buffered(a, mid, ino, offset, data, now),
        write_has_room(a, ino, offset, data.len() as int),
    ensures
        flush_has_room(mid, ino),
{
    volume::lemma_inode_fits(a.vol, ino);
    let len = data.len() as int;
    let w = |l: int| dirty_blocks(a, ino)(l) || page_cache::touched(l, offset as int, len);
    let u = dirty_blocks(mid, ino);
    let end = store::size_blocks(mid.eff_size(ino) as int);
    assert(mid.eff_size(ino) == size_after(a.eff_size(ino), offset as int, len));
    assert forall|l: int| 0 <= l < end implies #[trigger] w(l) == u(l) by {
        if len > 0 {
            assert(mid.page_cache.pages(ino).contains_key(l as u64) <==> a.page_cache.pages(
                ino,
            ).contains_key(l as u64) || page_cache::touched(l as u64 as int, offset as int, len));
        }
    }
    let r = a.vol@.runs(ino);
    let p = |l: int| w(l) && !placement::keeps(a.vol@.area, a.pins, ino, r, l);
    let q = |l: int| u(l) && !placement::keeps(a.vol@.area, a.pins, ino, r, l);
    assert forall|l: int| 0 <= l < end implies #[trigger] p(l) == q(l) by {
        assert(w(l) == u(l));
    }
    placement::lemma_count_same(p, q, 0, end);
}

/// What a write buffers stays: there is room to flush the file, or too little
/// is buffered then for a flush.
pub open spec fn write_stays(
    core: SharedCore,
    ino: u64,
    offset: u64,
    data: Seq<u8>,
    now: u64,
) -> bool {
    ||| write_has_room(core, ino, offset, data.len() as int)
    ||| forall|mid: SharedCore| #[trigger]
        buffered(core, mid, ino, offset, data, now) && mid.wf() ==> page_cache::sum_dirty(
            mid.page_cache.inodes.entries(),
        ) <= FLUSH_HARD_LIMIT_BYTES
}

/// What was written is what is read: after a buffered write that leaves the
/// file within its limit and that stays, the file holds the written bytes over
/// what it held, and every other file holds what it held. Where a block that the
/// write covers in part cannot be read, the rest of the block is zero.
pub proof fn read_your_own_write(
    a: SharedCore,
    b: SharedCore,
    ino: u64,
    offset: u64,
    data: Seq<u8>,
    now: u64,
    other: u64,
)
    requires
        a.wf(),
        a.vol@.inodes.contains_key(ino),
        offset + data.len() <= u64::MAX,
        written_back(a, b, ino, offset, data, now),
        a.eff_size(ino) <= a.vol@.limits.file_bytes,
        offset + data.len() <= a.vol@.limits.file_bytes,
        write_stays(a, ino, offset, data, now),
    ensures
        bytes_landed(a, b, ino, offset as int, data),
        completable(a, ino, offset as int, data.len() as int) ==> b.content(ino) == content_after(
            a.content(ino),
            offset as int,
            data,
        ),
        other != ino ==> b.content(other) == a.content(other),
{
    let mid = choose|mid: SharedCore| #[trigger]
        buffered(a, mid, ino, offset, data, now) && mid.wf() && if page_cache::sum_dirty(
            mid.page_cache.inodes.entries(),
        ) > FLUSH_HARD_LIMIT_BYTES && mid.page_cache.inodes@.contains_key(ino) {
            flushed(mid, b, ino, now) && b.commit_due == due_after_flush(mid, b, ino)
        } else {
            b == mid
        };
    buffered_write_contents(a, mid, ino, offset, data, now, other);
    if page_cache::sum_dirty(mid.page_cache.inodes.entries()) > FLUSH_HARD_LIMIT_BYTES
        && mid.page_cache.inodes@.contains_key(ino) {
        lemma_room_to_flush(a, mid, ino, offset, data, now);
        assert(flush_fails(mid, ino) is None);
        flush_keeps_contents(mid, b, ino, now, other);
        flush_keeps_contents(mid, b, ino, now, ino);
    }
}

/// A time to set, from one that is given in seconds.
pub open spec fn time_of(t: Option<i64>) -> Option<TimeOrNow> {
    match t {
        Some(secs) => Some(TimeOrNow::At(secs)),
        None => None,
    }
}

/// The changes besides the size.
pub open spec fn changes_of(attr: VfsSetAttr) -> AttrChanges {
    AttrChanges {
        mode: attr.mode,
        uid: attr.uid,
        gid: attr.gid,
        atime: time_of(attr.atime),
        mtime: time_of(attr.mtime),
    }
}

/// The new size of a file, if it is changed: one that is too large, or that
/// there is no room for, is not set.
pub open spec fn new_size(
    v: VolumeView,
    rc: RefCountManager,
    ino: u64,
    attr: VfsSetAttr,
) -> Option<u64> {
    match attr.size {
        Some(n) => if n <= v.limits.file_bytes && store::can_resize(v, rc, ino, n) {
            Some(n)
        } else {
            None
        },
        None => None,
    }
}

/// The access list of the inode changes with its mode.
pub open spec fn acl_follows(
    v: VolumeView,
    ino: u64,
    attr: VfsSetAttr,
) -> bool {
    vfs_acl::chmod_of(v, ino, attr) matches Some(list) && v.set_refused(
        ino,
        ACL_ACCESS_XATTR@,
        list.access,
        0,
        false,
    ) is None
}

/// The inode after a change of attributes, but for where its blocks are then.
#[verifier::opaque]
pub open spec fn inode_changed(
    v: VolumeView,
    rc: RefCountManager,
    ino: u64,
    attr: VfsSetAttr,
    now: u64,
) -> Inode {
    let sized = Inode {
        size: match new_size(v, rc, ino, attr) {
            Some(n) => n,
            None => v.inodes[ino].size,
        },
        ..v.inodes[ino]
    };
    let changed = metadata::attrs_applied(sized, changes_of(attr), now as i64);
    if acl_follows(v, ino, attr) {
        Inode { mode: vfs_names::with_acl_bits(
                changed.mode,
                vfs_acl::chmod_of(v, ino, attr)->0.mode_bits,
            ), ..changed }
    } else {
        changed
    }
}

/// The volume with the access list that a change of attributes leaves.
pub open spec fn list_changed(v: VolumeView, ino: u64, attr: VfsSetAttr) -> VolumeView {
    if acl_follows(v, ino, attr) {
        v.with_attrs(
            ino,
            v.attrs_after_set(
                ino,
                ACL_ACCESS_XATTR@,
                vfs_acl::chmod_of(v, ino, attr)->0.access,
                xattr::class_of(ACL_ACCESS_XATTR@)->0,
            ),
        )
    } else {
        v
    }
}

/// `b` is `v` after a change of attributes.
pub open spec fn volume_changed(
    v: VolumeView,
    b: VolumeView,
    rc: RefCountManager,
    ino: u64,
    attr: VfsSetAttr,
    now: u64,
) -> bool {
    let listed = list_changed(v, ino, attr);
    let made = inode_changed(v, rc, ino, attr, now);
    match new_size(v, rc, ino, attr) {
        Some(n) => {
            let unmarked = VolumeView { damaged: v.damaged, ..b };
            &&& store::restored(listed, unmarked, made, volume::resized(v.stored(ino), n as int))
            &&& store::resized_blocks(listed, unmarked, rc, ino, n)
            &&& b.damaged == v.damaged.insert(
                ino,
                damage::after_cut(v.unreadable_of(ino), n as int),
            )
        },
        None => b == listed.with_inode(made),
    }
}

/// `b` is `a` with the size of a file changed.
pub open spec fn size_changed(
    a: VolumeView,
    b: VolumeView,
    rc: RefCountManager,
    current: Inode,
    attr: VfsSetAttr,
) -> bool {
    let ino = current.ino;
    match new_size(a, rc, ino, attr) {
        Some(n) => {
            let unmarked = VolumeView { damaged: a.damaged, ..b };
            &&& store::restored(
                a,
                unmarked,
                Inode { size: n, ..current },
                volume::resized(a.stored(ino), n as int),
            )
            &&& store::resized_blocks(a, unmarked, rc, ino, n)
            &&& b.damaged == a.damaged.insert(
                ino,
                damage::after_cut(a.unreadable_of(ino), n as int),
            )
        },
        None => b == a,
    }
}

/// The inode that the attributes are changed of has the changes.
proof fn lemma_changed_inode(
    v: VolumeView,
    listed: VolumeView,
    resized: VolumeView,
    rc: RefCountManager,
    current: Inode,
    attr: VfsSetAttr,
    now: u64,
    sized: Inode,
    inode: Inode,
)
    requires
        v.inodes.contains_key(current.ino),
        v.inodes[current.ino] == current,
        listed == list_changed(v, current.ino, attr),
        size_changed(listed, resized, rc, current, attr),
        new_size(listed, rc, current.ino, attr) == new_size(v, rc, current.ino, attr),
        sized == resized.inodes[current.ino],
        inode == (if acl_follows(v, current.ino, attr) {
            let changed = metadata::attrs_applied(sized, changes_of(attr), now as i64);
            Inode {
                mode: vfs_names::with_acl_bits(
                    changed.mode,
                    vfs_acl::chmod_of(v, current.ino, attr)->0.mode_bits,
                ),
                ..changed
            }
        } else {
            metadata::attrs_applied(sized, changes_of(attr), now as i64)
        }),
    ensures
        inode == (Inode {
            extent_count: sized.extent_count,
            extents: sized.extents,
            spill_extent_root: sized.spill_extent_root,
            ..inode_changed(v, rc, current.ino, attr, now)
        }),
        inode.size == sized.size,
        inode.ino == sized.ino,
        placement::same_blocks(sized, inode),
{
    reveal(inode_changed);
}

/// The volume that the attributes are changed of has the changes.
proof fn lemma_changed_volume(
    v: VolumeView,
    listed: VolumeView,
    resized: VolumeView,
    b: VolumeView,
    rc: RefCountManager,
    current: Inode,
    attr: VfsSetAttr,
    now: u64,
    inode: Inode,
)
    requires
        v.inodes.contains_key(current.ino),
        v.inodes[current.ino] == current,
        listed == list_changed(v, current.ino, attr),
        size_changed(listed, resized, rc, current, attr),
        new_size(listed, rc, current.ino, attr) == new_size(v, rc, current.ino, attr),
        inode.ino == current.ino,
        placement::same_blocks(resized.inodes[current.ino], inode),
        inode == (Inode {
            extent_count: inode.extent_count,
            extents: inode.extents,
            spill_extent_root: inode.spill_extent_root,
            ..inode_changed(v, rc, current.ino, attr, now)
        }),
        b == resized.with_inode(inode),
    ensures
        volume_changed(v, b, rc, current.ino, attr, now),
        b.area == resized.area,
        listed.area == v.area,
{
    let ino = current.ino;
    let made = inode_changed(v, rc, ino, attr, now);
    match new_size(v, rc, ino, attr) {
        Some(n) => {
            let unmarked = VolumeView { damaged: v.damaged, ..b };
            let before = VolumeView { damaged: listed.damaged, ..resized };
            assert(unmarked.inodes =~= listed.inodes.insert(ino, inode));
            assert(unmarked.runs(ino) == before.runs(ino));
            assert(unmarked.all_runs() =~= before.all_runs());
            assert(unmarked.inodes[ino] == inode);
        },
        None => {
            reveal(inode_changed);
            assert(resized.inodes[ino] == current);
            assert(inode == made);
        },
    }
}

/// `mid` is `a` before the attributes change: a change of the size first
/// flushes what is buffered.
pub open spec fn settled(
    a: SharedCore,
    mid: SharedCore,
    ino: u64,
    attr: VfsSetAttr,
    now: u64,
) -> bool {
    if attr.size is Some && a.page_cache.inodes@.contains_key(ino) {
        flushed(a, mid, ino, now) && mid.commit_due == due_after_flush(a, mid, ino)
    } else {
        mid == a
    }
}

impl LionFS {
    /// Lets the access list of an inode follow its mode; the permission bits
    /// that it gives, if it did.
    fn change_list(&mut self, ino: u64, attr: &VfsSetAttr) -> (r: Option<u32>)
        requires
            old(self).wf(),
        ensures
            final(self).wf(),
            *final(self) == (LionFS { core: final(self).core, ..*old(self) }),
            final(self).core == (SharedCore { vol: final(self).core.vol, ..old(self).core }),
            final(self).core.vol@ == list_changed(old(self).core.vol@, ino, *attr),
            r == (if acl_follows(old(self).core.vol@, ino, *attr) {
                Some(vfs_acl::chmod_of(old(self).core.vol@, ino, *attr)->0.mode_bits)
            } else {
                None
            }),
    {
        if let Some(l) = self.chmod_acl(ino, attr) {
            if self.core.vol.set_attr(
                ino,
                ACL_ACCESS_XATTR,
                l.access.as_slice(),
                0,
                false,
            ).is_ok() {
                return Some(l.mode_bits);
            }
        }
        None
    }

    /// Changes the size of a file; its inode then, and how many blocks it took,
    /// less those that it gave back.
    fn change_size(&mut self, current: Inode, attr: &VfsSetAttr) -> (r: (Inode, i64))
        requires
            old(self).wf(),
            old(self).core.vol@.inodes.contains_key(current.ino),
            old(self).core.vol@.inodes[current.ino] == current,
            attr.size is Some ==> !old(self).core.page_cache.inodes@.contains_key(current.ino),
        ensures
            final(self).wf(),
            *final(self) == (LionFS { core: final(self).core, ..*old(self) }),
            final(self).core == (SharedCore { vol: final(self).core.vol, ..old(self).core }),
            final(self).core.vol@.inodes.contains_key(current.ino),
            r.0 == final(self).core.vol@.inodes[current.ino],
            r.1 == blocks_taken(old(self).core.vol@, final(self).core.vol@),
            size_changed(
                old(self).core.vol@,
                final(self).core.vol@,
                old(self).core.pins,
                current,
                *attr,
            ),
    {
        let ghost a = self.core;
        let ghost v = self.core.vol@;
        let ino = current.ino;
        proof {
            volume::lemma_inode_fits(self.core.vol, ino);
        }
        if let Some(n) = attr.size {
            if n <= self.core.vol.limits.file_bytes {
                let mut sized = current;
                sized.size = n;
                match self.core.vol.resize_blocks(&self.core.pins, sized) {
                    Some(taken) => {
                        let ghost cut = self.core.vol@;
                        let unreadable = self.core.vol.unreadable_blocks(ino);
                        self.core.vol.set_unreadable(
                            ino,
                            damage::left_after_cut(unreadable.as_slice(), n),
                        );
                        proof {
                            assert(VolumeView { damaged: v.damaged, ..self.core.vol@ } == cut);
                            assert(self.core.vol@.all_runs() == cut.all_runs());
                            assert(a.page_cache.inodes@.remove(ino) =~= a.page_cache.inodes@);
                            assert(self.core.vol@.inodes.remove(ino) =~= v.inodes.remove(ino));
                            lemma_tails_flushed(
                                a.page_cache,
                                a.page_cache,
                                v.inodes,
                                self.core.vol@.inodes,
                                ino,
                            );
                        }
                        let inode = match self.core.vol.read_inode(ino) {
                            Some(inode) => inode,
                            None => sized,
                        };
                        return (inode, taken);
                    },
                    None => {},
                }
            }
        }
        (current, 0)
    }

    /// Changes attributes of an inode, and the size of its file. The inode, and
    /// how many blocks it took, less those that it gave back.
    fn change_attrs(
        &mut self,
        current: Inode,
        attr: &VfsSetAttr,
        now: u64,
    ) -> (r: (Inode, i64))
        requires
            old(self).wf(),
            old(self).core.vol@.inodes.contains_key(current.ino),
            old(self).core.vol@.inodes[current.ino] == current,
            attr.size is Some ==> !old(self).core.page_cache.inodes@.contains_key(current.ino),
        ensures
            final(self).wf(),
            *final(self) == (LionFS { core: final(self).core, ..*old(self) }),
            final(self).core == (SharedCore { vol: final(self).core.vol, ..old(self).core }),
            vfs_impl::attr_of(r.0) == vfs_impl::attr_of(
                inode_changed(
                    old(self).core.vol@,
                    old(self).core.pins,
                    current.ino,
                    *attr,
                    now,
                ),
            ),
            r.1 == blocks_taken(old(self).core.vol@, final(self).core.vol@),
            volume_changed(
                old(self).core.vol@,
                final(self).core.vol@,
                old(self).core.pins,
                current.ino,
                *attr,
                now,
            ),
    {
        let ghost v = self.core.vol@;
        let ghost rc = self.core.pins;
        let ino = current.ino;
        proof {
            volume::lemma_inode_fits(self.core.vol, ino);
        }
        let bits = self.change_list(ino, attr);
        let ghost listed = self.core.vol@;
        let (sized, taken) = self.change_size(current, attr);
        let ghost resized = self.core.vol@;
        assert(new_size(listed, rc, ino, *attr) == new_size(v, rc, ino, *attr));
        let mut inode = sized;
        let changes = AttrChanges {
            mode: attr.mode,
            uid: attr.uid,
            gid: attr.gid,
            atime: match attr.atime {
                Some(t) => Some(TimeOrNow::At(t)),
                None => None,
            },
            mtime: match attr.mtime {
                Some(t) => Some(TimeOrNow::At(t)),
                None => None,
            },
        };
        metadata::apply_attr_changes(&mut inode, changes, now as i64);
        if let Some(b) = bits {
            inode.mode = (inode.mode & !0o777u32) | b;
        }
        proof {
            volume::lemma_inode_fits(self.core.vol, ino);
            lemma_changed_inode(v, listed, resized, rc, current, *attr, now, sized, inode);
        }
        let _ = self.core.put_inode(inode);
        proof {
            lemma_changed_volume(
                v,
                listed,
                resized,
                self.core.vol@,
                rc,
                current,
                *attr,
                now,
                inode,
            );
        }
        (inode, taken)
    }

    /// Changes attributes of an inode. An access list of the inode changes with
    /// its mode.
    pub fn setattr(&mut self, ino: u64, attr: &VfsSetAttr, now: u64) -> (r: Result<
        VfsAttr,
        VfsError,
    >)
        requires
            old(self).wf(),
            old(self).core.can_stage(),
        ensures
            final(self).wf(),
            final(self).same_storage(old(self)),
            final(self).core.commit_wake == old(self).core.commit_wake,
            ino != SCRUB_INO && ino != HEALTH_INO ==> r is Ok
                == old(self).core.vol@.inodes.contains_key(ino),
            ino != SCRUB_INO && ino != HEALTH_INO && r is Ok ==> {
                let before = old(self).core.vol@.inodes[ino];
                let after = final(self).core.vol@.inodes[ino];
                &&& attr.uid matches Some(u) ==> after.uid == u && r->Ok_0.uid == u
                &&& attr.uid is None ==> after.uid == before.uid && r->Ok_0.uid == before.uid
                &&& attr.gid matches Some(g) ==> after.gid == g && r->Ok_0.gid == g
                &&& attr.gid is None ==> after.gid == before.gid && r->Ok_0.gid == before.gid
                &&& attr.atime matches Some(t) ==> after.atime == t
                &&& attr.atime is None ==> after.atime == before.atime
                &&& attr.mtime matches Some(t) ==> after.mtime == t
                &&& attr.mtime is None && attr.size is None ==> after.mtime == before.mtime
                &&& attr.mode is None ==> after.mode == before.mode
                &&& after.mode & posix::S_IFMT == before.mode & posix::S_IFMT
                &&& attr.size is None ==> after.size == before.size
                &&& after.ctime == now as i64
                &&& r->Ok_0.size == after.size
                &&& r->Ok_0.perm == after.mode & 0o7777
            },
            if ino == SCRUB_INO || ino == HEALTH_INO {
                &&& r == Ok::<VfsAttr, VfsError>(vfs_impl::control_attr(ino))
                &&& *final(self) == *old(self)
            } else {
                exists|mid: SharedCore| #[trigger]
                    settled(old(self).core, mid, ino, *attr, now) && mid.wf() && {
                        &&& final(self).core.page_cache == mid.page_cache
                        &&& if mid.vol@.inodes.contains_key(ino) {
                            &&& r == Ok::<VfsAttr, VfsError>(
                                vfs_impl::attr_of(
                                    inode_changed(mid.vol@, mid.pins, ino, *attr, now),
                                ),
                            )
                            &&& volume_changed(
                                mid.vol@,
                                final(self).core.vol@,
                                mid.pins,
                                ino,
                                *attr,
                                now,
                            )
                            &&& final(self).core.commit_due
                            &&& filesystem::staged_taking(
                                mid,
                                final(self).core,
                                now,
                                1,
                                blocks_taken(mid.vol@, final(self).core.vol@),
                            )
                        } else {
                            &&& r matches Err(e) && e.errno == posix::ENOENT
                            &&& final(self).core.vol@ == mid.vol@
                            &&& final(self).core.commit_due == mid.commit_due
                            &&& filesystem::staged(mid, final(self).core, now, 0)
                        }
                    }
            },
    {
        if ino == SCRUB_INO || ino == HEALTH_INO {
            return Ok(Self::virtual_attr(ino));
        }
        if attr.size.is_some() {
            let _ = self.flush_ino(ino, now);
        }
        let ghost mid = self.core;
        assert(settled(old(self).core, mid, ino, *attr, now));
        proof {
            attr_laws::lemma_settled_inode(old(self).core, mid, ino, *attr, now);
        }
        let inode = match self.core.vol.read_inode(ino) {
            Some(inode) => inode,
            None => {
                let _ = self.core.stage(now, 0);
                return Err(VfsError::new(posix::ENOENT));
            },
        };
        let (inode, taken) = self.change_attrs(inode, attr, now);
        proof {
            attr_laws::setattr_sets_what_was_asked(
                mid.vol@,
                self.core.vol@,
                mid.pins,
                ino,
                *attr,
                now,
            );
        }
        let _ = self.core.stage_taking(now, 1, taken);
        self.core.commit_due = true;
        Ok(Self::to_vfs_attr(&inode))
    }
}

/// Changing the size of a file cuts what it holds, or fills it up with zeros.
pub proof fn resize_contents(
    a: SharedCore,
    b: SharedCore,
    ino: u64,
    attr: VfsSetAttr,
    now: u64,
    n: u64,
)
    requires
        a.wf(),
        a.vol@.inodes.contains_key(ino),
        !a.page_cache.inodes@.contains_key(ino),
        attr.size == Some(n),
        n <= a.vol@.limits.file_bytes,
        store::can_resize(a.vol@, a.pins, ino, n),
        b.page_cache == a.page_cache,
        volume_changed(a.vol@, b.vol@, a.pins, ino, attr, now),
    ensures
        b.content(ino) == volume::resized(a.content(ino), n as int),
{
    volume::lemma_inode_fits(a.vol, ino);
    reveal(inode_changed);
    assert(b.page_cache.pages(ino) == Map::<u64, Vec<u8>>::empty());
    assert(b.vol@.stored(ino) == volume::resized(a.vol@.stored(ino), n as int));
    assert(b.eff_size(ino) == n);
    let want = volume::resized(a.content(ino), n as int);
    assert forall|i: int| 0 <= i < n implies b.byte_at(ino, i) == want[i] by {
        if i < a.eff_size(ino) {
            assert(a.content(ino)[i] == a.byte_at(ino, i));
        }
    }
    assert(b.content(ino) =~= want);
}

} // verus!
