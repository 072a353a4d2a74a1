//! What files hold, and what writing, flushing and committing make of that.

use crate::fs::commit;
use crate::fs::filesystem;
use crate::fs::filesystem::SharedCore;
use crate::fs::page_cache;
use crate::fs::vfs::VfsError;
use crate::fs::vfs_data;
use crate::fs::vfs_impl::{HEALTH_INO, SCRUB_INO};
use crate::fs::volume;
use crate::ondisk::serialization::{Inode, Superblock};
use vstd::prelude::*;

verus! {

/// A file holds what is buffered over what is stored, and zeros where nothing
/// is. It is as long as its inode says or as the buffered writes reach,
/// whichever is more.
pub proof fn content_is_buffered_over_stored(core: SharedCore, ino: u64, i: int)
    requires
        core.vol@.inodes.contains_key(ino),
    ensures
        ({
            let size = core.vol@.inodes[ino].size;
            let pages = core.page_cache.pages(ino);
            let stored = core.vol@.stored(ino);
            &&& core.page_cache.shadow_of(ino) is None ==> core.content(ino).len() == size
            &&& core.page_cache.shadow_of(ino) matches Some((reach, _)) ==> core.content(ino).len()
                == (if reach > size {
                reach
            } else {
                size
            })
            &&& 0 <= i < core.content(ino).len() ==> core.content(ino)[i] == (if pages.contains_key(
                (i / 4096) as u64,
            ) {
                pages[(i / 4096) as u64]@[i % 4096]
            } else if i < stored.len() {
                stored[i]
            } else {
                0
            })
        }),
{
}

/// What a file holds after a write: the written bytes where they were written,
/// what it held elsewhere, and zeros in a gap before them. It never gets
/// shorter.
pub proof fn writing_replaces_a_range(content: Seq<u8>, offset: int, data: Seq<u8>, i: int)
    requires
        0 <= offset,
    ensures
        ({
            let after = vfs_data::content_after(content, offset, data);
            let end = offset + data.len();
            &&& data.len() == 0 ==> after == content
            &&& data.len() > 0 ==> after.len() == (if end > content.len() {
                end
            } else {
                content.len() as int
            })
            &&& data.len() > 0 && offset <= i < end ==> after[i] == data[i - offset]
            &&& 0 <= i < content.len() && (i < offset || i >= end) ==> after[i] == content[i]
            &&& data.len() > 0 && content.len() <= i < offset ==> after[i] == 0
        }),
{
}

/// What a file holds after its size is changed: its first bytes, and zeros
/// behind them where it has grown.
pub proof fn resizing_cuts_or_fills(content: Seq<u8>, n: int, i: int)
    requires
        0 <= n,
    ensures
        volume::resized(content, n).len() == n,
        0 <= i < n && i < content.len() ==> volume::resized(content, n)[i] == content[i],
        content.len() <= i < n ==> volume::resized(content, n)[i] == 0,
{
}

/// A flush that succeeds stores the file: its inode gets the size that the file
/// has and the time of the flush, and keeps what else it says but for where its
/// blocks are. Nothing of the file stays buffered; every other inode, and what
/// is buffered of other files, is as it was.
pub proof fn flush_stores_the_file(
    a: SharedCore,
    b: SharedCore,
    ino: u64,
    now: u64,
    other: u64,
)
    requires
        a.wf(),
        a.vol@.inodes.contains_key(ino),
        vfs_data::flushed(a, b, ino, now),
        vfs_data::flush_fails(a, ino) is None,
        other != ino,
    ensures
        ({
            let before = a.vol@.inodes[ino];
            let after = b.vol@.inodes[ino];
            &&& b.vol@.inodes.contains_key(ino)
            &&& after.size == a.content(ino).len()
            &&& after.mtime == now as i64
            &&& after == (Inode {
                size: after.size,
                mtime: after.mtime,
                extent_count: after.extent_count,
                extents: after.extents,
                spill_extent_root: after.spill_extent_root,
                ..before
            })
            &&& !b.page_cache.inodes@.contains_key(ino)
            &&& b.page_cache.pages(other) == a.page_cache.pages(other)
            &&& b.vol@.inodes[other] == a.vol@.inodes[other]
            &&& b.vol@.dirs == a.vol@.dirs
            &&& b.vol@.xattrs == a.vol@.xattrs
        }),
{
    volume::lemma_inode_fits(a.vol, ino);
}

/// A flush fails if the file is gone, if it is larger than a file may be, or if
/// there is no room for it; and only then.
pub proof fn flush_fails_for_a_reason(core: SharedCore, ino: u64)
    ensures
        vfs_data::flush_fails(core, ino) is None <==> core.vol@.inodes.contains_key(ino)
            && core.content(ino).len() <= core.vol@.limits.file_bytes && vfs_data::flush_has_room(
            core,
            ino,
        ),
{
}

/// A write that goes through sets the time of the last change, grows the file
/// as far as it reaches, and keeps what else the inode says but for where its
/// blocks are. No other inode changes.
pub proof fn write_through_touches_the_inode(
    a: SharedCore,
    b: SharedCore,
    ino: u64,
    offset: u64,
    data: Seq<u8>,
    now: u64,
    other: u64,
)
    requires
        a.wf(),
        a.vol@.inodes.contains_key(ino),
        offset + data.len() <= u64::MAX,
        vfs_data::stored_through(a, b, ino, offset, data, now),
        other != ino,
    ensures
        ({
            let before = a.vol@.inodes[ino];
            let after = b.vol@.inodes[ino];
            &&& after.mtime == now as i64
            &&& after.size == (if data.len() > 0 && offset + data.len() > before.size {
                offset + data.len()
            } else {
                before.size as int
            })
            &&& after == (Inode {
                size: after.size,
                mtime: after.mtime,
                extent_count: after.extent_count,
                extents: after.extents,
                spill_extent_root: after.spill_extent_root,
                ..before
            })
            &&& b.vol@.inodes[other] == a.vol@.inodes[other]
            &&& b.vol@.dirs == a.vol@.dirs
            &&& b.vol@.xattrs == a.vol@.xattrs
        }),
{
    volume::lemma_inode_fits(a.vol, ino);
}

/// What a write answers. What was written to the scrubber's file is taken and
/// changes nothing; the health file refuses; a file that is not there fails.
/// Any other write that is buffered takes every byte; the volume stays as it
/// is until the file is flushed.
pub proof fn writes_are_answered(
    a: SharedCore,
    b: SharedCore,
    ino: u64,
    offset: u64,
    data: Seq<u8>,
    now: u64,
    r: Result<u32, VfsError>,
)
    requires
        vfs_data::wrote(a, b, ino, offset, data, now, r),
    ensures
        ino == SCRUB_INO ==> b == a && r == Ok::<u32, VfsError>(data.len() as u32),
        ino == HEALTH_INO ==> b == a && (r matches Err(e) && e.errno == 1),
        ino != SCRUB_INO && ino != HEALTH_INO && !a.vol@.inodes.contains_key(ino) ==> b == a && (
        r matches Err(e) && e.errno == 5),
        ino != SCRUB_INO && ino != HEALTH_INO && a.vol@.inodes.contains_key(ino)
            && a.page_cache.enabled && a.vol@.inodes[ino].compression_algo == 0 ==> r == Ok::<
            u32,
            VfsError,
        >(data.len() as u32),
        ino != SCRUB_INO && ino != HEALTH_INO && a.vol@.inodes.contains_key(ino) && (
        !a.page_cache.enabled || a.vol@.inodes[ino].compression_algo != 0) ==> b.page_cache
            == a.page_cache && (r is Ok ==> vfs_data::stored_through(a, b, ino, offset, data, now)),
{
}

/// A buffered write takes the time and reaches as far as it goes; what was
/// buffered before counts on.
pub proof fn buffered_write_moves_the_shadow(
    a: SharedCore,
    b: SharedCore,
    ino: u64,
    offset: u64,
    data: Seq<u8>,
    now: u64,
)
    requires
        vfs_data::buffered(a, b, ino, offset, data, now),
        data.len() > 0,
        offset + data.len() <= u64::MAX,
    ensures
        b.page_cache.shadow_of(ino) matches Some((reach, time)) && time == now && reach >= offset
            + data.len() && (match a.page_cache.shadow_of(ino) {
            Some((before, _)) => reach == before || (before < reach && reach == offset
                + data.len()),
            None => reach == offset + data.len(),
        }) && (match a.page_cache.shadow_of(ino) {
            Some((before, _)) => reach >= before,
            None => true,
        }),
{
}

/// Staging keeps one transaction open: the one that is, or a new one with the
/// next number. It counts the blocks that are changed, and those that are taken
/// less those given back. Nothing that is being committed is touched.
pub proof fn staging_counts_in_one_transaction(
    a: SharedCore,
    b: SharedCore,
    now: u64,
    blocks: u64,
    taken: int,
)
    requires
        filesystem::staged_taking(a, b, now, blocks, taken),
    ensures
        b.active_tx is Some,
        b.committing == a.committing,
        a.active_tx matches Some(t) ==> {
            let u = b.active_tx->0;
            &&& u.id == t.id && u.begun == t.begun && u.root_cells == t.root_cells
            &&& t.dirty + blocks <= u64::MAX ==> u.dirty == t.dirty + blocks
            &&& i64::MIN <= t.alloc_delta + taken <= i64::MAX ==> u.alloc_delta == t.alloc_delta
                + taken
            &&& b.current_tx_id == a.current_tx_id
        },
        a.active_tx is None ==> {
            let u = b.active_tx->0;
            &&& u.id == a.current_tx_id + 1 && u.begun == now && u.dirty == blocks
            &&& i64::MIN <= taken <= i64::MAX ==> u.alloc_delta == taken
            &&& b.current_tx_id == a.current_tx_id + 1
        },
{
}

/// A commit that lands takes the blocks off the free ones that the transaction
/// took, and gives those back that it gave back, down to none; makes the trees'
/// moved roots those of the superblock; and leaves the other roots, the files
/// and the names as they were.
pub proof fn landed_commit_settles_the_superblock(a: SharedCore, b: SharedCore)
    requires
        commit::commit_landed(a, b),
        a.active_tx is Some,
        filesystem::countable(a.vol@.sb.free_blocks, a.active_tx->0.alloc_delta),
    ensures
        ({
            let before = a.vol@.sb;
            let after = b.vol@.sb;
            let delta = a.active_tx->0.alloc_delta;
            let moved = a.vol@.root_cells;
            &&& before.free_blocks - delta >= 0 ==> after.free_blocks == before.free_blocks - delta
            &&& before.free_blocks - delta < 0 ==> after.free_blocks == 0
            &&& after.inode_tree_root == (if moved.contains_key(
                filesystem::INODE_TREE_NODE_TYPE,
            ) {
                moved[filesystem::INODE_TREE_NODE_TYPE]
            } else {
                before.inode_tree_root
            })
            &&& after.dir_tree_root == (if moved.contains_key(filesystem::DIR_TREE_NODE_TYPE) {
                moved[filesystem::DIR_TREE_NODE_TYPE]
            } else {
                before.dir_tree_root
            })
            &&& after.checksum_tree_root == (if moved.contains_key(
                filesystem::CHECKSUM_TREE_NODE_TYPE,
            ) {
                moved[filesystem::CHECKSUM_TREE_NODE_TYPE]
            } else {
                before.checksum_tree_root
            })
            &&& after.xattr_tree_root == (if moved.contains_key(volume::XATTR_TREE_NODE_TYPE) {
                moved[volume::XATTR_TREE_NODE_TYPE]
            } else {
                before.xattr_tree_root
            })
            &&& after.clone_tree_root == (if moved.contains_key(volume::CLONE_TREE_NODE_TYPE) {
                moved[volume::CLONE_TREE_NODE_TYPE]
            } else {
                before.clone_tree_root
            })
            &&& after.refcount_tree_root == (if moved.contains_key(
                filesystem::REFCOUNT_TREE_NODE_TYPE,
            ) {
                moved[filesystem::REFCOUNT_TREE_NODE_TYPE]
            } else {
                before.refcount_tree_root
            })
            &&& moved != Map::<u64, u64>::empty() ==> after.node_generation == a.node_stamp
            &&& moved == Map::<u64, u64>::empty() ==> after == (Superblock {
                free_blocks: after.free_blocks,
                ..before
            })
            &&& after == (Superblock {
                free_blocks: after.free_blocks,
                inode_tree_root: after.inode_tree_root,
                dir_tree_root: after.dir_tree_root,
                checksum_tree_root: after.checksum_tree_root,
                xattr_tree_root: after.xattr_tree_root,
                clone_tree_root: after.clone_tree_root,
                refcount_tree_root: after.refcount_tree_root,
                node_generation: after.node_generation,
                ..before
            })
            &&& b.vol@.root_cells == Map::<u64, u64>::empty()
            &&& b.vol@.inodes == a.vol@.inodes && b.vol@.dirs == a.vol@.dirs && b.vol@.data
                == a.vol@.data && b.vol@.xattrs == a.vol@.xattrs
        }),
{
}

/// The stamp after a mount is past every one that was given: that of the last
/// node, of the last snapshot, and of the last transaction; and at least one.
pub proof fn greatest_of_four(a: u64, b: u64, c: u64, d: u64)
    ensures
        ({
            let m = filesystem::max4(a, b, c, d);
            &&& m >= a && m >= b && m >= c && m >= d
            &&& m == a || m == b || m == c || m == d
        }),
{
}

/// A store touches the blocks that hold one of its bytes, and covers those all
/// of whose bytes it holds.
pub proof fn blocks_of_a_write(k: int, offset: int, len: int, x: int)
    requires
        0 <= offset,
        0 <= k,
    ensures
        offset <= x < offset + len ==> page_cache::touched(x / 4096, offset, len),
        page_cache::touched(k, offset, len) ==> len > 0 && k * 4096 < offset + len && offset < k
            * 4096 + 4096,
        len > 0 && k * 4096 < offset + len && offset < k * 4096 + 4096 ==> page_cache::touched(
            k,
            offset,
            len,
        ),
        page_cache::overwrites_block(k, offset, len) && k * 4096 <= x < k * 4096 + 4096 ==> offset
            <= x < offset + len,
        !page_cache::overwrites_block(k, offset, len) ==> k * 4096 < offset || offset + len < k
            * 4096 + 4096,
{
}

/// A flush that leaves a large transaction, of 1024 blocks or more, asks for a
/// commit; a smaller one leaves it as it was, and so does a flush that fails.
pub proof fn large_transactions_are_committed(a: SharedCore, b: SharedCore, ino: u64)
    ensures
        a.commit_due ==> vfs_data::due_after_flush(a, b, ino),
        vfs_data::flush_fails(a, ino) is None && b.active_tx->0.dirty >= 1024
            ==> vfs_data::due_after_flush(a, b, ino),
        b.active_tx->0.dirty < 1024 || vfs_data::flush_fails(a, ino) is Some
            ==> vfs_data::due_after_flush(a, b, ino) == a.commit_due,
{
}

} // verus!
