//! What the count of free blocks promises.

use crate::file::area;
use crate::fs::commit;
use crate::fs::filesystem;
use crate::fs::filesystem::{SharedCore, Transaction};
use crate::fs::vfs::{VfsError, VfsSetAttr};
use crate::fs::vfs_data;
use crate::fs::volume;
use crate::fs::volume::Limits;
use crate::ondisk::serialization::Superblock;
use vstd::prelude::*;

verus! {

/// The blocks that transactions take.
pub open spec fn taken_by(txs: Seq<Transaction>) -> int
    decreases txs.len(),
{
    if txs.len() == 0 {
        0
    } else {
        taken_by(txs.drop_last()) + txs.last().alloc_delta
    }
}

/// The blocks that the active transaction takes.
pub open spec fn active_takes(core: SharedCore) -> int {
    match core.active_tx {
        Some(t) => t.alloc_delta as int,
        None => 0,
    }
}

/// The superblock counts the free data blocks and the `aside` blocks that were
/// set aside for metadata, but for those that transactions take that have not
/// landed.
pub open spec fn counted(core: SharedCore, aside: int) -> bool {
    core.vol@.sb.free_blocks - taken_by(core.committing@) - active_takes(core) == area::free_in(
        core.vol@.area.used@,
    ) + aside
}

/// What the active transaction takes can be counted once it takes more.
pub open spec fn can_take(core: SharedCore, more: int) -> bool {
    i64::MIN <= active_takes(core) + more <= i64::MAX
}

/// Staging blocks counts them.
proof fn lemma_staged(
    a: SharedCore,
    b: SharedCore,
    aside: int,
    now: u64,
    blocks: u64,
    taken: int,
)
    requires
        counted(a, aside),
        can_take(a, taken),
        filesystem::staged_taking(a, b, now, blocks, taken),
        b.vol@.sb.free_blocks == a.vol@.sb.free_blocks,
        vfs_data::blocks_taken(a.vol@, b.vol@) == taken,
    ensures
        counted(b, aside),
{
}

/// A flush counts the blocks that it takes.
pub proof fn flush_counts_blocks(a: SharedCore, b: SharedCore, aside: int, ino: u64, now: u64)
    requires
        counted(a, aside),
        can_take(a, vfs_data::flush_takes(a, ino) as int),
        vfs_data::flushed(a, b, ino, now),
    ensures
        counted(b, aside),
{
    match vfs_data::flush_fails(a, ino) {
        Some(_) => {
            lemma_staged(a, b, aside, now, 0, 0);
        },
        None => {
            lemma_staged(
                a,
                b,
                aside,
                now,
                vfs_data::flush_blocks(a, ino),
                vfs_data::flush_takes(a, ino) as int,
            );
        },
    }
}

/// A write past the buffer counts the blocks that it takes.
pub proof fn write_through_counts_blocks(
    a: SharedCore,
    b: SharedCore,
    aside: int,
    ino: u64,
    offset: u64,
    data: Seq<u8>,
    now: u64,
    r: Result<u32, VfsError>,
)
    requires
        counted(a, aside),
        can_take(a, vfs_data::range_takes(a, ino, offset as int, data.len() as int) as int),
        vfs_data::through(a, b, ino, offset, data, now, r),
    ensures
        counted(b, aside),
{
    if r is Ok {
        lemma_staged(
            a,
            b,
            aside,
            now,
            vfs_data::blocks_staged(data.len() as int) as u64,
            vfs_data::range_takes(a, ino, offset as int, data.len() as int) as int,
        );
    } else {
        lemma_staged(a, b, aside, now, 0, 0);
    }
}

/// A change of attributes counts the blocks that it takes and gives back.
pub proof fn change_counts_blocks(
    a: SharedCore,
    b: SharedCore,
    aside: int,
    ino: u64,
    attr: VfsSetAttr,
    now: u64,
)
    requires
        counted(a, aside),
        can_take(a, vfs_data::blocks_taken(a.vol@, b.vol@)),
        vfs_data::volume_changed(a.vol@, b.vol@, a.pins, ino, attr, now),
        filesystem::staged_taking(
            a,
            b,
            now,
            1,
            vfs_data::blocks_taken(a.vol@, b.vol@),
        ),
    ensures
        counted(b, aside),
{
    lemma_staged(a, b, aside, now, 1, vfs_data::blocks_taken(a.vol@, b.vol@));
}

/// A commit that lands moves what it takes into the superblock.
pub proof fn commit_counts_blocks(a: SharedCore, b: SharedCore, aside: int)
    requires
        counted(a, aside),
        a.has_staged(),
        a.active_tx->0.alloc_delta <= a.vol@.sb.free_blocks,
        a.can_land(),
        commit::commit_landed(a, b),
    ensures
        counted(b, aside),
{
    let folded = Superblock {
        free_blocks: filesystem::free_after(
            a.vol@.sb.free_blocks,
            a.active_tx->0.alloc_delta,
        ) as u64,
        ..a.vol@.sb
    };
    assert(filesystem::roots_taken(folded, a.vol@.root_cells).free_blocks == folded.free_blocks);
}

/// Blocks of which the first `k` are in use have the others free.
proof fn lemma_first_in_use(used: Seq<bool>, k: int)
    requires
        0 <= k <= used.len(),
        forall|i: int| 0 <= i < used.len() ==> #[trigger] used[i] == (i < k),
    ensures
        area::free_in(used) == used.len() - k,
    decreases used.len(),
{
    if used.len() > 0 {
        let rest = used.drop_last();
        let n = used.len() as int;
        assert forall|i: int| 0 <= i < rest.len() implies #[trigger] rest[i] == (i < k) by {
            assert(rest[i] == used[i]);
        }
        lemma_first_in_use(
            rest,
            if k < n {
                k
            } else {
                n - 1
            },
        );
        assert(used.last() == used[n - 1]);
    }
}

/// A new volume has the free blocks that its superblock tells, if any block is
/// in use and all of them are data blocks.
pub proof fn new_volume_counts_blocks(core: SharedCore, sb: Superblock, limits: Limits)
    requires
        volume::is_empty_volume(core.vol@, sb, limits),
        core.live_ids().len() == 0,
        sb.free_blocks < sb.total_blocks <= limits.blocks,
    ensures
        counted(core, volume::area_aside(sb, limits)),
{
    lemma_first_in_use(
        core.vol@.area.used@,
        volume::area_reserved(sb, limits) + volume::area_aside(sb, limits),
    );
    assert(core.committing@.len() == 0);
}

/// Once everything has landed, the free blocks that the superblock tells are
/// the free data blocks, and those that were set aside.
pub proof fn free_blocks_are_told(core: SharedCore, aside: int)
    requires
        counted(core, aside),
        core.live_ids().len() == 0,
    ensures
        core.vol@.sb.free_blocks == area::free_in(core.vol@.area.used@) + aside,
{
}

} // verus!
