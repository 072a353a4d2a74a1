//! The state of a mounted image: what it holds, what is cached, and the
//! transactions on their way to the device.
//!
//! Operations stage into one active transaction. A commit freezes it, writes
//! it out while the next one fills up, and retires it once it has landed.

use crate::common::text;
use crate::common::version;
use crate::error::{Error, ErrorKind};
use crate::file::area::DataArea;
use crate::fs::page_cache::PageCache;
use crate::fs::placement;
use crate::fs::volume;
use crate::fs::volume::{Limits, Volume, VolumeView, CLONE_TREE_NODE_TYPE, XATTR_TREE_NODE_TYPE};
use crate::integrity::bad_blocks::BadBlockManager;
use crate::integrity::refcount::RefCountManager;
use crate::ondisk::serialization::{BlockGroupDescriptor, Inode, Superblock, BLOCK_SIZE};
use crate::ondisk::superblock;
use crate::ordmap;
use crate::ordmap::OrdMap;
use vstd::prelude::*;
use vstd::string::StringExecFns;

verus! {

/// Node type of the inode tree.
pub const INODE_TREE_NODE_TYPE: u64 = 1;

/// Node type of the directory-name tree.
pub const DIR_TREE_NODE_TYPE: u64 = 2;

/// Node type of the checksum tree.
pub const CHECKSUM_TREE_NODE_TYPE: u64 = 5;

/// Node type of the coverage tree.
pub const REFCOUNT_TREE_NODE_TYPE: u64 = 7;

/// How often a waiter waits for a commit before it drives one itself.
pub const COVER_PATIENCE: u32 = 100;

/// A transaction.
pub struct Transaction {
    /// Number, higher for later ones.
    pub id: u64,
    /// When it began, in seconds since the epoch.
    pub begun: u64,
    /// Blocks that it rewrites.
    pub dirty: u64,
    /// Blocks that it takes, less those that it gives back.
    pub alloc_delta: i64,
    /// Tree roots that it moves, by node type.
    pub root_cells: OrdMap<u64>,
}

/// What the committer and its waiters agree on.
#[derive(Debug, Clone, Copy, PartialEq, Eq, Structural)]
pub struct CommitCoord {
    /// The committer is to stop.
    pub shutdown: bool,
}

impl Default for CommitCoord {
    /// Not stopping.
    fn default() -> (r: Self)
        ensures
            !r.shutdown,
    {
        CommitCoord { shutdown: false }
    }
}

/// The shared state of a mounted image.
pub struct SharedCore {
    /// What the image holds, with everything that is staged.
    pub vol: Volume,
    /// Which blocks are pinned.
    pub pins: RefCountManager,
    /// Buffered writes.
    pub page_cache: PageCache,
    /// Number of the last transaction that was begun.
    pub current_tx_id: u64,
    /// The transaction that operations stage into.
    pub active_tx: Option<Transaction>,
    /// Frozen transactions that have not landed, oldest first.
    pub committing: Vec<Transaction>,
    /// There is an active transaction.
    pub tx_present: bool,
    /// How many transactions are frozen.
    pub pending_count: u64,
    /// Moves with every freeze and every retirement.
    pub commit_seq: u64,
    /// Number of commits that have landed.
    pub commit_end: u64,
    /// What the committer and its waiters agree on.
    pub commit_coord: CommitCoord,
    /// Highest node stamp handed out.
    pub node_stamp: u64,
    /// Highest node stamp that a live snapshot can reach.
    pub live_barrier: u64,
    /// A commit is to be driven now.
    pub commit_due: bool,
    /// The committer is to look for work.
    pub commit_wake: bool,
}

/// The ids of transactions, in order.
pub open spec fn tx_ids(s: Seq<Transaction>) -> Seq<u64> {
    s.map_values(|t: Transaction| t.id)
}

/// The blocks that a transaction takes once it takes `more` of them, as far as
/// they can be counted.
pub open spec fn delta_after(delta: i64, more: int) -> i64 {
    if delta + more > i64::MAX {
        i64::MAX
    } else if delta + more < i64::MIN {
        i64::MIN
    } else {
        (delta + more) as i64
    }
}

/// `b` has `blocks` more rewritten blocks in its active transaction than `a`,
/// which began it at `now` if there was none; no other transaction moved.
pub open spec fn staged(a: SharedCore, b: SharedCore, now: u64, blocks: u64) -> bool {
    staged_taking(a, b, now, blocks, 0)
}

/// `b` has `blocks` more rewritten blocks in its active transaction than `a`,
/// which takes `taken` data blocks more; it began at `now` if there was none,
/// and no other transaction moved.
pub open spec fn staged_taking(
    a: SharedCore,
    b: SharedCore,
    now: u64,
    blocks: u64,
    taken: int,
) -> bool {
    &&& b.committing == a.committing
    &&& b.commit_seq == a.commit_seq
    &&& b.commit_end == a.commit_end
    &&& b.commit_coord == a.commit_coord
    &&& b.active_tx is Some
    &&& b.current_tx_id == (if a.active_tx is Some {
        a.current_tx_id as int
    } else {
        a.current_tx_id + 1
    })
    &&& match a.active_tx {
        Some(t) => b.active_tx->0 == (Transaction {
            dirty: if t.dirty + blocks > u64::MAX {
                u64::MAX
            } else {
                (t.dirty + blocks) as u64
            },
            alloc_delta: delta_after(t.alloc_delta, taken),
            ..t
        }),
        None => {
            &&& b.active_tx->0.id == b.current_tx_id
            &&& b.active_tx->0.begun == now
            &&& b.active_tx->0.dirty == blocks
            &&& b.active_tx->0.alloc_delta == delta_after(0, taken)
            &&& b.active_tx->0.root_cells@ == Map::<u64, u64>::empty()
        },
    }
}

/// The byte that the volume stores at `i` of a file, 0 where it stores none.
pub open spec fn stored_byte(stored: Seq<u8>, i: int) -> u8 {
    if i < stored.len() {
        stored[i]
    } else {
        0
    }
}

/// The superblock once the roots that a transaction moved are taken over.
pub open spec fn roots_taken(sb: Superblock, cells: Map<u64, u64>) -> Superblock {
    Superblock {
        inode_tree_root: cell_or(cells, INODE_TREE_NODE_TYPE, sb.inode_tree_root),
        dir_tree_root: cell_or(cells, DIR_TREE_NODE_TYPE, sb.dir_tree_root),
        checksum_tree_root: cell_or(cells, CHECKSUM_TREE_NODE_TYPE, sb.checksum_tree_root),
        xattr_tree_root: cell_or(cells, XATTR_TREE_NODE_TYPE, sb.xattr_tree_root),
        clone_tree_root: cell_or(cells, CLONE_TREE_NODE_TYPE, sb.clone_tree_root),
        refcount_tree_root: cell_or(cells, REFCOUNT_TREE_NODE_TYPE, sb.refcount_tree_root),
        ..sb
    }
}

/// The root that a transaction gave a tree, or the one that it had.
pub open spec fn cell_or(cells: Map<u64, u64>, node_type: u64, root: u64) -> u64 {
    if cells.contains_key(node_type) {
        cells[node_type]
    } else {
        root
    }
}

/// The free blocks after a transaction took `delta` of them.
pub open spec fn free_after(free: u64, delta: i64) -> int {
    if free - delta > 0 {
        free - delta
    } else {
        0
    }
}

/// The free blocks after a transaction took `delta` of them can be counted.
pub open spec fn countable(free: u64, delta: i64) -> bool {
    delta != 0 ==> free <= i64::MAX && i64::MIN <= free - delta <= i64::MAX
}

/// The transactions: numbers go up, the flags agree with what is there, and
/// the sequence number is odd exactly when an odd number is frozen.
#[verifier::opaque]
pub open spec fn pipeline_sound(
    active: Option<Transaction>,
    committing: Seq<Transaction>,
    tx_present: bool,
    pending_count: u64,
    commit_seq: u64,
    current_tx_id: u64,
) -> bool {
    &&& tx_present == (active is Some)
    &&& pending_count == committing.len()
    &&& commit_seq % 2 == pending_count % 2
    &&& forall|i: int, j: int|
        0 <= i < j < committing.len() ==> (#[trigger] committing[i]).id < (
        #[trigger] committing[j]).id
    &&& forall|i: int|
        0 <= i < committing.len() ==> (#[trigger] committing[i]).id <= current_tx_id
            && committing[i].root_cells.wf()
    &&& active matches Some(t) ==> {
        &&& t.id <= current_tx_id
        &&& t.root_cells.wf()
        &&& forall|i: int|
            0 <= i < committing.len() ==> (#[trigger] committing[i]).id < t.id
    }
}

/// The page cache is sound.
#[verifier::opaque]
pub open spec fn cache_ok(cache: PageCache) -> bool {
    cache.wf()
}

/// The size that is stored for a file.
pub open spec fn stored_size(inodes: Map<u64, Inode>, ino: u64) -> u64 {
    if inodes.contains_key(ino) {
        inodes[ino].size
    } else {
        0
    }
}

/// The size of a file with what is buffered.
pub open spec fn size_with_shadow(
    cache: PageCache,
    inodes: Map<u64, Inode>,
    ino: u64,
) -> u64 {
    match cache.shadow_of(ino) {
        Some((shadow, _)) => if shadow > stored_size(inodes, ino) {
            shadow
        } else {
            stored_size(inodes, ino)
        },
        None => stored_size(inodes, ino),
    }
}

/// Buffered pages are zero past the end of their files.
#[verifier::opaque]
pub open spec fn tails_zero(cache: PageCache, inodes: Map<u64, Inode>) -> bool {
    forall|ino: u64, k: u64, j: int|
        cache.pages(ino).contains_key(k) && 0 <= j < BLOCK_SIZE && k * BLOCK_SIZE + j
            >= size_with_shadow(cache, inodes, ino) ==> #[trigger] cache.pages(ino)[k]@[j] == 0
}

impl SharedCore {
    /// The transactions are in order and agree with the counters.
    pub open spec fn pipeline_ok(&self) -> bool {
        pipeline_sound(
            self.active_tx,
            self.committing@,
            self.tx_present,
            self.pending_count,
            self.commit_seq,
            self.current_tx_id,
        )
    }

    /// The size of a file, without what is buffered.
    pub open spec fn size_of(&self, ino: u64) -> u64 {
        stored_size(self.vol@.inodes, ino)
    }

    /// The size of a file with what is buffered.
    pub open spec fn eff_size(&self, ino: u64) -> u64 {
        size_with_shadow(self.page_cache, self.vol@.inodes, ino)
    }

    /// The byte at `i` of a file: of the buffered page if there is one, else
    /// what is stored.
    pub open spec fn byte_at(&self, ino: u64, i: int) -> u8 {
        let pages = self.page_cache.pages(ino);
        let k = (i / (BLOCK_SIZE as int)) as u64;
        if pages.contains_key(k) {
            pages[k]@[i % (BLOCK_SIZE as int)]
        } else {
            stored_byte(self.vol@.stored(ino), i)
        }
    }

    /// What a file holds.
    pub open spec fn content(&self, ino: u64) -> Seq<u8> {
        Seq::new(self.eff_size(ino) as nat, |i: int| self.byte_at(ino, i))
    }

    /// The parts are sound and agree with each other.
    pub open spec fn wf(&self) -> bool {
        &&& self.vol.wf()
        &&& self.pins.wf()
        &&& cache_ok(self.page_cache)
        &&& self.pipeline_ok()
        &&& tails_zero(self.page_cache, self.vol@.inodes)
        &&& placement::shares_pinned(self.vol@.all_runs(), self.pins)
    }

    /// The superblock.
    pub fn sb(&self) -> (r: Superblock)
        ensures
            r == self.vol@.sb,
    {
        self.vol.sb
    }

    /// The ids of all live transactions: the frozen ones, oldest first, and
    /// the active one.
    pub open spec fn live_ids(&self) -> Seq<u64> {
        match self.active_tx {
            Some(t) => tx_ids(self.committing@).push(t.id),
            None => tx_ids(self.committing@),
        }
    }

    /// The ids of all live transactions.
    pub fn live_txids(&self) -> (r: Vec<u64>)
        ensures
            r@ == self.live_ids(),
    {
        let mut ids: Vec<u64> = Vec::new();
        let mut i: usize = 0;
        while i < self.committing.len()
            invariant
                i <= self.committing@.len(),
                ids@ == tx_ids(self.committing@).take(i as int),
            decreases self.committing@.len() - i,
        {
            ids.push(self.committing[i].id);
            i = i + 1;
            assert(ids@ =~= tx_ids(self.committing@).take(i as int));
        }
        assert(ids@ =~= tx_ids(self.committing@));
        if let Some(t) = &self.active_tx {
            ids.push(t.id);
        }
        ids
    }

    /// Whether a transaction has not landed yet.
    pub fn tx_live(&self, txid: u64) -> (r: bool)
        ensures
            r == self.live_ids().contains(txid),
    {
        if let Some(t) = &self.active_tx {
            if t.id == txid {
                assert(self.live_ids().last() == txid);
                return true;
            }
        }
        let mut i: usize = 0;
        while i < self.committing.len()
            invariant
                i <= self.committing@.len(),
                forall|j: int| 0 <= j < i ==> (#[trigger] self.committing@[j]).id != txid,
            decreases self.committing@.len() - i,
        {
            if self.committing[i].id == txid {
                assert(self.live_ids()[i as int] == txid);
                return true;
            }
            i = i + 1;
        }
        proof {
            if self.live_ids().contains(txid) {
                let j = choose|j: int|
                    0 <= j < self.live_ids().len() && self.live_ids()[j] == txid;
                if j < self.committing@.len() {
                    assert(self.committing@[j].id == txid);
                }
            }
        }
        false
    }

    /// Whether no transaction is frozen.
    pub fn committing_is_empty(&self) -> (r: bool)
        ensures
            r == (self.committing@.len() == 0),
    {
        self.committing.len() == 0
    }

    /// A transaction is active, or there is a number for another.
    pub open spec fn can_stage(&self) -> bool {
        self.active_tx is Some || self.current_tx_id < u64::MAX
    }

    /// What stays when only the transactions change.
    pub open spec fn same_image(&self, other: &SharedCore) -> bool {
        &&& self.vol@ == other.vol@
        &&& self.pins == other.pins
        &&& self.page_cache == other.page_cache
        &&& self.node_stamp == other.node_stamp
        &&& self.live_barrier == other.live_barrier
    }

    /// What stays when a transaction moves on: the numbering, and what the
    /// committer is told.
    pub open spec fn same_signals(&self, other: &SharedCore) -> bool {
        &&& self.current_tx_id == other.current_tx_id
        &&& self.commit_coord == other.commit_coord
        &&& self.commit_due == other.commit_due
        &&& self.commit_wake == other.commit_wake
    }

    /// Stages `blocks` rewritten blocks into the active transaction, which is
    /// begun if there is none. The transaction that holds them, if it holds
    /// any block at all.
    pub fn stage(&mut self, now: u64, blocks: u64) -> (r: Option<u64>)
        requires
            old(self).wf(),
            old(self).can_stage(),
        ensures
            final(self).wf(),
            final(self).same_image(old(self)),
            final(self).vol == old(self).vol,
            final(self).commit_due == old(self).commit_due,
            final(self).commit_wake == old(self).commit_wake,
            staged(*old(self), *final(self), now, blocks),
            r == (if final(self).active_tx->0.dirty > 0 {
                Some(final(self).active_tx->0.id)
            } else {
                None
            }),
    {
        self.stage_taking(now, blocks, 0)
    }

    /// Stages `blocks` rewritten blocks, of which `more` were free before, less
    /// those that are free now, into the active transaction, which is begun if
    /// there is none. The transaction that holds them, if it holds any block at
    /// all.
    pub fn stage_taking(&mut self, now: u64, blocks: u64, more: i64) -> (r: Option<u64>)
        requires
            old(self).wf(),
            old(self).can_stage(),
        ensures
            final(self).wf(),
            final(self).same_image(old(self)),
            final(self).vol == old(self).vol,
            final(self).commit_due == old(self).commit_due,
            final(self).commit_wake == old(self).commit_wake,
            staged_taking(*old(self), *final(self), now, blocks, more as int),
            r == (if final(self).active_tx->0.dirty > 0 {
                Some(final(self).active_tx->0.id)
            } else {
                None
            }),
    {
        proof {
            reveal(pipeline_sound);
        }
        let taken = self.active_tx.take();
        let mut tx = match taken {
            Some(t) => t,
            None => {
                self.current_tx_id = self.current_tx_id + 1;
                Transaction {
                    id: self.current_tx_id,
                    begun: now,
                    dirty: 0,
                    alloc_delta: 0,
                    root_cells: OrdMap::new(),
                }
            },
        };
        tx.dirty = tx.dirty.saturating_add(blocks);
        let delta: i128 = tx.alloc_delta as i128 + more as i128;
        tx.alloc_delta = if delta > i64::MAX as i128 {
            i64::MAX
        } else if delta < i64::MIN as i128 {
            i64::MIN
        } else {
            delta as i64
        };
        let (id, dirty) = (tx.id, tx.dirty);
        self.active_tx = Some(tx);
        self.tx_present = true;
        if dirty > 0 {
            Some(id)
        } else {
            None
        }
    }

    /// Freezes the active transaction: takes it out of staging, with the
    /// roots that it moved, and puts it last among the frozen ones. A
    /// transaction that rewrites nothing is dropped. The id of the frozen one.
    #[verifier::rlimit(40)]
    pub fn quiesce_tx(&mut self) -> (r: Option<u64>)
        requires
            old(self).wf(),
            old(self).committing@.len() < u64::MAX,
        ensures
            final(self).wf(),
            final(self).active_tx is None,
            final(self).pins == old(self).pins,
            final(self).page_cache == old(self).page_cache,
            final(self).node_stamp == old(self).node_stamp,
            final(self).live_barrier == old(self).live_barrier,
            final(self).commit_end == old(self).commit_end,
            final(self).same_signals(old(self)),
            match old(self).active_tx {
                Some(t) => if t.dirty == 0 {
                    &&& r is None
                    &&& final(self).committing == old(self).committing
                    &&& final(self).commit_seq == old(self).commit_seq
                    &&& final(self).vol@ == old(self).vol@
                } else {
                    &&& r == Some(t.id)
                    &&& final(self).committing@.len() == old(self).committing@.len() + 1
                    &&& final(self).committing@.drop_last() == old(self).committing@
                    &&& final(self).committing@.last().id == t.id
                    &&& final(self).committing@.last().alloc_delta == t.alloc_delta
                    &&& final(self).committing@.last().dirty == t.dirty
                    &&& final(self).committing@.last().root_cells@ == old(self).vol@.root_cells
                    &&& final(self).commit_seq == old(self).commit_seq.wrapping_add(1)
                    &&& final(self).vol@ == (volume::VolumeView {
                        root_cells: Map::empty(),
                        ..old(self).vol@
                    })
                },
                None => {
                    &&& r is None
                    &&& final(self).committing == old(self).committing
                    &&& final(self).commit_seq == old(self).commit_seq
                    &&& final(self).vol@ == old(self).vol@
                },
            },
    {
        proof {
            reveal(pipeline_sound);
        }
        let taken = self.active_tx.take();
        self.tx_present = false;
        match taken {
            Some(tx) => {
                if tx.dirty == 0 {
                    return None;
                }
                let id = tx.id;
                let cells = self.vol.take_root_cells();
                let frozen = Transaction { root_cells: cells, ..tx };
                let ghost frozen_view = frozen;
                proof {
                    let seq: u64 = self.commit_seq;
                    assert(seq.wrapping_add(1) % 2 == (seq + 1) % 2);
                }
                self.commit_seq = self.commit_seq.wrapping_add(1);
                self.committing.push(frozen);
                self.pending_count = self.pending_count + 1;
                assert(self.committing@.drop_last() =~= old(self).committing@);
                assert(self.pipeline_ok()) by {
                    lemma_frozen_pushed(*old(self), *self, frozen_view);
                }
                Some(id)
            },
            None => {
                None
            },
        }
    }

    /// The position of a frozen transaction.
    fn find_frozen(&self, txid: u64) -> (k: usize)
        requires
            self.frozen(txid),
        ensures
            k < self.committing@.len(),
            self.committing@[k as int].id == txid,
    {
        let mut k: usize = 0;
        while k < self.committing.len() && self.committing[k].id != txid
            invariant
                k <= self.committing@.len(),
                self.frozen(txid),
                forall|j: int| 0 <= j < k ==> (#[trigger] self.committing@[j]).id != txid,
            decreases self.committing@.len() - k,
        {
            k = k + 1;
        }
        k
    }

    /// The transaction is frozen and has not landed.
    pub open spec fn frozen(&self, txid: u64) -> bool {
        exists|i: int| 0 <= i < self.committing@.len() && (#[trigger] self.committing@[i]).id == txid
    }

    /// The frozen transaction of the number.
    pub open spec fn frozen_tx(&self, txid: u64) -> Transaction {
        self.committing@[choose|i: int|
            0 <= i < self.committing@.len() && (#[trigger] self.committing@[i]).id == txid]
    }

    /// Takes over into the superblock what a frozen transaction changes once
    /// its blocks have landed: the free blocks, and the roots that it moved.
    /// Whether the superblock copies have to be written.
    pub fn commit_tx(&mut self, txid: u64) -> (write_slots: bool)
        requires
            old(self).wf(),
            old(self).frozen(txid),
            countable(old(self).vol@.sb.free_blocks, old(self).frozen_tx(txid).alloc_delta),
        ensures
            final(self).wf(),
            write_slots == (old(self).frozen_tx(txid).root_cells@ != Map::<u64, u64>::empty()),
            final(self).vol@ == (volume::VolumeView {
                sb: {
                    let tx = old(self).frozen_tx(txid);
                    let folded = Superblock {
                        free_blocks: free_after(
                            old(self).vol@.sb.free_blocks,
                            tx.alloc_delta,
                        ) as u64,
                        ..old(self).vol@.sb
                    };
                    if write_slots {
                        Superblock {
                            node_generation: old(self).node_stamp,
                            ..roots_taken(folded, tx.root_cells@)
                        }
                    } else {
                        folded
                    }
                },
                ..old(self).vol@
            }),
            final(self).pins == old(self).pins,
            final(self).page_cache == old(self).page_cache,
            final(self).node_stamp == old(self).node_stamp,
            final(self).live_barrier == old(self).live_barrier,
            final(self).active_tx == old(self).active_tx,
            final(self).committing == old(self).committing,
            final(self).commit_seq == old(self).commit_seq,
            final(self).commit_end == old(self).commit_end,
            final(self).same_signals(old(self)),
    {
        let k = self.find_frozen(txid);
        let tx = &self.committing[k];
        proof {
            reveal(pipeline_sound);
            let i = choose|i: int|
                0 <= i < self.committing@.len() && (#[trigger] self.committing@[i]).id == txid;
            assert(i == k);
        }
        let mut sb = self.vol.sb;
        if tx.alloc_delta != 0 {
            let left: i64 = sb.free_blocks as i64 - tx.alloc_delta;
            sb.free_blocks = if left > 0 {
                left as u64
            } else {
                0
            };
        }
        let moved = tx.root_cells.len() > 0;
        proof {
            if moved {
                ordmap::lemma_map_of_entry(tx.root_cells.entries(), 0);
                assert(tx.root_cells@.contains_key(tx.root_cells.entries()[0].0));
            } else {
                reveal(ordmap::map_of);
                assert(tx.root_cells@ =~= Map::<u64, u64>::empty());
            }
        }
        if moved {
            if let Some(r) = tx.root_cells.lookup(INODE_TREE_NODE_TYPE) {
                sb.inode_tree_root = r;
            }
            if let Some(r) = tx.root_cells.lookup(DIR_TREE_NODE_TYPE) {
                sb.dir_tree_root = r;
            }
            if let Some(r) = tx.root_cells.lookup(CHECKSUM_TREE_NODE_TYPE) {
                sb.checksum_tree_root = r;
            }
            if let Some(r) = tx.root_cells.lookup(XATTR_TREE_NODE_TYPE) {
                sb.xattr_tree_root = r;
            }
            if let Some(r) = tx.root_cells.lookup(CLONE_TREE_NODE_TYPE) {
                sb.clone_tree_root = r;
            }
            if let Some(r) = tx.root_cells.lookup(REFCOUNT_TREE_NODE_TYPE) {
                sb.refcount_tree_root = r;
            }
            sb.node_generation = self.node_stamp;
        }
        self.vol.set_superblock(sb);
        moved
    }

    /// Retires a frozen transaction whose blocks have landed. It is no longer
    /// live; every other one is live as before.
    pub fn retire(&mut self, txid: u64)
        requires
            old(self).wf(),
            old(self).frozen(txid),
        ensures
            final(self).wf(),
            final(self).same_image(old(self)),
            exists|k: int|
                0 <= k < old(self).committing@.len() && (#[trigger] old(self).committing@[k]).id
                    == txid && final(self).committing@ == old(self).committing@.remove(k),
            final(self).commit_seq == old(self).commit_seq.wrapping_add(1),
            final(self).commit_end == old(self).commit_end.wrapping_add(1),
            final(self).active_tx == old(self).active_tx,
            final(self).same_signals(old(self)),
            forall|id: u64| #[trigger]
                final(self).live_ids().contains(id) <==> id != txid && old(self).live_ids().contains(
                    id,
                ),
    {
        proof {
            reveal(pipeline_sound);
        }
        let k = self.find_frozen(txid);
        let _ = self.committing.remove(k);
        assert(self.committing@ =~= old(self).committing@.remove(k as int));
        proof {
            let seq: u64 = self.commit_seq;
            assert(seq.wrapping_add(1) % 2 == (seq + 1) % 2);
        }
        self.pending_count = self.pending_count - 1;
        self.commit_seq = self.commit_seq.wrapping_add(1);
        self.commit_end = self.commit_end.wrapping_add(1);
        proof {
            lemma_retired_ids(*old(self), *self, txid, k as int);
            assert(old(self).committing@[k as int].id == txid);
        }
    }

    /// The descriptor of the block group that the image is.
    pub fn get_bg_desc(&self) -> (r: BlockGroupDescriptor)
        ensures
            r.bg_block_bitmap == self.vol@.sb.bitmap_start,
            r.bg_inode_bitmap == 0,
            r.bg_inode_table == self.vol@.sb.inode_table_start,
            r.bg_free_blocks_count == 0,
            r.bg_free_inodes_count == 0,
            r.bg_used_dirs_count == 0,
            r.bg_padding == 0,
            r.bg_reserved@ == Seq::new(32, |i: int| 0u8),
    {
        let bg_reserved = [0u8;32];
        assert(bg_reserved@ =~= Seq::new(32, |i: int| 0u8));
        BlockGroupDescriptor {
            bg_block_bitmap: self.vol.sb.bitmap_start,
            bg_inode_bitmap: 0,
            bg_inode_table: self.vol.sb.inode_table_start,
            bg_free_blocks_count: 0,
            bg_free_inodes_count: 0,
            bg_used_dirs_count: 0,
            bg_padding: 0,
            bg_reserved,
        }
    }

    /// Writes an inode that is at least as large as before; whether there was
    /// room for it.
    pub fn put_inode(&mut self, inode: Inode) -> (ok: bool)
        requires
            old(self).wf(),
            inode.ino < old(self).vol@.sb.next_ino,
            crate::fs::extents::inode_ok(inode),
            old(self).vol@.stored(inode.ino).len() <= inode.size,
            old(self).size_of(inode.ino) <= inode.size,
            old(self).vol@.keeps_blocks(inode),
        ensures
            final(self).wf(),
            ok == old(self).vol@.room_for_inode(inode.ino),
            *final(self) == (SharedCore { vol: final(self).vol, ..*old(self) }),
            final(self).vol@ == (if ok {
                old(self).vol@.with_inode(inode)
            } else {
                old(self).vol@
            }),
    {
        proof {
            lemma_tails_written(self.page_cache, self.vol@.inodes, inode);
        }
        self.vol.write_inode(inode)
    }

    /// Sets the time of the last change of the contents of an inode.
    pub fn touch(&mut self, inode: Inode, now: u64)
        requires
            old(self).wf(),
            old(self).vol@.inodes.contains_key(inode.ino),
            old(self).vol@.inodes[inode.ino].size <= inode.size,
            crate::fs::extents::inode_ok(inode),
            placement::same_blocks(old(self).vol@.inodes[inode.ino], inode),
        ensures
            final(self).wf(),
            *final(self) == (SharedCore { vol: final(self).vol, ..*old(self) }),
            final(self).vol@ == old(self).vol@.touched(inode, now),
    {
        proof {
            volume::lemma_inode_fits(self.vol, inode.ino);
        }
        let mut touched = inode;
        touched.mtime = now as i64;
        let _ = self.put_inode(touched);
    }

    /// The inode of a number.
    pub fn get_inode(&self, ino: u64) -> (r: Result<Inode, Error>)
        requires
            self.wf(),
        ensures
            if self.vol@.inodes.contains_key(ino) {
                &&& r == Ok::<Inode, Error>(self.vol@.inodes[ino])
                &&& volume::inode_fits(
                    self.vol@.inodes[ino],
                    ino,
                    self.vol@.data,
                    self.vol@.sb.next_ino,
                )
            } else {
                r matches Err(e) && e.kind == ErrorKind::NotFound
            },
    {
        match self.vol.read_inode(ino) {
            Some(inode) => Ok(inode),
            None => Err(Error::new(ErrorKind::NotFound, "inode not found")),
        }
    }
}

/// Freezing the active transaction keeps the transactions in order.
proof fn lemma_frozen_pushed(a: SharedCore, b: SharedCore, frozen: Transaction)
    requires
        a.pipeline_ok(),
        a.active_tx is Some,
        frozen.id == a.active_tx->0.id,
        frozen.root_cells.wf(),
        b.committing@ == a.committing@.push(frozen),
        b.active_tx is None,
        !b.tx_present,
        b.pending_count == a.pending_count + 1,
        b.commit_seq % 2 == (a.commit_seq + 1) % 2,
        b.current_tx_id == a.current_tx_id,
    ensures
        b.pipeline_ok(),
{
    reveal(pipeline_sound);
    let n = a.committing@.len() as int;
    assert forall|i: int, j: int| 0 <= i < j < b.committing@.len() implies (
    #[trigger] b.committing@[i]).id < (#[trigger] b.committing@[j]).id by {
        assert(b.committing@[i] == a.committing@[i]);
        if j < n {
            assert(b.committing@[j] == a.committing@[j]);
        }
    }
    assert forall|i: int| 0 <= i < b.committing@.len() implies (#[trigger] b.committing@[i]).id
        <= b.current_tx_id && b.committing@[i].root_cells.wf() by {
        if i < n {
            assert(b.committing@[i] == a.committing@[i]);
        }
    }
}

/// Retiring one transaction takes one id out of the live ones.
proof fn lemma_retired_ids(a: SharedCore, b: SharedCore, txid: u64, k: int)
    requires
        a.pipeline_ok(),
        0 <= k < a.committing@.len(),
        a.committing@[k].id == txid,
        b.committing@ == a.committing@.remove(k),
        b.active_tx == a.active_tx,
    ensures
        forall|id: u64| #[trigger]
            b.live_ids().contains(id) <==> id != txid && a.live_ids().contains(id),
{
    reveal(pipeline_sound);
    let n = a.committing@.len() as int;
    assert forall|id: u64| #[trigger] b.live_ids().contains(id) <==> id != txid
        && a.live_ids().contains(id) by {
        if b.live_ids().contains(id) {
            let j = choose|j: int| 0 <= j < b.live_ids().len() && b.live_ids()[j] == id;
            if j < n - 1 {
                let q = if j < k {
                    j
                } else {
                    j + 1
                };
                assert(b.committing@[j] == a.committing@[q]);
                assert(a.live_ids()[q] == id);
            } else {
                assert(a.live_ids()[n] == id);
                assert(a.committing@[k].id < id);
            }
        }
        if id != txid && a.live_ids().contains(id) {
            let j = choose|j: int| 0 <= j < a.live_ids().len() && a.live_ids()[j] == id;
            if j < n {
                let q = if j < k {
                    j
                } else {
                    j - 1
                };
                assert(j != k);
                assert(b.committing@[q] == a.committing@[j]);
                assert(b.live_ids()[q] == id);
            } else {
                assert(b.live_ids()[n - 1] == id);
            }
        }
    }
}

/// Freezing a transaction that rewrites something leaves it live: the live
/// ids are the same before and after.
pub proof fn freezing_keeps_ids_live(before: SharedCore, after: SharedCore)
    requires
        before.active_tx is Some,
        after.active_tx is None,
        after.committing@.len() == before.committing@.len() + 1,
        after.committing@.drop_last() == before.committing@,
        after.committing@.last().id == before.active_tx->0.id,
    ensures
        after.live_ids() == before.live_ids(),
{
    assert forall|i: int| 0 <= i < before.committing@.len() implies before.committing@[i]
        == after.committing@[i] by {
        assert(after.committing@.drop_last()[i] == after.committing@[i]);
    }
    assert(after.live_ids() =~= before.live_ids());
}

/// Why an image is not mounted.
#[derive(Debug)]
pub struct MountError {
    /// What went wrong.
    pub kind: ErrorKind,
    /// What went wrong, in words.
    pub message: String,
}

/// Whether an image with this superblock is mounted: its version and all its
/// features are known.
pub fn mount_gate(sb: &Superblock) -> (r: Result<(), MountError>)
    ensures
        if sb.version <= version::CURRENT_VERSION && version::unknown_bits(sb.fs_features) == 0 {
            r is Ok
        } else {
            r matches Err(e) && e.kind == ErrorKind::InvalidData && e.message@ == refusal_text(
                *sb,
            )
        },
{
    if version::is_mountable(sb.version, sb.fs_features) {
        Ok(())
    } else {
        Err(MountError { kind: ErrorKind::InvalidData, message: refusal(sb) })
    }
}

/// Why an image is not mounted, in words.
pub open spec fn refusal_text(sb: Superblock) -> Seq<char> {
    "refusing to mount: on-disk format version "@ + text::dec_text(sb.version as nat)
        + " (this build writes "@ + text::dec_text(version::CURRENT_VERSION as nat)
        + "), unknown feature bits 0b"@ + text::bin_text(
        version::unknown_bits(sb.fs_features) as nat,
    ) + " set"@
}

/// Says why an image is not mounted: the versions, and the features that are
/// not known.
pub fn refusal(sb: &Superblock) -> (r: String)
    ensures
        r@ == refusal_text(*sb),
{
    let mut r = String::from_str("refusing to mount: on-disk format version ");
    r.append(text::dec(sb.version as u64).as_str());
    r.append(" (this build writes ");
    r.append(text::dec(version::CURRENT_VERSION as u64).as_str());
    r.append("), unknown feature bits 0b");
    r.append(text::bin(version::unknown_features(sb.fs_features)).as_str());
    r.append(" set");
    r
}

/// The greatest of four numbers.
pub open spec fn max4(a: u64, b: u64, c: u64, d: u64) -> u64 {
    let x = if a > b {
        a
    } else {
        b
    };
    let y = if c > d {
        c
    } else {
        d
    };
    if x > y {
        x
    } else {
        y
    }
}

/// What the journal says at mount.
#[derive(Debug, Clone, Copy, PartialEq, Eq, Structural)]
pub struct Recovered {
    /// Number of the last transaction that the superblock knows.
    pub current_tx_id: u64,
    /// Number of the last transaction that the journal holds.
    pub highest_tx: u64,
}

/// A mounted image.
pub struct LionFS {
    /// Its state.
    pub core: SharedCore,
    /// What the scrubber says of itself.
    pub scrub_status: String,
    /// The ledger of bad blocks.
    pub bad_blocks: BadBlockManager,
    /// Where the image lies.
    pub image_path: String,
}

/// What is read from an image below its superblock.
pub struct StoredImage {
    /// What it holds.
    pub vol: Volume,
    /// Which of its blocks are pinned.
    pub pins: RefCountManager,
    /// Its ledger of bad blocks.
    pub bad_blocks: BadBlockManager,
}

impl StoredImage {
    /// The parts are sound, and the blocks that files share are pinned.
    pub open spec fn wf(&self) -> bool {
        &&& self.vol.wf()
        &&& self.pins.wf()
        &&& self.bad_blocks.wf()
        &&& placement::shares_pinned(self.vol@.all_runs(), self.pins)
    }
}

/// A mounted image starts with every counter above what the image has seen,
/// and with nothing buffered and nothing staged.
pub open spec fn started(
    fs: LionFS,
    sb: Superblock,
    recovered: Recovered,
    writeback: Option<&str>,
    image_path: &str,
) -> bool {
    &&& fs.core.vol@.sb == sb
    &&& fs.core.current_tx_id == (if recovered.highest_tx > recovered.current_tx_id {
        recovered.highest_tx
    } else {
        recovered.current_tx_id
    })
    &&& fs.core.node_stamp == max4(
        sb.node_generation,
        sb.last_snapshot_generation,
        recovered.highest_tx,
        1,
    )
    &&& fs.core.live_barrier == sb.last_snapshot_generation
    &&& fs.core.active_tx is None
    &&& fs.core.committing@.len() == 0
    &&& fs.core.commit_seq == 0
    &&& fs.core.commit_end == 0
    &&& !fs.core.commit_coord.shutdown
    &&& !fs.core.commit_due
    &&& !fs.core.commit_wake
    &&& fs.scrub_status@ == "Idle"@
    &&& fs.core.page_cache.inodes@ == Map::<u64, crate::fs::page_cache::CachedInode>::empty()
    &&& fs.core.page_cache.enabled == !(writeback matches Some(v) && v@ == seq!['0'])
    &&& fs.image_path@ == image_path@
}

/// The two hold the same but for roots that have moved: their files hold the
/// same bytes, zeros where they store none.
pub open spec fn same_files(a: VolumeView, b: VolumeView) -> bool {
    &&& b == (VolumeView { data: b.data, root_cells: b.root_cells, ..a })
    &&& forall|ino: u64, x: int|
        0 <= x ==> #[trigger] stored_byte(b.stored(ino), x) == stored_byte(a.stored(ino), x)
}

/// What a mounted image holds is what was read from it, under its newest
/// superblock.
pub open spec fn holds_image(fs: LionFS, image: StoredImage, sb: Superblock) -> bool {
    let v = image.vol@;
    &&& fs.core.vol@ == (VolumeView {
        sb,
        area: DataArea {
            barrier: sb.last_snapshot_generation,
            stamp: volume::next_stamp(sb),
            ..v.area
        },
        root_cells: Map::empty(),
        ..v
    })
    &&& fs.core.pins == image.pins
    &&& fs.bad_blocks == image.bad_blocks
}

/// Why an image is not mounted: it has no valid superblock, or one of a version
/// or with a feature that is not known.
pub open spec fn mount_refused(candidates: Seq<Option<Vec<u8>>>, e: MountError) -> bool {
    &&& e.kind == ErrorKind::InvalidData
    &&& forall|i: int, sb: Superblock| #[trigger]
        superblock::is_best(candidates, i, sb) ==> {
            &&& sb.version > version::CURRENT_VERSION || version::unknown_bits(sb.fs_features) != 0
            &&& e.message@ == refusal_text(sb)
        }
    &&& (forall|i: int, sb: Superblock| !#[trigger] superblock::is_best(candidates, i, sb))
        ==> e.message@ == "No valid superblock found or all checksums failed"@
}

/// The newest valid superblock, if it is of a version and has features that are
/// known.
fn choose_superblock(candidates: &[Option<Vec<u8>>]) -> (r: Result<Superblock, MountError>)
    requires
        forall|i: int|
            0 <= i < candidates@.len() ==> ((#[trigger] candidates@[i]) matches Some(buf)
                ==> buf@.len() == BLOCK_SIZE),
    ensures
        match r {
            Ok(sb) => {
                &&& exists|i: int| #[trigger] superblock::is_best(candidates@, i, sb)
                &&& sb.version <= version::CURRENT_VERSION
                &&& version::unknown_bits(sb.fs_features) == 0
            },
            Err(e) => mount_refused(candidates@, e),
        },
{
    let sb = match superblock::pick_best(candidates) {
        Some(sb) => sb,
        None => {
            return Err(
                MountError {
                    kind: ErrorKind::InvalidData,
                    message: String::from_str("No valid superblock found or all checksums failed"),
                },
            );
        },
    };
    proof {
        let at = choose|at: int| #[trigger] superblock::is_best(candidates@, at, sb);
        assert forall|i: int, other: Superblock| #[trigger]
            superblock::is_best(candidates@, i, other) implies other == sb by {
            superblock::lemma_best_unique(candidates@, i, other, at, sb);
        }
    }
    match mount_gate(&sb) {
        Ok(_) => Ok(sb),
        Err(e) => Err(e),
    }
}

impl LionFS {
    /// The parts are sound.
    pub open spec fn wf(&self) -> bool {
        self.core.wf() && self.bad_blocks.wf()
    }

    /// What an operation on names, contents or attributes leaves alone.
    pub open spec fn same_shell(&self, other: &LionFS) -> bool {
        &&& self.scrub_status == other.scrub_status
        &&& self.bad_blocks == other.bad_blocks
        &&& self.image_path == other.image_path
        &&& self.core.live_barrier == other.core.live_barrier
    }

    /// Mounts an image with nothing in it yet: takes the newest valid
    /// superblock, refuses a version or a feature that is not known, and starts
    /// every counter above what the image has seen.
    pub fn new(
        candidates: &[Option<Vec<u8>>],
        recovered: Recovered,
        writeback: Option<&str>,
        limits: Limits,
        image_path: &str,
    ) -> (r: Result<LionFS, MountError>)
        requires
            limits.dir_entries <= isize::MAX,
            limits.file_bytes <= isize::MAX,
            limits.blocks <= isize::MAX,
            forall|i: int|
                0 <= i < candidates@.len() ==> ((#[trigger] candidates@[i]) matches Some(buf)
                    ==> buf@.len() == BLOCK_SIZE),
        ensures
            match r {
                Ok(fs) => {
                    let sb = fs.core.vol@.sb;
                    &&& fs.wf()
                    &&& exists|i: int| #[trigger] superblock::is_best(candidates@, i, sb)
                    &&& sb.version <= version::CURRENT_VERSION
                    &&& version::unknown_bits(sb.fs_features) == 0
                    &&& started(fs, sb, recovered, writeback, image_path)
                    &&& volume::is_empty_volume(fs.core.vol@, sb, limits)
                    &&& fs.core.pins.tree.root_block == sb.refcount_tree_root
                    &&& fs.core.pins.runs().len() == 0
                    &&& fs.bad_blocks@ == Map::<
                        u64,
                        crate::integrity::bad_blocks::BadBlockValue,
                    >::empty()
                    &&& fs.bad_blocks.btree.root_block == sb.bad_blocks_root
                },
                Err(e) => mount_refused(candidates@, e),
            },
    {
        let sb = match choose_superblock(candidates) {
            Ok(sb) => sb,
            Err(e) => {
                return Err(e);
            },
        };
        let image = StoredImage {
            vol: Volume::new(sb, limits),
            pins: RefCountManager::new(sb.refcount_tree_root),
            bad_blocks: BadBlockManager::new(sb.bad_blocks_root),
        };
        proof {
            reveal(placement::shares_pinned);
        }
        Ok(LionFS::start(image, sb, recovered, writeback, image_path))
    }

    /// Mounts an image with what it holds: takes the newest valid superblock,
    /// refuses a version or a feature that is not known, and starts every
    /// counter above what the image has seen.
    pub fn with_image(
        candidates: &[Option<Vec<u8>>],
        image: StoredImage,
        recovered: Recovered,
        writeback: Option<&str>,
        image_path: &str,
    ) -> (r: Result<LionFS, MountError>)
        requires
            image.wf(),
            forall|i: int|
                0 <= i < candidates@.len() ==> ((#[trigger] candidates@[i]) matches Some(buf)
                    ==> buf@.len() == BLOCK_SIZE),
            forall|i: int, sb: Superblock| #[trigger]
                superblock::is_best(candidates@, i, sb) ==> image.vol@.sb.next_ino <= sb.next_ino,
        ensures
            match r {
                Ok(fs) => {
                    let sb = fs.core.vol@.sb;
                    &&& fs.wf()
                    &&& exists|i: int| #[trigger] superblock::is_best(candidates@, i, sb)
                    &&& sb.version <= version::CURRENT_VERSION
                    &&& version::unknown_bits(sb.fs_features) == 0
                    &&& started(fs, sb, recovered, writeback, image_path)
                    &&& holds_image(fs, image, sb)
                },
                Err(e) => mount_refused(candidates@, e),
            },
    {
        match choose_superblock(candidates) {
            Ok(sb) => {
                let mut image = image;
                image.vol.reopen(sb);
                Ok(LionFS::start(image, sb, recovered, writeback, image_path))
            },
            Err(e) => Err(e),
        }
    }

    fn start(
        image: StoredImage,
        sb: Superblock,
        recovered: Recovered,
        writeback: Option<&str>,
        image_path: &str,
    ) -> (fs: LionFS)
        requires
            image.wf(),
            image.vol@.sb == sb,
        ensures
            fs.wf(),
            started(fs, sb, recovered, writeback, image_path),
            fs.core.vol == image.vol,
            fs.core.pins == image.pins,
            fs.bad_blocks == image.bad_blocks,
    {
        let current_tx_id: u64 = if recovered.highest_tx > recovered.current_tx_id {
            recovered.highest_tx
        } else {
            recovered.current_tx_id
        };
        let mut node_stamp: u64 = 1;
        if recovered.highest_tx > node_stamp {
            node_stamp = recovered.highest_tx;
        }
        if sb.last_snapshot_generation > node_stamp {
            node_stamp = sb.last_snapshot_generation;
        }
        if sb.node_generation > node_stamp {
            node_stamp = sb.node_generation;
        }
        let core = SharedCore {
            vol: image.vol,
            pins: image.pins,
            page_cache: PageCache::new(writeback),
            current_tx_id,
            active_tx: None,
            committing: Vec::new(),
            tx_present: false,
            pending_count: 0,
            commit_seq: 0,
            commit_end: 0,
            commit_coord: CommitCoord::default(),
            node_stamp,
            live_barrier: sb.last_snapshot_generation,
            commit_due: false,
            commit_wake: false,
        };
        proof {
            reveal(pipeline_sound);
            reveal(cache_ok);
            reveal(tails_zero);
        }
        LionFS {
            core,
            scrub_status: String::from_str("Idle"),
            bad_blocks: image.bad_blocks,
            image_path: String::from_str(image_path),
        }
    }
}

/// Buffered pages stay zero past the end when no file shrinks.
pub proof fn lemma_tails_grow(cache: PageCache, a: Map<u64, Inode>, b: Map<u64, Inode>)
    requires
        tails_zero(cache, a),
        forall|ino: u64| #[trigger] stored_size(a, ino) <= stored_size(b, ino),
    ensures
        tails_zero(cache, b),
{
    reveal(tails_zero);
    assert forall|ino: u64, k: u64, j: int|
        cache.pages(ino).contains_key(k) && 0 <= j < BLOCK_SIZE && k * BLOCK_SIZE + j
            >= size_with_shadow(cache, b, ino) implies #[trigger] cache.pages(ino)[k]@[j] == 0 by {
        assert(stored_size(a, ino) <= stored_size(b, ino));
    }
}

/// Buffered pages stay zero past the end when an inode is written that is as
/// large as before.
pub proof fn lemma_tails_written(cache: PageCache, a: Map<u64, Inode>, inode: Inode)
    requires
        tails_zero(cache, a),
        stored_size(a, inode.ino) <= inode.size,
    ensures
        tails_zero(cache, a.insert(inode.ino, inode)),
{
    lemma_tails_grow(cache, a, a.insert(inode.ino, inode));
}


/// What a reader that takes no lock does with what it read.
#[derive(Debug, Clone, Copy, PartialEq, Eq, Structural)]
pub enum ScratchStep {
    /// Nothing moved meanwhile: what was read is consistent.
    Accept,
    /// A commit moved meanwhile: read again.
    Retry,
    /// A freeze is under way: let it finish, then read again.
    Yield,
}

/// What a reader does that saw the sequence number `seq` before and
/// `seq_after` after reading, with or without frozen transactions in sight.
pub fn scratch_step(seq: u64, frozen_in_sight: bool, seq_after: u64) -> (r: ScratchStep)
    ensures
        r == (if seq % 2 == 1 && !frozen_in_sight {
            ScratchStep::Yield
        } else if seq_after == seq {
            ScratchStep::Accept
        } else {
            ScratchStep::Retry
        }),
{
    if seq % 2 == 1 && !frozen_in_sight {
        return ScratchStep::Yield;
    }
    if seq_after == seq {
        ScratchStep::Accept
    } else {
        ScratchStep::Retry
    }
}

/// An odd sequence number means that a transaction is frozen, so a reader of
/// a sound state never has to yield.
pub proof fn odd_sequence_has_frozen(core: SharedCore)
    requires
        core.pipeline_ok(),
        core.commit_seq % 2 == 1,
    ensures
        core.committing@.len() > 0,
{
    reveal(pipeline_sound);
}

/// What somebody who waits for transactions to land has just done.
#[derive(Debug, Clone, Copy, PartialEq, Eq, Structural)]
pub enum CoverEvent {
    /// Begun to wait, or waited.
    Looked,
    /// Driven a commit because none was in flight; whether there was one.
    Drove(bool),
    /// Driven a commit out of patience; whether there was one.
    LastDrove(bool),
}

/// What somebody who waits for transactions to land does next.
#[derive(Debug, Clone, Copy, PartialEq, Eq, Structural)]
pub enum CoverAction {
    /// Stop waiting; whether all have landed.
    Done(bool),
    /// Drive a commit.
    Drive,
    /// Wait for a commit to land.
    Wait,
    /// Drive a commit, out of patience.
    LastDrive,
}

/// Somebody who waits for transactions to land.
#[derive(Debug, Clone, Copy, PartialEq, Eq, Structural)]
pub struct CoverWait {
    /// How often they have waited since a commit was last driven out of
    /// patience.
    pub patience: u32,
}

/// Whether none of the transactions is live.
pub open spec fn covered(core: SharedCore, txids: Seq<u64>) -> bool {
    forall|i: int| 0 <= i < txids.len() ==> !core.live_ids().contains(#[trigger] txids[i])
}

/// Whether none of the transactions is live.
pub fn is_covered(core: &SharedCore, txids: &[u64]) -> (r: bool)
    ensures
        r == covered(*core, txids@),
{
    let mut i: usize = 0;
    while i < txids.len()
        invariant
            i <= txids@.len(),
            forall|j: int| 0 <= j < i ==> !core.live_ids().contains(#[trigger] txids@[j]),
        decreases txids@.len() - i,
    {
        if core.tx_live(txids[i]) {
            assert(core.live_ids().contains(txids@[i as int]));
            return false;
        }
        i = i + 1;
    }
    true
}

impl CoverWait {
    /// Somebody who has not waited yet.
    pub fn new() -> (r: Self)
        ensures
            r.patience == 0,
    {
        CoverWait { patience: 0 }
    }

    /// The next action: done once all have landed; else drive a commit if none
    /// is in flight, wait as long as there is patience, and at last drive one
    /// whatever is in flight. With no commit to drive at the end of patience,
    /// the answer is whether all have landed.
    pub fn next(&mut self, event: CoverEvent, is_covered: bool, in_flight: bool) -> (r: CoverAction)
        requires
            old(self).patience <= COVER_PATIENCE,
        ensures
            final(self).patience <= COVER_PATIENCE,
            is_covered ==> r == CoverAction::Done(true),
            !is_covered ==> r == (if event == CoverEvent::LastDrove(false) {
                CoverAction::Done(false)
            } else if !in_flight && event != CoverEvent::Drove(false) {
                CoverAction::Drive
            } else if old(self).patience < COVER_PATIENCE || event == CoverEvent::LastDrove(true) {
                CoverAction::Wait
            } else {
                CoverAction::LastDrive
            }),
            final(self).patience == (if r == CoverAction::Wait {
                if event == CoverEvent::LastDrove(true) {
                    1
                } else {
                    (old(self).patience + 1) as u32
                }
            } else if event == CoverEvent::LastDrove(true) {
                0
            } else {
                old(self).patience
            }),
    {
        if event == CoverEvent::LastDrove(true) {
            self.patience = 0;
        }
        if is_covered {
            return CoverAction::Done(true);
        }
        if event == CoverEvent::LastDrove(false) {
            return CoverAction::Done(false);
        }
        if !in_flight && event != CoverEvent::Drove(false) {
            return CoverAction::Drive;
        }
        if self.patience < COVER_PATIENCE {
            self.patience = self.patience + 1;
            return CoverAction::Wait;
        }
        CoverAction::LastDrive
    }
}

} // verus!
