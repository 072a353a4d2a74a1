//! Snapshot creation and lifecycle.
//!
//! A snapshot is a record of the roots that the trees have at one moment.
//! Nodes stamped at or below the snapshot's barrier are copied before they
//! are changed, so the recorded roots keep their contents. Data is protected
//! in one of two ways: on an image with checksums by the birth stamp of each
//! block, which costs nothing at creation; on an image without by pinning
//! every extent of every file.

use crate::btree::BTree;
use crate::common::text;
use crate::error::{Error, ErrorKind};
use crate::fs::extents;
use crate::integrity::refcount;
use crate::integrity::refcount::RefCountManager;
use crate::ondisk::serialization::{Extent, Inode, SnapshotRecord, Superblock};
use crate::ordmap;
use crate::ordmap::OrdMap;
use vstd::prelude::*;

verus! {

/// Node type of the snapshot registry.
pub const SNAPSHOT_TREE_NODE_TYPE: u32 = 8;

/// The snapshot's data is protected by birth stamps, not by pins.
pub const SNAPSHOT_FLAG_BIRTH: u32 = 1;

/// The checksum record of one block of a file.
#[derive(Debug, Clone, Copy, PartialEq, Eq, Structural)]
pub struct BlockChecksum {
    /// Inode of the file.
    pub object_id: u64,
    /// Block of the file.
    pub logical_block: u64,
    /// Block of the image that it was written to.
    pub physical_block: u64,
    /// Stamp at which it was written.
    pub generation: u64,
}

/// An entry of the directory-name tree.
#[derive(Debug)]
pub struct DirName {
    /// Name.
    pub name: String,
    /// Inode that it names.
    pub ino: u64,
}

/// The trees of an image, by the block that each is rooted at.
pub struct TreeStore {
    /// Inode trees.
    pub inodes: OrdMap<OrdMap<Inode>>,
    /// Directory-name trees.
    pub dirs: OrdMap<Vec<DirName>>,
    /// Checksum trees.
    pub csums: OrdMap<Vec<BlockChecksum>>,
    /// Spill extent trees.
    pub spills: OrdMap<Vec<Extent>>,
}

impl TreeStore {
    /// The trees are well formed, and no inode has more extents than slots.
    pub open spec fn wf(&self) -> bool {
        &&& self.inodes.wf()
        &&& self.dirs.wf()
        &&& self.csums.wf()
        &&& self.spills.wf()
        &&& forall|root: u64| #[trigger]
            self.inodes@.contains_key(root) ==> inode_tree_ok(self.inodes@[root])
    }

    /// The inodes of the tree at `root`, in order; none if there is no tree.
    pub open spec fn inode_entries(&self, root: u64) -> Seq<(u64, Inode)> {
        if self.inodes@.contains_key(root) {
            self.inodes@[root].entries()
        } else {
            Seq::empty()
        }
    }

    /// The checksum records of the tree at `root`; none if there is no tree.
    pub open spec fn csum_records(&self, root: u64) -> Seq<BlockChecksum> {
        if self.csums@.contains_key(root) {
            self.csums@[root]@
        } else {
            Seq::empty()
        }
    }

    /// The inode `ino` of the tree at `root`.
    pub open spec fn inode_at(&self, root: u64, ino: u64) -> Option<Inode> {
        if self.inodes@.contains_key(root) && self.inodes@[root]@.contains_key(ino) {
            Some(self.inodes@[root]@[ino])
        } else {
            None
        }
    }

    /// The extents of `ino` in the tree at `root`.
    pub open spec fn runs_at(&self, root: u64, ino: u64) -> Seq<Extent> {
        match self.inode_at(root, ino) {
            Some(inode) => extents::file_runs(inode, self.spills@),
            None => Seq::empty(),
        }
    }

    /// The extents that a walk over the tree at `root` pins.
    pub open spec fn walk(&self, root: u64, next_ino: u64) -> Seq<Extent> {
        extents::walk_runs(self.inode_entries(root), self.spills@, next_ino)
    }

    /// The extents of `ino` in the tree at `root`.
    fn runs_of(&self, root: u64, ino: u64) -> (r: Vec<Extent>)
        requires
            self.wf(),
        ensures
            r@ == self.runs_at(root, ino),
    {
        match self.inodes.get(root) {
            Some(tree) => match tree.get(ino) {
                Some(inode) => {
                    proof {
                        ordmap::lemma_key_pos(tree.entries(), ino);
                        let p = ordmap::key_pos(tree.entries(), ino);
                        ordmap::lemma_map_of_entry(tree.entries(), p);
                        assert(extents::inode_ok(tree.entries()[p].1));
                    }
                    extents::live_extent_list(inode, &self.spills)
                },
                None => Vec::new(),
            },
            None => Vec::new(),
        }
    }

    /// The extents that a walk over the tree at `root` pins.
    fn walk_of(&self, root: u64, next_ino: u64) -> (r: Vec<Extent>)
        requires
            self.wf(),
        ensures
            r@ == self.walk(root, next_ino),
    {
        match self.inodes.get(root) {
            Some(tree) => extents::collect_runs(tree, &self.spills, next_ino),
            None => Vec::new(),
        }
    }
}

/// The inodes are in order, and none has more extents than slots.
pub open spec fn inode_tree_ok(tree: OrdMap<Inode>) -> bool {
    &&& tree.wf()
    &&& forall|i: int|
        0 <= i < tree.entries().len() ==> extents::inode_ok((#[trigger] tree.entries()[i]).1)
}

/// What the moment of a snapshot is: the time, the stamps, the roots that the
/// open transaction has moved, and what the allocator gives.
pub struct SnapshotMoment {
    /// Time, in seconds.
    pub now: u64,
    /// Highest node stamp handed out.
    pub node_stamp: u64,
    /// Root of the inode tree, as the transaction sees it.
    pub inode_tree_root: u64,
    /// Root of the directory-name tree, as the transaction sees it.
    pub dir_tree_root: u64,
    /// Root of the checksum tree, as the transaction sees it.
    pub checksum_tree_root: u64,
    /// A block for a new tree, if the allocator has one.
    pub fresh_block: Option<u64>,
}

/// `barrier` is the greatest generation among the records, 0 if there is none.
pub open spec fn is_barrier(records: Map<u64, SnapshotRecord>, barrier: u64) -> bool {
    &&& forall|id: u64| #[trigger]
        records.contains_key(id) ==> records[id].generation <= barrier
    &&& barrier == 0 || exists|id: u64| #[trigger]
        records.contains_key(id) && records[id].generation == barrier
}

/// The barrier of a snapshot made at `moment`.
pub open spec fn barrier_of(moment: SnapshotMoment) -> u64 {
    if moment.node_stamp > 1 {
        moment.node_stamp
    } else {
        1
    }
}

/// The superblock once the roots are synced and the barrier is raised.
pub open spec fn frozen_superblock(sb: Superblock, moment: SnapshotMoment) -> Superblock {
    Superblock {
        last_snapshot_generation: if sb.last_snapshot_generation > barrier_of(moment) {
            sb.last_snapshot_generation
        } else {
            barrier_of(moment)
        },
        inode_tree_root: moment.inode_tree_root,
        dir_tree_root: moment.dir_tree_root,
        checksum_tree_root: moment.checksum_tree_root,
        ..sb
    }
}

/// The record of a snapshot made at `moment`.
pub open spec fn record_of(
    sb: Superblock,
    moment: SnapshotMoment,
    snapshot_id: u64,
    parent_id: u64,
) -> SnapshotRecord {
    SnapshotRecord {
        id: snapshot_id,
        parent_id,
        creation_time: moment.now,
        generation: barrier_of(moment),
        inode_tree_root: moment.inode_tree_root,
        dir_tree_root: moment.dir_tree_root,
        extent_tree_root: sb.extent_tree_root,
        checksum_tree_root: moment.checksum_tree_root,
        bad_blocks_root: sb.bad_blocks_root,
        flags: if moment.checksum_tree_root != 0 {
            SNAPSHOT_FLAG_BIRTH
        } else {
            0
        },
        padding: 0,
    }
}

/// The record belongs to a snapshot whose data is protected by birth stamps.
pub open spec fn is_birth(record: SnapshotRecord) -> bool {
    record.flags & SNAPSHOT_FLAG_BIRTH != 0
}

/// A block of a deleted snapshot can be given back: the live file has moved
/// off it, it was born after every remaining snapshot, and nothing pins it.
pub open spec fn reclaimable(
    store: TreeStore,
    sb: Superblock,
    rc: RefCountManager,
    remaining_barrier: u64,
    rec: BlockChecksum,
) -> bool {
    &&& !extents::maps_to(
        store.runs_at(sb.inode_tree_root, rec.object_id),
        rec.logical_block as int,
        rec.physical_block as int,
    )
    &&& rec.generation > remaining_barrier
    &&& sb.refcount_tree_root == 0 || rc.pin_count(rec.physical_block as int) == 0
}

/// The blocks that deleting the snapshot gives back, in the order of its
/// checksum records.
pub open spec fn reclaimed_blocks(
    store: TreeStore,
    sb: Superblock,
    rc: RefCountManager,
    remaining_barrier: u64,
    record: SnapshotRecord,
) -> Seq<u64> {
    if sb.checksum_tree_root == 0 {
        Seq::empty()
    } else {
        store.csum_records(record.checksum_tree_root).filter(
            |rec: BlockChecksum| reclaimable(store, sb, rc, remaining_barrier, rec),
        ).map_values(|rec: BlockChecksum| rec.physical_block)
    }
}

/// The live file still has the block of the checksum record where the record
/// says.
pub open spec fn still_mapped(store: TreeStore, live_root: u64, rec: BlockChecksum) -> bool {
    let runs = store.runs_at(live_root, rec.object_id);
    exists|i: int|
        {
            &&& 0 <= i < runs.len()
            &&& (#[trigger] runs[i]).logical_start <= rec.logical_block < runs[i].logical_start
                + runs[i].length
            &&& rec.physical_block - runs[i].physical_start == rec.logical_block
                - runs[i].logical_start
        }
}

/// The generation is past that of every one of the snapshots.
pub open spec fn born_after(records: Map<u64, SnapshotRecord>, generation: u64) -> bool {
    forall|id: u64| #[trigger]
        records.contains_key(id) ==> records[id].generation < generation
}

/// A checksum record of the block says that nobody has it any more: the live
/// file has moved off it, it was born after all of the snapshots, and it is not
/// pinned.
pub open spec fn nobody_has(
    store: TreeStore,
    sb: Superblock,
    rc: RefCountManager,
    snapshots: Map<u64, SnapshotRecord>,
    recs: Seq<BlockChecksum>,
    block: u64,
) -> bool {
    exists|k: int|
        {
            &&& 0 <= k < recs.len()
            &&& (#[trigger] recs[k]).physical_block == block
            &&& !still_mapped(store, sb.inode_tree_root, recs[k])
            &&& born_after(snapshots, recs[k].generation)
            &&& sb.refcount_tree_root == 0 || rc.pin_count(block as int) == 0
        }
}

/// The snapshots of one image.
pub struct SnapshotManager {
    /// The registry.
    pub tree: BTree<SnapshotRecord>,
}

impl SnapshotManager {
    /// The registry is well formed.
    pub open spec fn wf(&self) -> bool {
        self.tree.wf()
    }

    /// The records, by snapshot id.
    pub open spec fn view(&self) -> Map<u64, SnapshotRecord> {
        self.tree@
    }

    /// An empty registry rooted at `root_block`.
    pub fn new(root_block: u64) -> (r: Self)
        ensures
            r.wf(),
            r@ == Map::<u64, SnapshotRecord>::empty(),
            r.tree.root_block == root_block,
    {
        SnapshotManager { tree: BTree::new(root_block, SNAPSHOT_TREE_NODE_TYPE) }
    }

    /// Makes the registry an empty one rooted at `root_block`.
    pub fn init_empty(&mut self, root_block: u64)
        ensures
            final(self).wf(),
            final(self)@ == Map::<u64, SnapshotRecord>::empty(),
            final(self).tree.root_block == root_block,
    {
        self.tree = BTree::new(root_block, SNAPSHOT_TREE_NODE_TYPE);
    }

    /// The greatest barrier of all snapshots, 0 when there is none.
    pub fn max_live_barrier(&self) -> (r: u64)
        requires
            self.wf(),
        ensures
            is_barrier(self@, r),
    {
        self.barrier_without(None)
    }

    /// The greatest barrier of the snapshots other than `skip`.
    fn barrier_without(&self, skip: Option<u64>) -> (r: u64)
        requires
            self.wf(),
        ensures
            is_barrier(
                match skip {
                    Some(id) => self@.remove(id),
                    None => self@,
                },
                r,
            ),
    {
        let ghost es = self.tree.entries();
        let ghost kept = match skip {
            Some(id) => self@.remove(id),
            None => self@,
        };
        let mut max: u64 = 0;
        let mut i: usize = 0;
        while i < self.tree.len()
            invariant
                self.wf(),
                es == self.tree.entries(),
                kept == (match skip {
                    Some(id) => self@.remove(id),
                    None => self@,
                }),
                i <= es.len(),
                forall|j: int|
                    0 <= j < i && kept.contains_key((#[trigger] es[j]).0) ==> es[j].1.generation
                        <= max,
                max == 0 || exists|id: u64| #[trigger]
                    kept.contains_key(id) && kept[id].generation == max,
            decreases es.len() - i,
        {
            let (id, rec) = *self.tree.entry(i);
            let skipped = match skip {
                Some(s) => s == id,
                None => false,
            };
            proof {
                ordmap::lemma_map_of_entry(es, i as int);
            }
            if !skipped && rec.generation > max {
                assert(kept.contains_key(id) && kept[id].generation == rec.generation);
                max = rec.generation;
            }
            i = i + 1;
        }
        proof {
            assert forall|id: u64| #[trigger] kept.contains_key(id) implies kept[id].generation
                <= max by {
                ordmap::lemma_key_pos(es, id);
                let j = ordmap::key_pos(es, id);
                ordmap::lemma_map_of_entry(es, j);
                assert(es[j].0 == id);
            }
        }
        max
    }

    /// Makes a snapshot: raises the barrier, syncs the roots into the
    /// superblock, pins the data on an image without checksums, and records
    /// the roots.
    pub fn create_snapshot(
        &mut self,
        store: &TreeStore,
        sb: &mut Superblock,
        rc: &mut RefCountManager,
        live_barrier: &mut u64,
        moment: &SnapshotMoment,
        snapshot_id: u64,
        parent_id: u64,
    ) -> (r: Result<(), Error>)
        requires
            old(self).wf(),
            store.wf(),
            old(rc).wf(),
            moment.checksum_tree_root == 0 ==> {
                let runs = store.walk(moment.inode_tree_root, old(sb).next_ino);
                &&& extents::runs_in_space(runs)
                &&& if old(sb).refcount_tree_root != 0 {
                    extents::can_pin_runs(*old(rc), runs)
                } else {
                    forall|b: int| #[trigger] extents::cover_count(runs, b) <= u32::MAX
                }
            },
        ensures
            final(self).wf(),
            final(rc).wf(),
            final(self).tree.root_block == old(self).tree.root_block,
            ({
                let exists_already = old(self)@.contains_key(snapshot_id);
                let birth = moment.checksum_tree_root != 0;
                let needs_tree = !birth && old(sb).refcount_tree_root == 0;
                let frozen = frozen_superblock(*old(sb), *moment);
                let runs = store.walk(moment.inode_tree_root, old(sb).next_ino);
                if exists_already {
                    &&& r matches Err(e) && e.kind == ErrorKind::AlreadyExists
                    &&& *final(self) == *old(self)
                    &&& *final(sb) == *old(sb)
                    &&& *final(rc) == *old(rc)
                    &&& *final(live_barrier) == *old(live_barrier)
                } else if needs_tree && moment.fresh_block is None {
                    &&& r matches Err(e) && e.kind == ErrorKind::StorageFull
                    &&& *final(self) == *old(self)
                    &&& *final(sb) == frozen
                    &&& *final(rc) == *old(rc)
                } else {
                    &&& r is Ok
                    &&& final(self)@ == old(self)@.insert(
                        snapshot_id,
                        record_of(*old(sb), *moment, snapshot_id, parent_id),
                    )
                    &&& *final(sb) == (Superblock {
                        snapshot_tree_root: old(self).tree.root_block,
                        refcount_tree_root: if needs_tree {
                            moment.fresh_block->0
                        } else {
                            old(sb).refcount_tree_root
                        },
                        ..frozen
                    })
                    &&& birth ==> *final(rc) == *old(rc)
                    &&& !birth && !needs_tree ==> extents::pinned_runs_more(
                        *old(rc),
                        *final(rc),
                        runs,
                    )
                    &&& needs_tree ==> final(rc).tree.root_block == moment.fresh_block->0
                    &&& needs_tree ==> forall|b: int|
                        (#[trigger] final(rc).pin_count(b)) == extents::cover_count(runs, b)
                }
            }),
            !old(self)@.contains_key(snapshot_id) ==> *final(live_barrier) == (if *old(
                live_barrier,
            ) > barrier_of(*moment) {
                *old(live_barrier)
            } else {
                barrier_of(*moment)
            }),
    {
        if self.tree.lookup(snapshot_id).is_some() {
            return Err(Error::new(ErrorKind::AlreadyExists, "Snapshot ID already exists"));
        }
        let barrier: u64 = if moment.node_stamp > 1 {
            moment.node_stamp
        } else {
            1
        };
        if barrier > sb.last_snapshot_generation {
            sb.last_snapshot_generation = barrier;
        }
        if barrier > *live_barrier {
            *live_barrier = barrier;
        }
        sb.inode_tree_root = moment.inode_tree_root;
        sb.dir_tree_root = moment.dir_tree_root;
        sb.checksum_tree_root = moment.checksum_tree_root;
        let birth_mode = sb.checksum_tree_root != 0;
        if !birth_mode {
            if sb.refcount_tree_root == 0 {
                match moment.fresh_block {
                    Some(root) => {
                        rc.init_empty(root);
                        sb.refcount_tree_root = root;
                    },
                    None => {
                        return Err(
                            Error::new(ErrorKind::StorageFull, "no block for the coverage tree"),
                        );
                    },
                }
            }
            let runs = store.walk_of(sb.inode_tree_root, sb.next_ino);
            assert(extents::can_pin_runs(*rc, runs@)) by {
                if old(sb).refcount_tree_root == 0 {
                    assert forall|b: int|
                        (#[trigger] rc.pin_count(b)) + extents::cover_count(runs@, b)
                            <= u32::MAX by {
                        assert(extents::cover_count(runs@, b) <= u32::MAX);
                    }
                }
            }
            extents::pin_all(rc, runs.as_slice());
        }
        let record = SnapshotRecord {
            id: snapshot_id,
            parent_id,
            creation_time: moment.now,
            generation: barrier,
            inode_tree_root: sb.inode_tree_root,
            dir_tree_root: sb.dir_tree_root,
            extent_tree_root: sb.extent_tree_root,
            checksum_tree_root: sb.checksum_tree_root,
            bad_blocks_root: sb.bad_blocks_root,
            flags: if birth_mode {
                SNAPSHOT_FLAG_BIRTH
            } else {
                0
            },
            padding: 0,
        };
        self.tree.insert(snapshot_id, record);
        sb.snapshot_tree_root = self.tree.root_block;
        Ok(())
    }

    /// The record of a snapshot.
    pub fn get_snapshot(&self, snapshot_id: u64) -> (r: Option<SnapshotRecord>)
        requires
            self.wf(),
        ensures
            r == (if self@.contains_key(snapshot_id) {
                Some(self@[snapshot_id])
            } else {
                None
            }),
    {
        self.tree.lookup(snapshot_id)
    }

    /// Every record, in the order of the ids.
    pub fn list_snapshots(&self) -> (r: Vec<SnapshotRecord>)
        ensures
            r@ == self.tree.entries().map_values(|e: (u64, SnapshotRecord)| e.1),
    {
        let mut out: Vec<SnapshotRecord> = Vec::new();
        let mut i: usize = 0;
        while i < self.tree.len()
            invariant
                i <= self.tree.entries().len(),
                out@ == self.tree.entries().take(i as int).map_values(
                    |e: (u64, SnapshotRecord)| e.1,
                ),
            decreases self.tree.entries().len() - i,
        {
            out.push(self.tree.entry(i).1);
            i = i + 1;
            assert(out@ =~= self.tree.entries().take(i as int).map_values(
                |e: (u64, SnapshotRecord)| e.1,
            ));
        }
        assert(self.tree.entries().take(i as int) =~= self.tree.entries());
        out
    }

    /// An inode as the snapshot sees it.
    pub fn read_snapshot_inode(&self, store: &TreeStore, snapshot_id: u64, ino: u64) -> (r: Option<
        Inode,
    >)
        requires
            self.wf(),
            store.wf(),
        ensures
            r == seen_inode(self@, *store, snapshot_id, ino),
    {
        match self.get_snapshot(snapshot_id) {
            Some(record) => match store.inodes.get(record.inode_tree_root) {
                Some(frozen) => frozen.lookup(ino),
                None => None,
            },
            None => None,
        }
    }

    /// The inode that a name stands for as the snapshot sees it.
    pub fn read_snapshot_dir_entry(&self, store: &TreeStore, snapshot_id: u64, name: &str) -> (r:
        Option<u64>)
        requires
            self.wf(),
            store.wf(),
        ensures
            r == seen_name(self@, *store, snapshot_id, name@),
    {
        match self.get_snapshot(snapshot_id) {
            Some(record) => match store.dirs.get(record.dir_tree_root) {
                Some(names) => find_name(names, name),
                None => None,
            },
            None => None,
        }
    }

    /// A checksum record as the snapshot sees it.
    pub fn read_snapshot_csum(
        &self,
        store: &TreeStore,
        snapshot_id: u64,
        ino: u64,
        logical_block: u64,
    ) -> (r: Option<BlockChecksum>)
        requires
            self.wf(),
            store.wf(),
        ensures
            r == seen_csum(self@, *store, snapshot_id, ino, logical_block),
    {
        match self.get_snapshot(snapshot_id) {
            Some(record) => match store.csums.get(record.checksum_tree_root) {
                Some(records) => find_csum(records, ino, logical_block),
                None => None,
            },
            None => None,
        }
    }

    /// Deletes a snapshot, releases what it held, and lowers the barrier to
    /// that of the remaining snapshots. The blocks that become free are
    /// returned. If the snapshot's extents are not pinned as they should be,
    /// those up to the first that is not are released, and the snapshot stays.
    pub fn delete_snapshot(
        &mut self,
        store: &TreeStore,
        sb: &mut Superblock,
        rc: &mut RefCountManager,
        live_barrier: &mut u64,
        snapshot_id: u64,
    ) -> (r: Result<Vec<u64>, Error>)
        requires
            old(self).wf(),
            store.wf(),
            old(rc).wf(),
            old(self)@.contains_key(snapshot_id) && !is_birth(old(self)@[snapshot_id])
                ==> extents::runs_in_space(
                store.walk(old(self)@[snapshot_id].inode_tree_root, old(sb).next_ino),
            ),
        ensures
            final(self).wf(),
            final(rc).wf(),
            final(self).tree.root_block == old(self).tree.root_block,
            final(rc).tree.root_block == old(rc).tree.root_block,
            !old(self)@.contains_key(snapshot_id) ==> {
                &&& r matches Err(e) && e.kind == ErrorKind::NotFound
                &&& *final(self) == *old(self)
                &&& *final(sb) == *old(sb)
                &&& *final(rc) == *old(rc)
                &&& *final(live_barrier) == *old(live_barrier)
            },
            old(self)@.contains_key(snapshot_id) ==> {
                let record = old(self)@[snapshot_id];
                let runs = store.walk(record.inode_tree_root, old(sb).next_ino);
                let unpins = !is_birth(record) && old(sb).refcount_tree_root != 0;
                if unpins && !extents::runs_pinned(*old(rc), runs) {
                    &&& r matches Err(e) && e.kind == ErrorKind::InvalidData
                    &&& *final(self) == *old(self)
                    &&& *final(sb) == *old(sb)
                    &&& *final(live_barrier) == *old(live_barrier)
                    &&& extents::unpinned_in_part(*old(rc), *final(rc), runs)
                } else {
                    &&& r is Ok
                    &&& final(self)@ == old(self)@.remove(snapshot_id)
                    &&& is_barrier(
                        old(self)@.remove(snapshot_id),
                        final(sb).last_snapshot_generation,
                    )
                    &&& *final(sb) == (Superblock {
                        last_snapshot_generation: final(sb).last_snapshot_generation,
                        ..*old(sb)
                    })
                    &&& *final(live_barrier) == final(sb).last_snapshot_generation
                    &&& unpins ==> extents::pinned_runs_more(*final(rc), *old(rc), runs)
                    &&& !unpins ==> *final(rc) == *old(rc)
                    &&& r->Ok_0@ == (if is_birth(record) {
                        reclaimed_blocks(
                            *store,
                            *old(sb),
                            *old(rc),
                            final(sb).last_snapshot_generation,
                            record,
                        )
                    } else {
                        Seq::empty()
                    })
                }
            },
            old(self)@.contains_key(snapshot_id) && r is Ok && old(self)@[snapshot_id].flags
                & SNAPSHOT_FLAG_BIRTH != 0 && old(sb).checksum_tree_root != 0 ==> {
                let others = old(self)@.remove(snapshot_id);
                let recs = store.csum_records(old(self)@[snapshot_id].checksum_tree_root);
                &&& forall|k: int|
                    0 <= k < recs.len() && !still_mapped(
                        *store,
                        old(sb).inode_tree_root,
                        #[trigger] recs[k],
                    ) && recs[k].generation > 0 && born_after(others, recs[k].generation)
                        && (old(sb).refcount_tree_root == 0 || old(rc).pin_count(
                        recs[k].physical_block as int,
                    ) == 0) ==> r->Ok_0@.contains(recs[k].physical_block)
                &&& forall|i: int|
                    0 <= i < r->Ok_0@.len() ==> nobody_has(
                        *store,
                        *old(sb),
                        *old(rc),
                        others,
                        recs,
                        #[trigger] r->Ok_0@[i],
                    )
            },
    {
        let record = match self.tree.lookup(snapshot_id) {
            Some(record) => record,
            None => {
                return Err(Error::new(ErrorKind::NotFound, "Snapshot not found"));
            },
        };
        let mut freed: Vec<u64> = Vec::new();
        let remaining_barrier = self.barrier_without(Some(snapshot_id));
        if record.flags & SNAPSHOT_FLAG_BIRTH != 0 {
            freed = Self::reclaim_birth_snapshot(store, sb, rc, &record, remaining_barrier);
            proof {
                if sb.checksum_tree_root != 0 {
                    lemma_freed_both_ways(
                        self@,
                        *store,
                        *sb,
                        *rc,
                        snapshot_id,
                        remaining_barrier,
                    );
                }
            }
        } else if sb.refcount_tree_root != 0 {
            let runs = store.walk_of(record.inode_tree_root, sb.next_ino);
            match extents::unpin_all(rc, runs.as_slice()) {
                Ok(_) => {},
                Err(e) => {
                    return Err(e);
                },
            }
        }
        let _ = self.tree.remove(snapshot_id);
        let barrier = self.max_live_barrier();
        proof {
            lemma_barrier_unique(self@, barrier, remaining_barrier);
        }
        sb.last_snapshot_generation = barrier;
        *live_barrier = barrier;
        Ok(freed)
    }

    /// The blocks that only the deleted snapshot held.
    fn reclaim_birth_snapshot(
        store: &TreeStore,
        sb: &Superblock,
        rc: &RefCountManager,
        record: &SnapshotRecord,
        remaining_barrier: u64,
    ) -> (r: Vec<u64>)
        requires
            store.wf(),
            rc.wf(),
        ensures
            r@ == reclaimed_blocks(*store, *sb, *rc, remaining_barrier, *record),
    {
        let mut freed: Vec<u64> = Vec::new();
        if sb.checksum_tree_root == 0 {
            return freed;
        }
        let ghost keep = |rec: BlockChecksum| reclaimable(*store, *sb, *rc, remaining_barrier, rec);
        let ghost phys = |rec: BlockChecksum| rec.physical_block;
        match store.csums.get(record.checksum_tree_root) {
            None => {
                proof {
                    reveal(Seq::filter);
                    assert(freed@ =~= Seq::<BlockChecksum>::empty().filter(keep).map_values(phys));
                }
                freed
            },
            Some(records) => {
                let mut cur_ino: Option<u64> = None;
                let mut live: Vec<Extent> = Vec::new();
                let mut i: usize = 0;
                proof {
                    reveal(Seq::filter);
                    assert(freed@ =~= records@.take(0).filter(keep).map_values(phys));
                }
                while i < records.len()
                    invariant
                        store.wf(),
                        rc.wf(),
                        keep == (|rec: BlockChecksum|
                            reclaimable(*store, *sb, *rc, remaining_barrier, rec)),
                        phys == (|rec: BlockChecksum| rec.physical_block),
                        i <= records@.len(),
                        cur_ino matches Some(ino) ==> live@ == store.runs_at(
                            sb.inode_tree_root,
                            ino,
                        ),
                        freed@ == records@.take(i as int).filter(keep).map_values(phys),
                    decreases records@.len() - i,
                {
                    let rec = records[i];
                    let same = match cur_ino {
                        Some(ino) => ino == rec.object_id,
                        None => false,
                    };
                    if !same {
                        live = store.runs_of(sb.inode_tree_root, rec.object_id);
                        cur_ino = Some(rec.object_id);
                    }
                    let ghost before = freed@;
                    proof {
                        records@.take(i as int).lemma_filter_push(rec, keep);
                        assert(records@.take(i + 1) =~= records@.take(i as int).push(rec));
                    }
                    let mapped = extents::maps_block(
                        live.as_slice(),
                        rec.logical_block,
                        rec.physical_block,
                    );
                    let pinned = sb.refcount_tree_root != 0 && rc.is_pinned(rec.physical_block);
                    proof {
                        refcount::lemma_pins_nonneg(*rc, rec.physical_block as int);
                    }
                    if !mapped && rec.generation > remaining_barrier && !pinned {
                        freed.push(rec.physical_block);
                    }
                    i = i + 1;
                    assert(freed@ =~= records@.take(i as int).filter(keep).map_values(phys));
                }
                assert(records@.take(i as int) =~= records@);
                freed
            },
        }
    }
}

/// The inode that a snapshot sees.
pub open spec fn seen_inode(
    records: Map<u64, SnapshotRecord>,
    store: TreeStore,
    snapshot_id: u64,
    ino: u64,
) -> Option<Inode> {
    if records.contains_key(snapshot_id) {
        store.inode_at(records[snapshot_id].inode_tree_root, ino)
    } else {
        None
    }
}

/// The inode that a name stands for in a snapshot.
pub open spec fn seen_name(
    records: Map<u64, SnapshotRecord>,
    store: TreeStore,
    snapshot_id: u64,
    name: Seq<char>,
) -> Option<u64> {
    if records.contains_key(snapshot_id) && store.dirs@.contains_key(
        records[snapshot_id].dir_tree_root,
    ) {
        ino_of_name(store.dirs@[records[snapshot_id].dir_tree_root]@, name)
    } else {
        None
    }
}

/// The checksum record that a snapshot sees.
pub open spec fn seen_csum(
    records: Map<u64, SnapshotRecord>,
    store: TreeStore,
    snapshot_id: u64,
    ino: u64,
    logical_block: u64,
) -> Option<BlockChecksum> {
    if records.contains_key(snapshot_id) {
        csum_of_block(
            store.csum_records(records[snapshot_id].checksum_tree_root),
            ino,
            logical_block,
        )
    } else {
        None
    }
}

/// The first entry that has the name.
pub open spec fn ino_of_name(names: Seq<DirName>, name: Seq<char>) -> Option<u64>
    decreases names.len(),
{
    if names.len() == 0 {
        None
    } else if names[0].name@ == name {
        Some(names[0].ino)
    } else {
        ino_of_name(names.drop_first(), name)
    }
}

/// The first record of the block.
pub open spec fn csum_of_block(
    records: Seq<BlockChecksum>,
    ino: u64,
    logical_block: u64,
) -> Option<BlockChecksum>
    decreases records.len(),
{
    if records.len() == 0 {
        None
    } else if records[0].object_id == ino && records[0].logical_block == logical_block {
        Some(records[0])
    } else {
        csum_of_block(records.drop_first(), ino, logical_block)
    }
}

/// The inode of the first entry that has the name.
fn find_name(names: &Vec<DirName>, name: &str) -> (r: Option<u64>)
    ensures
        r == ino_of_name(names@, name@),
{
    let mut i: usize = 0;
    assert(names@.skip(0) =~= names@);
    while i < names.len()
        invariant
            i <= names@.len(),
            ino_of_name(names@, name@) == ino_of_name(names@.skip(i as int), name@),
        decreases names@.len() - i,
    {
        if text::same_text(names[i].name.as_str(), name) {
            return Some(names[i].ino);
        }
        assert(names@.skip(i as int).drop_first() =~= names@.skip(i + 1));
        i = i + 1;
    }
    None
}

/// The first record of the block.
pub fn find_csum(records: &Vec<BlockChecksum>, ino: u64, logical_block: u64) -> (r: Option<
    BlockChecksum,
>)
    ensures
        r == csum_of_block(records@, ino, logical_block),
{
    let mut i: usize = 0;
    assert(records@.skip(0) =~= records@);
    while i < records.len()
        invariant
            i <= records@.len(),
            csum_of_block(records@, ino, logical_block) == csum_of_block(
                records@.skip(i as int),
                ino,
                logical_block,
            ),
        decreases records@.len() - i,
    {
        if records[i].object_id == ino && records[i].logical_block == logical_block {
            return Some(records[i]);
        }
        assert(records@.skip(i as int).drop_first() =~= records@.skip(i + 1));
        i = i + 1;
    }
    None
}

/// There is only one barrier.
proof fn lemma_barrier_unique(records: Map<u64, SnapshotRecord>, a: u64, b: u64)
    requires
        is_barrier(records, a),
        is_barrier(records, b),
    ensures
        a == b,
{
    if a != 0 {
        let id = choose|id: u64| #[trigger]
            records.contains_key(id) && records[id].generation == a;
        assert(records[id].generation <= b);
    }
    if b != 0 {
        let id = choose|id: u64| #[trigger]
            records.contains_key(id) && records[id].generation == b;
        assert(records[id].generation <= a);
    }
}

/// A snapshot that pinned its data and is then deleted leaves every block
/// pinned as often as before it was made.
pub proof fn delete_undoes_the_pins_of_create(
    before: RefCountManager,
    pinned: RefCountManager,
    after: RefCountManager,
    runs: Seq<Extent>,
)
    requires
        before.wf(),
        extents::pinned_runs_more(before, pinned, runs),
        extents::pinned_runs_more(after, pinned, runs),
    ensures
        extents::runs_pinned(pinned, runs),
        forall|b: int| (#[trigger] after.pin_count(b)) == before.pin_count(b),
{
    assert forall|b: int| extents::cover_count(runs, b) <= #[trigger] pinned.pin_count(b) by {
        refcount::lemma_pins_nonneg(before, b);
    }
    assert forall|b: int| (#[trigger] after.pin_count(b)) == before.pin_count(b) by {
        assert(pinned.pin_count(b) == before.pin_count(b) + extents::cover_count(runs, b));
        assert(pinned.pin_count(b) == after.pin_count(b) + extents::cover_count(runs, b));
    }
}

/// After a delete, the barrier still covers every remaining snapshot.
pub proof fn barrier_covers_remaining_snapshots(
    records: Map<u64, SnapshotRecord>,
    deleted: u64,
    barrier: u64,
    other: u64,
)
    requires
        is_barrier(records.remove(deleted), barrier),
        records.contains_key(other),
        other != deleted,
    ensures
        records[other].generation <= barrier,
{
    assert(records.remove(deleted).contains_key(other));
}

/// A new snapshot sees the tree that is live when it is made.
pub proof fn created_snapshot_sees_the_live_tree(
    records: Map<u64, SnapshotRecord>,
    store: TreeStore,
    sb: Superblock,
    moment: SnapshotMoment,
    snapshot_id: u64,
    parent_id: u64,
    ino: u64,
)
    ensures
        seen_inode(
            records.insert(snapshot_id, record_of(sb, moment, snapshot_id, parent_id)),
            store,
            snapshot_id,
            ino,
        ) == store.inode_at(frozen_superblock(sb, moment).inode_tree_root, ino),
{
}

/// Making or deleting one snapshot changes nothing that another one sees,
/// and a deleted one sees nothing.
pub proof fn other_snapshots_keep_their_view(
    records: Map<u64, SnapshotRecord>,
    store: TreeStore,
    changed: u64,
    record: SnapshotRecord,
    other: u64,
    ino: u64,
    name: Seq<char>,
    logical_block: u64,
)
    requires
        other != changed,
    ensures
        seen_inode(records.insert(changed, record), store, other, ino) == seen_inode(
            records,
            store,
            other,
            ino,
        ),
        seen_inode(records.remove(changed), store, other, ino) == seen_inode(
            records,
            store,
            other,
            ino,
        ),
        seen_name(records.insert(changed, record), store, other, name) == seen_name(
            records,
            store,
            other,
            name,
        ),
        seen_name(records.remove(changed), store, other, name) == seen_name(
            records,
            store,
            other,
            name,
        ),
        seen_csum(records.insert(changed, record), store, other, ino, logical_block) == seen_csum(
            records,
            store,
            other,
            ino,
            logical_block,
        ),
        seen_csum(records.remove(changed), store, other, ino, logical_block) == seen_csum(
            records,
            store,
            other,
            ino,
            logical_block,
        ),
        seen_inode(records.remove(changed), store, changed, ino) is None,
        seen_name(records.remove(changed), store, changed, name) is None,
        seen_csum(records.remove(changed), store, changed, ino, logical_block) is None,
{
}

/// Deleting a snapshot gives back everything that only it held: every block of
/// its checksum records that the live file has moved off, that was born after
/// every remaining snapshot, and that is not pinned. On an image without a
/// coverage tree nothing is pinned.
pub proof fn deletion_frees_all_that_only_it_held(
    records: Map<u64, SnapshotRecord>,
    store: TreeStore,
    sb: Superblock,
    rc: RefCountManager,
    deleted: u64,
    barrier: u64,
    k: int,
)
    requires
        records.contains_key(deleted),
        is_barrier(records.remove(deleted), barrier),
        sb.checksum_tree_root != 0,
        0 <= k < store.csum_records(records[deleted].checksum_tree_root).len(),
        ({
            let rec = store.csum_records(records[deleted].checksum_tree_root)[k];
            &&& !still_mapped(store, sb.inode_tree_root, rec)
            &&& rec.generation > 0
            &&& forall|id: u64| #[trigger]
                records.contains_key(id) && id != deleted ==> records[id].generation
                    < rec.generation
            &&& sb.refcount_tree_root == 0 || rc.pin_count(rec.physical_block as int) == 0
        }),
    ensures
        reclaimed_blocks(store, sb, rc, barrier, records[deleted]).contains(
            store.csum_records(records[deleted].checksum_tree_root)[k].physical_block,
        ),
{
    let all = store.csum_records(records[deleted].checksum_tree_root);
    let rec = all[k];
    let rest = records.remove(deleted);
    if barrier != 0 {
        let id = choose|id: u64| #[trigger]
            rest.contains_key(id) && rest[id].generation == barrier;
        assert(records.contains_key(id));
    }
    let runs = store.runs_at(sb.inode_tree_root, rec.object_id);
    assert(!extents::maps_to(runs, rec.logical_block as int, rec.physical_block as int)) by {
        if extents::maps_to(runs, rec.logical_block as int, rec.physical_block as int) {
            let i = choose|i: int|
                0 <= i < runs.len() && extents::extent_maps(
                    #[trigger] runs[i],
                    rec.logical_block as int,
                    rec.physical_block as int,
                );
            assert(runs[i].logical_start <= rec.logical_block);
            assert(still_mapped(store, sb.inode_tree_root, rec));
        }
    }
    let keep = |rec: BlockChecksum| reclaimable(store, sb, rc, barrier, rec);
    all.lemma_filter_contains(keep, k);
    let kept = all.filter(keep);
    let j = choose|j: int| 0 <= j < kept.len() && kept[j] == rec;
    assert(reclaimed_blocks(store, sb, rc, barrier, records[deleted])[j] == rec.physical_block);
}

proof fn lemma_freed_both_ways(
    records: Map<u64, SnapshotRecord>,
    store: TreeStore,
    sb: Superblock,
    rc: RefCountManager,
    deleted: u64,
    barrier: u64,
)
    requires
        records.contains_key(deleted),
        is_barrier(records.remove(deleted), barrier),
        sb.checksum_tree_root != 0,
    ensures
        ({
            let others = records.remove(deleted);
            let recs = store.csum_records(records[deleted].checksum_tree_root);
            let freed = reclaimed_blocks(store, sb, rc, barrier, records[deleted]);
            &&& forall|k: int|
                0 <= k < recs.len() && !still_mapped(
                    store,
                    sb.inode_tree_root,
                    #[trigger] recs[k],
                ) && recs[k].generation > 0 && born_after(others, recs[k].generation) && (
                sb.refcount_tree_root == 0 || rc.pin_count(recs[k].physical_block as int) == 0)
                    ==> freed.contains(recs[k].physical_block)
            &&& forall|i: int|
                0 <= i < freed.len() ==> nobody_has(
                    store,
                    sb,
                    rc,
                    others,
                    recs,
                    #[trigger] freed[i],
                )
        }),
{
    let others = records.remove(deleted);
    let recs = store.csum_records(records[deleted].checksum_tree_root);
    let freed = reclaimed_blocks(store, sb, rc, barrier, records[deleted]);
    assert forall|k: int|
        0 <= k < recs.len() && !still_mapped(store, sb.inode_tree_root, #[trigger] recs[k])
            && recs[k].generation > 0 && born_after(others, recs[k].generation) && (
        sb.refcount_tree_root == 0 || rc.pin_count(recs[k].physical_block as int)
            == 0) implies freed.contains(recs[k].physical_block) by {
        assert forall|id: u64| #[trigger]
            records.contains_key(id) && id != deleted implies records[id].generation
            < recs[k].generation by {
            assert(others.contains_key(id));
        }
        deletion_frees_all_that_only_it_held(records, store, sb, rc, deleted, barrier, k);
    }
    assert forall|i: int| 0 <= i < freed.len() implies nobody_has(
        store,
        sb,
        rc,
        others,
        recs,
        #[trigger] freed[i],
    ) by {
        assert(freed.contains(freed[i]));
        let rec = freed_blocks_are_out_of_reach(records, store, sb, rc, deleted, barrier, freed[i]);
        let k = choose|k: int| 0 <= k < recs.len() && recs[k] == rec;
        let runs = store.runs_at(sb.inode_tree_root, rec.object_id);
        if still_mapped(store, sb.inode_tree_root, rec) {
            let j = choose|j: int|
                {
                    &&& 0 <= j < runs.len()
                    &&& (#[trigger] runs[j]).logical_start <= rec.logical_block
                        < runs[j].logical_start + runs[j].length
                    &&& rec.physical_block - runs[j].physical_start == rec.logical_block
                        - runs[j].logical_start
                };
            assert(extents::extent_maps(
                runs[j],
                rec.logical_block as int,
                rec.physical_block as int,
            ));
        }
        assert(recs[k].physical_block == freed[i]);
    }
}

/// Every block that the deletion of a snapshot frees was written after all
/// remaining snapshots were made, is not where the live file has that block,
/// and is not pinned.
pub proof fn freed_blocks_are_out_of_reach(
    records: Map<u64, SnapshotRecord>,
    store: TreeStore,
    sb: Superblock,
    rc: RefCountManager,
    deleted: u64,
    barrier: u64,
    block: u64,
) -> (rec: BlockChecksum)
    requires
        records.contains_key(deleted),
        is_barrier(records.remove(deleted), barrier),
        reclaimed_blocks(store, sb, rc, barrier, records[deleted]).contains(block),
    ensures
        store.csum_records(records[deleted].checksum_tree_root).contains(rec),
        rec.physical_block == block,
        forall|id: u64| #[trigger]
            records.contains_key(id) && id != deleted ==> records[id].generation < rec.generation,
        !extents::maps_to(
            store.runs_at(sb.inode_tree_root, rec.object_id),
            rec.logical_block as int,
            block as int,
        ),
        sb.refcount_tree_root != 0 ==> rc.pin_count(block as int) == 0,
{
    let all = store.csum_records(records[deleted].checksum_tree_root);
    let keep = |rec: BlockChecksum| reclaimable(store, sb, rc, barrier, rec);
    let kept = all.filter(keep);
    let blocks = reclaimed_blocks(store, sb, rc, barrier, records[deleted]);
    let i = choose|i: int| 0 <= i < blocks.len() && blocks[i] == block;
    let rec = kept[i];
    all.lemma_filter_contains_rev(keep, rec);
    assert forall|id: u64| #[trigger]
        records.contains_key(id) && id != deleted implies records[id].generation
        < rec.generation by {
        assert(records.remove(deleted).contains_key(id));
    }
    rec
}

/// The record of a snapshot has its number and its parent's, the time, and the
/// roots of the trees at its moment; its barrier is the last stamp that was
/// given, and at least one. It is protected by birth stamps exactly if there is
/// a checksum tree.
pub proof fn record_says_what_was_frozen(
    sb: Superblock,
    moment: SnapshotMoment,
    snapshot_id: u64,
    parent_id: u64,
)
    ensures
        ({
            let rec = record_of(sb, moment, snapshot_id, parent_id);
            &&& rec.id == snapshot_id
            &&& rec.parent_id == parent_id
            &&& rec.creation_time == moment.now
            &&& rec.generation >= moment.node_stamp && rec.generation >= 1
            &&& moment.node_stamp >= 1 ==> rec.generation == moment.node_stamp
            &&& rec.inode_tree_root == moment.inode_tree_root
            &&& rec.dir_tree_root == moment.dir_tree_root
            &&& rec.checksum_tree_root == moment.checksum_tree_root
            &&& rec.extent_tree_root == sb.extent_tree_root
            &&& rec.bad_blocks_root == sb.bad_blocks_root
            &&& rec.flags == (if moment.checksum_tree_root != 0 {
                1
            } else {
                0u32
            })
        }),
{
}

/// Making a snapshot freezes what is there: the superblock gets the roots of
/// the moment, and a barrier that covers the new snapshot and never goes down.
/// Nothing else of it changes.
pub proof fn freezing_raises_the_barrier(sb: Superblock, moment: SnapshotMoment)
    ensures
        ({
            let after = frozen_superblock(sb, moment);
            &&& after.last_snapshot_generation >= moment.node_stamp
            &&& after.last_snapshot_generation >= sb.last_snapshot_generation
            &&& after.last_snapshot_generation >= 1
            &&& after.last_snapshot_generation == sb.last_snapshot_generation
                || after.last_snapshot_generation == moment.node_stamp
                || after.last_snapshot_generation == 1
            &&& after.inode_tree_root == moment.inode_tree_root
            &&& after.dir_tree_root == moment.dir_tree_root
            &&& after.checksum_tree_root == moment.checksum_tree_root
            &&& after == (Superblock {
                last_snapshot_generation: after.last_snapshot_generation,
                inode_tree_root: after.inode_tree_root,
                dir_tree_root: after.dir_tree_root,
                checksum_tree_root: after.checksum_tree_root,
                ..sb
            })
        }),
{
}

/// What a snapshot sees of a block is its record in the checksum tree that the
/// snapshot froze, the first one for the file and the block.
pub proof fn snapshot_sees_its_own_records(
    records: Map<u64, SnapshotRecord>,
    store: TreeStore,
    snapshot_id: u64,
    k: int,
)
    requires
        records.contains_key(snapshot_id),
        store.csums@.contains_key(records[snapshot_id].checksum_tree_root),
        ({
            let recs = store.csums@[records[snapshot_id].checksum_tree_root]@;
            &&& 0 <= k < recs.len()
            &&& forall|j: int|
                0 <= j < k ==> !((#[trigger] recs[j]).object_id == recs[k].object_id
                    && recs[j].logical_block == recs[k].logical_block)
        }),
    ensures
        ({
            let rec = store.csums@[records[snapshot_id].checksum_tree_root]@[k];
            seen_csum(records, store, snapshot_id, rec.object_id, rec.logical_block) == Some(rec)
        }),
{
    lemma_first_record(store.csums@[records[snapshot_id].checksum_tree_root]@, k);
}

proof fn lemma_first_record(recs: Seq<BlockChecksum>, k: int)
    requires
        0 <= k < recs.len(),
        forall|j: int|
            0 <= j < k ==> !((#[trigger] recs[j]).object_id == recs[k].object_id
                && recs[j].logical_block == recs[k].logical_block),
    ensures
        csum_of_block(recs, recs[k].object_id, recs[k].logical_block) == Some(recs[k]),
    decreases recs.len(),
{
    if k > 0 {
        let t = recs.drop_first();
        assert(!(recs[0].object_id == recs[k].object_id && recs[0].logical_block
            == recs[k].logical_block));
        assert(t[k - 1] == recs[k]);
        assert forall|j: int| 0 <= j < k - 1 implies !((#[trigger] t[j]).object_id == t[k
            - 1].object_id && t[j].logical_block == t[k - 1].logical_block) by {
            assert(t[j] == recs[j + 1]);
        }
        lemma_first_record(t, k - 1);
    }
}

/// What a snapshot sees of a name is the first entry that has it in the names
/// that the snapshot froze.
pub proof fn snapshot_sees_its_own_names(
    records: Map<u64, SnapshotRecord>,
    store: TreeStore,
    snapshot_id: u64,
    k: int,
)
    requires
        records.contains_key(snapshot_id),
        store.dirs@.contains_key(records[snapshot_id].dir_tree_root),
        ({
            let names = store.dirs@[records[snapshot_id].dir_tree_root]@;
            &&& 0 <= k < names.len()
            &&& forall|j: int| 0 <= j < k ==> (#[trigger] names[j]).name@ != names[k].name@
        }),
    ensures
        ({
            let e = store.dirs@[records[snapshot_id].dir_tree_root]@[k];
            seen_name(records, store, snapshot_id, e.name@) == Some(e.ino)
        }),
{
    lemma_first_name(store.dirs@[records[snapshot_id].dir_tree_root]@, k);
}

proof fn lemma_first_name(names: Seq<DirName>, k: int)
    requires
        0 <= k < names.len(),
        forall|j: int| 0 <= j < k ==> (#[trigger] names[j]).name@ != names[k].name@,
    ensures
        ino_of_name(names, names[k].name@) == Some(names[k].ino),
    decreases names.len(),
{
    if k > 0 {
        let t = names.drop_first();
        assert(names[0].name@ != names[k].name@);
        assert(t[k - 1] == names[k]);
        assert forall|j: int| 0 <= j < k - 1 implies (#[trigger] t[j]).name@ != t[k
            - 1].name@ by {
            assert(t[j] == names[j + 1]);
        }
        lemma_first_name(t, k - 1);
    }
}

/// What a snapshot sees of an inode is that of the tree that it froze.
pub proof fn snapshot_sees_its_own_inodes(
    records: Map<u64, SnapshotRecord>,
    store: TreeStore,
    snapshot_id: u64,
    ino: u64,
)
    requires
        records.contains_key(snapshot_id),
        store.inodes@.contains_key(records[snapshot_id].inode_tree_root),
    ensures
        ({
            let tree = store.inodes@[records[snapshot_id].inode_tree_root]@;
            &&& tree.contains_key(ino) ==> seen_inode(records, store, snapshot_id, ino) == Some(
                tree[ino],
            )
            &&& !tree.contains_key(ino) ==> seen_inode(records, store, snapshot_id, ino) is None
        }),
{
}

} // verus!
