use lionfs::error::ErrorKind;
use lionfs::fs::snapshots::{
    BlockChecksum, DirName, SnapshotManager, SnapshotMoment, TreeStore, SNAPSHOT_FLAG_BIRTH,
};
use lionfs::integrity::refcount::RefCountManager;
use lionfs::ondisk::serialization::{Extent, Inode, Superblock};
use lionfs::ordmap::OrdMap;

const INODE_ROOT: u64 = 20;
const CSUM_ROOT: u64 = 22;
const SNAPSHOT_ROOT: u64 = 24;
const REFCOUNT_ROOT: u64 = 26;
const DIR_ROOT: u64 = 30;

fn inode(ino: u64, physical: u64, length: u64) -> Inode {
    let mut inode = Inode::zeroed(ino);
    inode.mode = 0o100644;
    inode.size = length * 4096;
    inode.extent_count = 1;
    inode.extents[0] = Extent { logical_start: 0, physical_start: physical, length };
    inode
}

fn csum(logical_block: u64, physical_block: u64, generation: u64) -> BlockChecksum {
    BlockChecksum { object_id: 2, logical_block, physical_block, generation }
}

/// Inode 2 has `length` blocks from `physical` on.
fn store(physical: u64, length: u64, csums: Vec<BlockChecksum>) -> TreeStore {
    let mut tree = OrdMap::new();
    tree.insert(2, inode(2, physical, length));
    let mut inodes = OrdMap::new();
    inodes.insert(INODE_ROOT, tree);
    let mut dirs = OrdMap::new();
    dirs.insert(DIR_ROOT, vec![DirName { name: "f".to_string(), ino: 2 }]);
    let mut checksums = OrdMap::new();
    checksums.insert(CSUM_ROOT, csums);
    TreeStore { inodes, dirs, csums: checksums, spills: OrdMap::new() }
}

fn superblock() -> Superblock {
    let mut sb = Superblock::zeroed();
    sb.inode_tree_root = INODE_ROOT;
    sb.checksum_tree_root = CSUM_ROOT;
    sb.snapshot_tree_root = SNAPSHOT_ROOT;
    sb.refcount_tree_root = REFCOUNT_ROOT;
    sb.dir_tree_root = DIR_ROOT;
    sb.next_ino = 3;
    sb
}

fn moment(node_stamp: u64, checksum_tree_root: u64) -> SnapshotMoment {
    SnapshotMoment {
        now: 1_700_000_000,
        node_stamp,
        inode_tree_root: INODE_ROOT,
        dir_tree_root: DIR_ROOT,
        checksum_tree_root,
        fresh_block: Some(300),
    }
}

#[test]
fn snapshot_with_checksums_pins_nothing_and_shows_the_tree() {
    let store = store(500, 1, vec![csum(0, 500, 3)]);
    let mut sb = superblock();
    let mut rc = RefCountManager::new(REFCOUNT_ROOT);
    let mut barrier = 0;
    let mut snap = SnapshotManager::new(SNAPSHOT_ROOT);
    snap.create_snapshot(&store, &mut sb, &mut rc, &mut barrier, &moment(5, CSUM_ROOT), 1, 0)
        .ok()
        .expect("create");
    assert!(!rc.is_pinned(500));
    assert_eq!(sb.last_snapshot_generation, 5);
    assert_eq!(barrier, 5);
    let rec = snap.get_snapshot(1).expect("record");
    assert_eq!(rec.flags, SNAPSHOT_FLAG_BIRTH);
    assert_eq!(rec.creation_time, 1_700_000_000);
    assert_eq!(snap.list_snapshots().len(), 1);
    let frozen = snap.read_snapshot_inode(&store, 1, 2).expect("inode");
    assert_eq!(frozen.extents[0].physical_start, 500);
    assert_eq!(snap.read_snapshot_dir_entry(&store, 1, "f"), Some(2));
    assert_eq!(snap.read_snapshot_dir_entry(&store, 1, "g"), None);
    let birth = snap.read_snapshot_csum(&store, 1, 2, 0).expect("checksum record");
    assert!(birth.generation <= sb.last_snapshot_generation);
    assert!(snap.read_snapshot_inode(&store, 9, 2).is_none());

    let again =
        snap.create_snapshot(&store, &mut sb, &mut rc, &mut barrier, &moment(8, CSUM_ROOT), 1, 0);
    assert_eq!(again.err().map(|e| e.kind), Some(ErrorKind::AlreadyExists));
    assert_eq!(barrier, 5);
}

#[test]
fn snapshot_without_checksums_pins_and_its_deletion_unpins() {
    let store = store(500, 4, Vec::new());
    let mut sb = superblock();
    sb.refcount_tree_root = 0;
    let mut rc = RefCountManager::new(0);
    let mut barrier = 0;
    let mut snap = SnapshotManager::new(SNAPSHOT_ROOT);
    let mut without_room = moment(2, 0);
    without_room.fresh_block = None;
    let full = snap.create_snapshot(&store, &mut sb, &mut rc, &mut barrier, &without_room, 1, 0);
    assert_eq!(full.err().map(|e| e.kind), Some(ErrorKind::StorageFull));
    snap.create_snapshot(&store, &mut sb, &mut rc, &mut barrier, &moment(2, 0), 1, 0)
        .ok()
        .expect("create");
    assert_eq!(sb.refcount_tree_root, 300);
    assert_eq!(snap.get_snapshot(1).expect("record").flags, 0);
    assert!((500..504).all(|b| rc.is_pinned(b)));
    assert!(!rc.is_pinned(504));
    let freed = snap.delete_snapshot(&store, &mut sb, &mut rc, &mut barrier, 1);
    assert_eq!(freed.ok().expect("delete"), Vec::<u64>::new());
    assert!((500..504).all(|b| !rc.is_pinned(b)));
    assert_eq!(barrier, 0);
    let gone = snap.delete_snapshot(&store, &mut sb, &mut rc, &mut barrier, 1);
    assert_eq!(gone.err().map(|e| e.kind), Some(ErrorKind::NotFound));
}

#[test]
fn unbalanced_unpin_is_reported() {
    let store = store(500, 4, Vec::new());
    let mut sb = superblock();
    let mut rc = RefCountManager::new(REFCOUNT_ROOT);
    let mut barrier = 0;
    let mut snap = SnapshotManager::new(SNAPSHOT_ROOT);
    snap.create_snapshot(&store, &mut sb, &mut rc, &mut barrier, &moment(2, 0), 1, 0)
        .ok()
        .expect("create");
    rc = RefCountManager::new(REFCOUNT_ROOT);
    let r = snap.delete_snapshot(&store, &mut sb, &mut rc, &mut barrier, 1);
    assert_eq!(r.err().map(|e| e.kind), Some(ErrorKind::InvalidData));
    assert!(snap.get_snapshot(1).is_some());
    // A run that is pinned in part stays pinned as it was.
    rc.pin_range(500, 2);
    assert!(snap.delete_snapshot(&store, &mut sb, &mut rc, &mut barrier, 1).is_err());
    assert_eq!((rc.coverage_at(501), rc.coverage_at(502)), (1, 0));
}

#[test]
fn deletion_frees_what_only_the_deleted_snapshot_held() {
    // Block 0 is still where the live file has it, block 1 was moved, and
    // block 2 was moved but is older than the first snapshot.
    let store = store(500, 1, vec![csum(0, 500, 7), csum(1, 601, 7), csum(2, 602, 3)]);
    let mut sb = superblock();
    let mut rc = RefCountManager::new(REFCOUNT_ROOT);
    let mut barrier = 0;
    let mut snap = SnapshotManager::new(SNAPSHOT_ROOT);
    for (id, stamp) in [(1, 5), (2, 9)] {
        snap.create_snapshot(
            &store,
            &mut sb,
            &mut rc,
            &mut barrier,
            &moment(stamp, CSUM_ROOT),
            id,
            0,
        )
        .ok()
        .expect("create");
    }
    assert_eq!(snap.max_live_barrier(), 9);
    let freed = snap.delete_snapshot(&store, &mut sb, &mut rc, &mut barrier, 2);
    assert_eq!(freed.ok().expect("delete"), vec![601]);
    assert_eq!(snap.max_live_barrier(), 5);
    assert_eq!((sb.last_snapshot_generation, barrier), (5, 5));
    assert!(snap.read_snapshot_inode(&store, 1, 2).is_some());
    let freed = snap.delete_snapshot(&store, &mut sb, &mut rc, &mut barrier, 1);
    assert_eq!(freed.ok().expect("delete"), vec![601, 602]);
}
