use lionfs::fs::cow::CowRoots;
use lionfs::fs::snapshots::{
    find_csum, BlockChecksum, SnapshotManager, SnapshotMoment, TreeStore,
};
use lionfs::integrity::refcount::RefCountManager;
use lionfs::ondisk::serialization::{Inode, Superblock};
use lionfs::ordmap::OrdMap;

struct Env {
    store: TreeStore,
    roots: CowRoots,
    snap: SnapshotManager,
    rc: RefCountManager,
}

/// An inode tree at 20, a checksum tree at 28 and a name tree at 30.
fn setup() -> Env {
    let store = TreeStore {
        inodes: OrdMap::new(),
        dirs: OrdMap::new(),
        csums: OrdMap::new(),
        spills: OrdMap::new(),
    };
    let mut roots = CowRoots::new(500);
    for root in [20, 28, 30] {
        roots.plant(root);
    }
    Env { store, roots, snap: SnapshotManager::new(24), rc: RefCountManager::new(0) }
}

fn inode(ino: u64, size: u64) -> Inode {
    let mut inode = Inode::zeroed(ino);
    inode.mode = 0o100644;
    inode.size = size;
    inode
}

fn put_inode(env: &mut Env, ino: u64, size: u64) -> bool {
    env.store.put_inode(&mut env.roots, 20, inode(ino, size))
}

fn superblock(csum_root: u64) -> Superblock {
    let mut sb = Superblock::zeroed();
    sb.inode_tree_root = 20;
    sb.snapshot_tree_root = 24;
    sb.checksum_tree_root = csum_root;
    sb.dir_tree_root = 30;
    sb.next_ino = 3;
    sb
}

/// A snapshot of the trees as they are. Changes that follow are newer.
fn snapshot(env: &mut Env, csum_root: u64, id: u64) -> Superblock {
    let mut sb = superblock(csum_root);
    let moment = SnapshotMoment {
        now: 0,
        node_stamp: env.roots.stamp,
        inode_tree_root: env.roots.effective_root(20),
        dir_tree_root: env.roots.effective_root(30),
        checksum_tree_root: csum_root,
        fresh_block: Some(400),
    };
    env.snap
        .create_snapshot(
            &env.store,
            &mut sb,
            &mut env.rc,
            &mut env.roots.barrier,
            &moment,
            id,
            0,
        )
        .ok()
        .expect("create");
    env.roots.stamp += 1;
    sb
}

fn seen_size(env: &Env, id: u64, ino: u64) -> u64 {
    env.snap.read_snapshot_inode(&env.store, id, ino).expect("snapshot holds the inode").size
}

#[test]
fn metadata_cow_freezes_inode_view() {
    let mut env = setup();
    assert!(!put_inode(&mut env, 1, 100));
    assert!(!put_inode(&mut env, 2, 200));

    let sb = snapshot(&mut env, 0, 7);
    // The one block that creation takes is the root of the pins.
    assert_eq!(sb.refcount_tree_root, 400);
    assert_eq!(env.roots.next, 500);

    assert!(put_inode(&mut env, 1, 9_999), "the frozen leaf must be path-copied");
    let seen = env.store.find_inode(&env.roots, 20, 1);
    assert_eq!(seen.expect("live").size, 9_999, "live tree must see the update");
    assert_ne!(env.roots.effective_root(20), 20);

    assert_eq!(seen_size(&env, 7, 1), 100, "snapshot inode view must be frozen");
    assert_eq!(seen_size(&env, 7, 2), 200);
}

#[test]
fn cow_copies_once_per_epoch() {
    let mut env = setup();
    put_inode(&mut env, 1, 10);
    put_inode(&mut env, 2, 20);
    snapshot(&mut env, 0, 7);
    assert!(put_inode(&mut env, 1, 11), "first write after snapshot must copy the frozen leaf");
    assert!(
        !put_inode(&mut env, 2, 22),
        "the copied leaf is private: a second write in the same epoch must not copy again"
    );
    assert_eq!(seen_size(&env, 7, 1), 10);
    assert_eq!(seen_size(&env, 7, 2), 20);
}

#[test]
fn barrier_recompute_on_delete() {
    let mut env = setup();
    put_inode(&mut env, 1, 10);
    snapshot(&mut env, 0, 1);
    assert!(put_inode(&mut env, 1, 11));
    snapshot(&mut env, 0, 2);
    let mut sb = superblock(0);
    sb.refcount_tree_root = 0;
    env.snap
        .delete_snapshot(&env.store, &mut sb, &mut env.rc, &mut env.roots.barrier, 2)
        .ok()
        .expect("delete");
    assert!(
        !put_inode(&mut env, 1, 12),
        "deleting the newest snapshot must un-freeze nodes only it could reach"
    );
    assert_eq!(
        seen_size(&env, 1, 1),
        10,
        "the OLDER snapshot's view must survive S2's deletion"
    );
}

#[test]
fn checksum_tree_frozen_by_snapshot() {
    let mut env = setup();
    let csum =
        |tag: u64| BlockChecksum { object_id: 9, logical_block: 4, physical_block: 77, generation: tag };
    env.store.put_checksum(&mut env.roots, 28, csum(0xAA));
    snapshot(&mut env, 28, 5);

    assert!(
        env.store.put_checksum(&mut env.roots, 28, csum(0xBB)),
        "the frozen csum leaf must be path-copied"
    );
    let live = env.store.csums.get(env.roots.effective_root(28)).expect("live tree");
    let live = find_csum(live, 9, 4).expect("live record");
    assert_eq!(live.generation, 0xBB, "live tree sees the new csum");

    let frozen = env
        .snap
        .read_snapshot_csum(&env.store, 5, 9, 4)
        .expect("snapshot must hold the csum entry");
    assert_eq!(frozen.generation, 0xAA, "snapshot csum view must be frozen");
}

#[test]
fn dir_tree_frozen_by_snapshot() {
    let mut env = setup();
    env.store.put_name(&mut env.roots, 30, "old.txt", 11);
    snapshot(&mut env, 0, 5);
    assert!(
        env.store.put_name(&mut env.roots, 30, "new.txt", 12),
        "the frozen dir leaf must be path-copied"
    );
    let live = env.store.dirs.get(env.roots.effective_root(30)).expect("live tree");
    assert!(live.iter().any(|n| n.name == "new.txt" && n.ino == 12), "live sees new.txt");
    assert_eq!(env.snap.read_snapshot_dir_entry(&env.store, 5, "old.txt"), Some(11));
    assert!(
        env.snap.read_snapshot_dir_entry(&env.store, 5, "new.txt").is_none(),
        "post-snapshot name must not exist in the snapshot view"
    );
    assert!(!env.store.put_name(&mut env.roots, 30, "old.txt", 13));
    assert_eq!(env.snap.read_snapshot_dir_entry(&env.store, 5, "old.txt"), Some(11));
}

#[test]
fn fast_append_respects_cow() {
    let mut env = setup();
    let rec = |lb: u64, p: u64| BlockChecksum {
        object_id: 3,
        logical_block: lb,
        physical_block: p,
        generation: 1,
    };
    for lb in 0..40 {
        assert!(!env.store.put_checksum(&mut env.roots, 28, rec(lb, 1)));
    }
    let live_root = env.roots.effective_root(28);
    snapshot(&mut env, live_root, 9);
    let mut copies = 0;
    for lb in 40..120 {
        if env.store.put_checksum(&mut env.roots, live_root, rec(lb, 2)) {
            copies += 1;
        }
    }
    assert_eq!(copies, 1);
    let live = env.store.csums.get(env.roots.effective_root(live_root)).expect("live tree");
    for lb in (0..120).step_by(7) {
        assert!(
            find_csum(live, 3, lb).is_some(),
            "live csum entry {lb} must exist after CoW appends"
        );
    }
    let pre = env.snap.read_snapshot_csum(&env.store, 9, 3, 39);
    assert!(pre.is_some(), "pre-snapshot entry must be in the frozen view");
    let post = env.snap.read_snapshot_csum(&env.store, 9, 3, 40);
    assert!(post.is_none(), "post-snapshot entry must NOT be in the frozen view");
}
