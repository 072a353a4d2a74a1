use lionfs::error::ErrorKind;
use lionfs::file::area::DataArea;
use lionfs::file::runs::lay_out;
use lionfs::file::writer::{FileManager, OpenFile};
use lionfs::fs::dedupe::{DedupeTree, DeduplicationManager};
use lionfs::fs::snapshots::{SnapshotManager, SnapshotMoment, TreeStore, SNAPSHOT_FLAG_BIRTH};
use lionfs::integrity::refcount::RefCountManager;
use lionfs::ondisk::serialization::{Inode, Superblock};
use lionfs::ordmap::OrdMap;

const BLOCK_SIZE: usize = 4096;
const SPILL_ROOT: u64 = 50;

fn area(csum_on: bool) -> DataArea {
    DataArea::new(4096, 64, csum_on)
}

fn fresh_file() -> OpenFile {
    OpenFile { ino: 2, size: 0, runs: Vec::new() }
}

fn write(area: &mut DataArea, rc: &RefCountManager, file: &mut OpenFile, at: u64, data: &[u8]) {
    FileManager::write_file(area, rc, file, at, data).ok().expect("write");
}

fn copy_of(file: &OpenFile) -> OpenFile {
    OpenFile { ino: file.ino, size: file.size, runs: file.runs.clone() }
}

/// The inode of the file and the runs that it has no slot for.
fn inode_of(file: &OpenFile) -> (Inode, Vec<lionfs::ondisk::serialization::Extent>) {
    let mut inode = Inode::zeroed(file.ino);
    inode.mode = 0o100644;
    inode.size = file.size;
    let spilled = lay_out(&mut inode, &file.runs, SPILL_ROOT);
    (inode, spilled)
}

/// The trees as they are, the inode tree at 20 and the checksum tree at 22.
fn trees(area: &DataArea, file: &OpenFile) -> TreeStore {
    let (inode, spilled) = inode_of(file);
    let mut tree = OrdMap::new();
    tree.insert(file.ino, inode);
    let mut inodes = OrdMap::new();
    inodes.insert(20, tree);
    let mut csums = OrdMap::new();
    csums.insert(22, area.births.clone());
    let mut spills = OrdMap::new();
    spills.insert(SPILL_ROOT, spilled);
    TreeStore { inodes, dirs: OrdMap::new(), csums, spills }
}

/// A snapshot with this number, which the writes that follow come after.
fn snapshot(
    area: &mut DataArea,
    store: &TreeStore,
    rc: &mut RefCountManager,
    id: u64,
) -> (SnapshotManager, Superblock) {
    let csum_root = if area.checked { 22 } else { 0 };
    let mut sb = Superblock::zeroed();
    sb.inode_tree_root = 20;
    sb.checksum_tree_root = csum_root;
    sb.snapshot_tree_root = 24;
    sb.refcount_tree_root = 26;
    sb.next_ino = 3;
    let mut snap = SnapshotManager::new(24);
    let moment = SnapshotMoment {
        now: 0,
        node_stamp: area.stamp,
        inode_tree_root: 20,
        dir_tree_root: 0,
        checksum_tree_root: csum_root,
        fresh_block: Some(300),
    };
    snap.create_snapshot(store, &mut sb, rc, &mut area.barrier, &moment, id, 0).ok().expect("create");
    area.stamp += 1;
    (snap, sb)
}

fn all(bytes: &[u8], b: u8) -> bool {
    bytes.len() == BLOCK_SIZE && bytes.iter().all(|&x| x == b)
}

#[test]
fn snapshot_write_isolation() {
    let mut area = area(true);
    let mut rc = RefCountManager::new(26);
    let mut file = fresh_file();
    write(&mut area, &rc, &mut file, 0, &vec![b'A'; BLOCK_SIZE]);
    let pinned_phys = file.runs[0].physical_start;

    let store = trees(&area, &file);
    let (snap, sb) = snapshot(&mut area, &store, &mut rc, 1);
    assert!(!rc.is_pinned(pinned_phys), "birth-mode snapshots pin nothing -- creation is O(1)");
    let rec = area.find_birth(2, 0).expect("write must record a csum birth entry");
    assert!(
        rec.generation <= sb.last_snapshot_generation,
        "the pre-snapshot write's birth must be at-or-below the barrier"
    );

    let mut live = copy_of(&file);
    write(&mut area, &rc, &mut live, 0, &vec![b'B'; BLOCK_SIZE]);
    let live_phys = live.runs[0].physical_start;
    assert_ne!(live_phys, pinned_phys, "live write must redirect (CoW), not overwrite");
    assert!(all(&area.read_block(pinned_phys), b'A'), "pinned block must retain snapshot content");
    assert!(all(&area.read_block(live_phys), b'B'), "live block holds the new content");

    let snap_inode = snap.read_snapshot_inode(&store, 1, 2).expect("snapshot must hold the inode");
    assert_eq!(snap_inode.extents[0].physical_start, pinned_phys);
    assert_eq!(snap_inode.size, BLOCK_SIZE as u64);
    assert_eq!(live.runs[0].physical_start, live_phys);
}

#[test]
fn cow_redirect_splits_extents_not_neighbors() {
    let mut area = area(true);
    let mut rc = RefCountManager::new(26);
    let mut file = fresh_file();
    write(&mut area, &rc, &mut file, 0, &vec![b'C'; 4 * BLOCK_SIZE]);
    assert_eq!(inode_of(&file).0.extent_count, 1, "sequential write must produce one run");
    let run_ps = file.runs[0].physical_start;

    rc.pin_range(run_ps, 4);

    let mut live = copy_of(&file);
    write(&mut area, &rc, &mut live, 2 * BLOCK_SIZE as u64, &vec![b'D'; BLOCK_SIZE]);

    let p2_new = FileManager::resolve_physical_block(&live, 2).expect("mapped");
    assert_ne!(p2_new, run_ps + 2, "block 2 must be redirected");
    assert_eq!(
        FileManager::resolve_physical_block(&live, 0),
        Some(run_ps),
        "neighbor keeps its mapping"
    );
    assert_eq!(
        FileManager::resolve_physical_block(&live, 3),
        Some(run_ps + 3),
        "neighbor keeps its mapping"
    );
    assert!(all(&area.read_block(p2_new), b'D'));
    assert!(all(&area.read_block(run_ps + 2), b'C'));
}

#[test]
fn unpinned_writes_stay_in_place() {
    let mut area = area(true);
    let rc = RefCountManager::new(26);
    let mut file = fresh_file();
    write(&mut area, &rc, &mut file, 0, &vec![b'X'; BLOCK_SIZE]);
    let phys = file.runs[0].physical_start;
    write(&mut area, &rc, &mut file, 0, &vec![b'Y'; BLOCK_SIZE]);
    assert_eq!(file.runs[0].physical_start, phys);
    assert!(all(&area.read_block(phys), b'Y'));
}

#[test]
fn snapshot_creation_is_o1_in_data_blocks() {
    let mut area = area(true);
    let mut rc = RefCountManager::new(26);
    let mut file = fresh_file();
    for logical in (0..400u64).step_by(2) {
        write(&mut area, &rc, &mut file, logical * BLOCK_SIZE as u64, &vec![b'x'; BLOCK_SIZE]);
    }
    let (inode, spilled) = inode_of(&file);
    assert_eq!(inode.extent_count, 7, "inline slots fill; the rest spill");
    assert_ne!(
        inode.spill_extent_root, 0,
        "the 193 further extents must be in the spill tree (200 runs total to protect)"
    );
    assert_eq!(spilled.len(), 193);

    let store = trees(&area, &file);
    let before = area.used_blocks();
    let (snap, sb) = snapshot(&mut area, &store, &mut rc, 1);
    let burned = area.used_blocks() - before;
    assert!(
        burned <= 1,
        "O(1) create: at most the registry insert (0 or 1 allocations, never N); got {burned}"
    );
    assert_eq!(sb.refcount_tree_root, 26);
    assert!(file.runs.iter().all(|e| !rc.is_pinned(e.physical_start)));
    assert_ne!(sb.snapshot_tree_root, 0);

    let snap_inode = snap.read_snapshot_inode(&store, 1, 2).expect("snapshot holds the inode");
    assert_eq!(snap_inode.extent_count, 7);
    assert_eq!(snap_inode.spill_extent_root, inode.spill_extent_root);
    assert_eq!(snap_inode.size, 399 * BLOCK_SIZE as u64);
}

#[test]
fn redirect_for_pre_snapshot_writes_inplace_for_post() {
    let mut area = area(true);
    let mut rc = RefCountManager::new(26);
    let mut file = fresh_file();
    write(&mut area, &rc, &mut file, 0, &vec![b'A'; 2 * BLOCK_SIZE]);
    let old_phys = file.runs[0].physical_start;

    let store = trees(&area, &file);
    let (snap, _) = snapshot(&mut area, &store, &mut rc, 1);
    let after_snapshot = area.used_blocks();

    let mut live = copy_of(&file);
    write(&mut area, &rc, &mut live, 0, &vec![b'B'; BLOCK_SIZE]);
    let new_phys = live.runs[0].physical_start;
    assert_ne!(new_phys, old_phys, "pre-snapshot overwrite must redirect");
    let after_overwrite = area.used_blocks();
    let redirect_cost = after_overwrite - after_snapshot;
    assert!(
        (1..=3).contains(&redirect_cost),
        "redirect burns 1 data block + frozen-tree path-copies (got {redirect_cost})"
    );
    let snap_inode = snap.read_snapshot_inode(&store, 1, 2).expect("inode");
    let old_phys_snap =
        snap_inode.extents.iter().find(|e| e.length > 0).expect("extent").physical_start;
    assert_eq!(old_phys_snap, old_phys);
    assert!(all(&area.read_block(old_phys_snap), b'A'));

    write(&mut area, &rc, &mut live, 2 * BLOCK_SIZE as u64, &vec![b'C'; BLOCK_SIZE]);
    let after_append = area.used_blocks();
    assert_eq!(
        after_append - after_overwrite,
        1,
        "post-snapshot append is in-place (no CoW copy, no path copies)"
    );
    // A second overwrite of the redirected block stays where it is.
    write(&mut area, &rc, &mut live, 0, &vec![b'E'; BLOCK_SIZE]);
    assert_eq!(live.runs[0].physical_start, new_phys);
    assert_eq!(area.used_blocks(), after_append);
}

#[test]
fn truncate_retains_under_snapshot_delete_reclaims() {
    let mut area = area(true);
    let mut rc = RefCountManager::new(26);
    let mut file = fresh_file();
    write(&mut area, &rc, &mut file, 0, &vec![b'D'; 4 * BLOCK_SIZE]);

    let mut store = trees(&area, &file);
    let (mut snap, mut sb) = snapshot(&mut area, &store, &mut rc, 1);
    let with_snapshot = area.used_blocks();

    let mut live = copy_of(&file);
    FileManager::truncate_file(&mut area, &rc, &mut live, 0).ok().expect("truncate");
    assert_eq!(
        area.used_blocks(),
        with_snapshot,
        "blocks born <= barrier are retained on truncate"
    );
    assert_eq!(live.size, 0);
    assert_eq!(inode_of(&live).0.extent_count, 0);

    let snap_inode = snap.read_snapshot_inode(&store, 1, 2).expect("inode");
    let e = *snap_inode.extents.iter().find(|e| e.length > 0).expect("extent");
    assert!(
        all(&area.read_block(e.physical_start), b'D'),
        "frozen view reads pre-truncate data"
    );

    // The live trees moved on: the inode tree to 21, the checksum tree to 23.
    let mut tree = OrdMap::new();
    tree.insert(2, inode_of(&live).0);
    store.inodes.insert(21, tree);
    store.csums.insert(23, area.births.clone());
    sb.inode_tree_root = 21;
    sb.checksum_tree_root = 23;
    let freed = snap
        .delete_snapshot(&store, &mut sb, &mut rc, &mut area.barrier, 1)
        .ok()
        .expect("delete");
    for b in freed {
        area.release(b);
    }
    let after_delete = area.used_blocks();
    assert!(
        after_delete <= with_snapshot - 3,
        "deleting the last snapshot reclaims the retained data blocks (used {with_snapshot} -> {after_delete})"
    );
}

#[test]
fn pin_mode_fallback_when_csums_off() {
    let mut area = area(false);
    let mut rc = RefCountManager::new(26);
    let mut file = fresh_file();
    write(&mut area, &rc, &mut file, 0, &vec![b'A'; BLOCK_SIZE]);
    let pinned_phys = file.runs[0].physical_start;

    let store = trees(&area, &file);
    let (mut snap, mut sb) = snapshot(&mut area, &store, &mut rc, 1);
    assert!(rc.is_pinned(pinned_phys), "pin-mode create pins the data");
    let rec = snap.get_snapshot(1).expect("record");
    assert_eq!(rec.flags & SNAPSHOT_FLAG_BIRTH, 0, "no birth flag in pin mode");

    let mut live = copy_of(&file);
    write(&mut area, &rc, &mut live, 0, &vec![b'B'; BLOCK_SIZE]);
    assert_ne!(live.runs[0].physical_start, pinned_phys, "pin-mode overwrite redirects");
    assert!(all(&area.read_block(pinned_phys), b'A'));

    snap.delete_snapshot(&store, &mut sb, &mut rc, &mut area.barrier, 1).ok().expect("delete");
    assert!(!rc.is_pinned(pinned_phys), "delete unpins");
}

#[test]
fn dedup_shares_identical_blocks() {
    let mut area = area(true);
    let mut rc = RefCountManager::new(26);
    let mut index = DedupeTree::new(28);
    let mut a = fresh_file();
    let s_block = vec![b'S'; BLOCK_SIZE];
    FileManager::write_deduped_block(&mut area, &mut rc, &mut index, &mut a, 0, &s_block)
        .ok()
        .expect("write");
    let phys_a = a.runs[0].physical_start;
    let used = area.used_blocks();

    let mut b_file = fresh_file();
    b_file.ino = 3;
    FileManager::write_deduped_block(&mut area, &mut rc, &mut index, &mut b_file, 0, &s_block)
        .ok()
        .expect("write");
    let phys_b = b_file.runs[0].physical_start;
    assert_eq!(phys_a, phys_b, "identical content must share the physical block");
    assert_eq!(area.used_blocks(), used);
    assert!(all(&area.read_block(phys_b), b'S'));

    let new_content = vec![b'T'; BLOCK_SIZE];
    FileManager::write_deduped_block(&mut area, &mut rc, &mut index, &mut a, 0, &new_content)
        .ok()
        .expect("write");
    assert_ne!(
        a.runs[0].physical_start, phys_a,
        "overwrite of a dedup-shared block must CoW"
    );
    assert!(all(&area.read_block(phys_b), b'S'));
}

#[test]
fn dedup_stale_entry_degrades_to_new_write() {
    let mut area = area(true);
    let mut rc = RefCountManager::new(26);
    let mut index = DedupeTree::new(28);
    let mut a = fresh_file();
    let u_block = vec![b'U'; BLOCK_SIZE];
    FileManager::write_deduped_block(&mut area, &mut rc, &mut index, &mut a, 0, &u_block)
        .ok()
        .expect("write");
    let phys_u = a.runs[0].physical_start;

    let hash = DeduplicationManager::hash_block(&u_block);
    assert_eq!(index.lookup(&hash), Some(phys_u));
    index.insert_new(hash, 60);
    assert_eq!(index.lookup(&hash), Some(60));

    let mut c = fresh_file();
    c.ino = 3;
    FileManager::write_deduped_block(&mut area, &mut rc, &mut index, &mut c, 0, &u_block)
        .ok()
        .expect("write");
    let phys_c = c.runs[0].physical_start;
    assert_ne!(phys_c, 60, "stale entry must not be trusted");
    assert_ne!(phys_c, phys_u, "verify failed -> fresh allocation, not the old share");
    assert!(all(&area.read_block(phys_c), b'U'));
}

#[test]
fn one_file_shares_with_itself() {
    let mut area = DataArea::new(66, 64, false);
    let mut rc = RefCountManager::new(26);
    let mut index = DedupeTree::new(28);
    let mut f = fresh_file();
    let block = vec![b'V'; BLOCK_SIZE];
    for l in 0..3 {
        FileManager::write_hashed_block(&mut area, &mut rc, &mut index, &mut f, l, &block, [7; 32])
            .ok()
            .expect("write");
    }
    assert_eq!((f.size, area.used_blocks()), (3 * BLOCK_SIZE as u64, 65));
    write(&mut area, &rc, &mut f, 4096, b"other");
    assert_eq!(FileManager::read_file(&area, &f, 4094, 8), b"VVotherV".to_vec());
    assert_eq!(FileManager::read_file(&area, &f, 8192, 2), b"VV".to_vec());
    let full = FileManager::write_hashed_block(
        &mut area,
        &mut rc,
        &mut index,
        &mut f,
        3,
        &vec![b'W'; BLOCK_SIZE],
        [7; 32],
    );
    assert_eq!(full.err().map(|e| e.kind), Some(ErrorKind::StorageFull));
    assert_eq!(f.size, 3 * BLOCK_SIZE as u64);
}

#[test]
fn what_is_written_is_read_back() {
    let mut area = area(true);
    let rc = RefCountManager::new(26);
    let mut file = fresh_file();
    let data: Vec<u8> = (0..10_000u32).map(|i| (i % 251) as u8).collect();
    write(&mut area, &rc, &mut file, 5_000, &data);
    assert_eq!(file.size, 15_000);
    assert_eq!(FileManager::read_file(&area, &file, 5_000, 20_000), data);
    assert_eq!(FileManager::read_file(&area, &file, 4_998, 4), vec![0, 0, 0, 1]);
    assert_eq!(FileManager::read_file(&area, &file, 15_000, 4), Vec::<u8>::new());
    // Bytes 0 to 4095 were never written, and have no block.
    assert_eq!(FileManager::resolve_physical_block(&file, 0), None);
    write(&mut area, &rc, &mut file, 6_000, b"over");
    assert_eq!(FileManager::read_file(&area, &file, 5_999, 6), [
        &data[999..1_000],
        b"over",
        &data[1_004..1_005],
    ]
    .concat());
    write(&mut area, &rc, &mut file, 90_000, b"");
    assert_eq!(file.size, 15_000);
}

#[test]
fn truncated_bytes_do_not_come_back() {
    let mut area = area(true);
    let rc = RefCountManager::new(26);
    let mut file = fresh_file();
    write(&mut area, &rc, &mut file, 0, &vec![b'Z'; 3 * BLOCK_SIZE]);
    assert_eq!(area.used_blocks(), 67);
    FileManager::truncate_file(&mut area, &rc, &mut file, 5_000).ok().expect("shrink");
    assert_eq!((file.size, area.used_blocks()), (5_000, 66));
    assert!(area.find_birth(2, 1).is_some());
    assert!(area.find_birth(2, 2).is_none());
    FileManager::truncate_file(&mut area, &rc, &mut file, 12_000).ok().expect("grow");
    assert_eq!(FileManager::read_file(&area, &file, 4_999, 3), vec![b'Z', 0, 0]);
    assert!(FileManager::read_file(&area, &file, 5_000, 7_000).iter().all(|&b| b == 0));
}

#[test]
fn truncation_inside_a_frozen_block_leaves_it() {
    let mut area = area(false);
    let mut rc = RefCountManager::new(26);
    let mut file = fresh_file();
    write(&mut area, &rc, &mut file, 0, &vec![b'Q'; BLOCK_SIZE]);
    let phys = file.runs[0].physical_start;
    rc.pin_range(phys, 1);
    FileManager::truncate_file(&mut area, &rc, &mut file, 10).ok().expect("shrink");
    assert_ne!(file.runs[0].physical_start, phys);
    assert!(all(&area.read_block(phys), b'Q'));
    assert_eq!(FileManager::read_file(&area, &file, 0, 100), vec![b'Q'; 10]);
}

#[test]
fn write_without_room_changes_nothing() {
    let mut area = DataArea::new(66, 64, false);
    let rc = RefCountManager::new(26);
    let mut file = fresh_file();
    let full = FileManager::write_file(&mut area, &rc, &mut file, 0, &vec![1; 3 * BLOCK_SIZE]);
    assert_eq!(full.err().map(|e| e.kind), Some(ErrorKind::StorageFull));
    assert_eq!((file.size, file.runs.len(), area.used_blocks()), (0, 0, 64));
    write(&mut area, &rc, &mut file, 0, &vec![1; 2 * BLOCK_SIZE]);
    assert_eq!(area.used_blocks(), 66);
    let mut pinned = RefCountManager::new(26);
    pinned.pin_range(64, 1);
    let stuck = FileManager::truncate_file(&mut area, &pinned, &mut file, 10);
    assert_eq!(stuck.err().map(|e| e.kind), Some(ErrorKind::StorageFull));
    assert_eq!(file.size, 2 * BLOCK_SIZE as u64);
}
