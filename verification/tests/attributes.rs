use lionfs::fs::metadata::{apply_attr_changes, AttrChanges, TimeOrNow};
use lionfs::fs::stat::{compute_stats, MAX_NAME_LEN};
use lionfs::inode::permissions::{
    can_execute, can_read, can_write, check_access, F_OK, R_OK, W_OK, X_OK,
};
use lionfs::inode::timestamps::{
    now_secs, resolve_time_or_now, secs_to_system_time,
    system_time_to_secs, Timestamps,
};
use lionfs::ondisk::serialization::{Inode, Superblock, BLOCK_SIZE};
use lionfs::posix::{S_IFMT, S_IFREG};

fn test_inode(mode: u32, uid: u32, gid: u32) -> Inode {
    let mut inode = Inode::zeroed(2);
    inode.mode = mode;
    inode.uid = uid;
    inode.gid = gid;
    inode.links_count = 1;
    inode
}

fn test_file() -> Inode {
    test_inode(S_IFREG | 0o644, 1000, 1000)
}

#[test]
fn chmod_preserves_file_type_bits() {
    let mut inode = test_file();
    apply_attr_changes(&mut inode, AttrChanges { mode: Some(0o600), ..Default::default() }, 100);
    assert_eq!(inode.mode & S_IFMT, S_IFREG);
    assert_eq!(inode.mode & 0o7777, 0o600);
}

#[test]
fn unset_fields_are_left_alone() {
    let mut inode = test_file();
    inode.uid = 42;
    apply_attr_changes(&mut inode, AttrChanges { gid: Some(7), ..Default::default() }, 100);
    assert_eq!(inode.uid, 42); // untouched
    assert_eq!(inode.gid, 7);
}

#[test]
fn any_change_bumps_ctime() {
    let mut inode = test_file();
    apply_attr_changes(&mut inode, AttrChanges { uid: Some(5), ..Default::default() }, 999);
    assert_eq!(inode.ctime, 999);
}

#[test]
fn times_are_set_as_asked() {
    let mut inode = test_file();
    let changes = AttrChanges {
        atime: Some(TimeOrNow::At(11)),
        mtime: Some(TimeOrNow::Now),
        ..Default::default()
    };
    apply_attr_changes(&mut inode, changes, 77);
    assert_eq!(inode.atime, 11);
    assert_eq!(inode.mtime, 77);
}

fn test_superblock(total: u64, free: u64) -> Superblock {
    let mut sb = Superblock::zeroed();
    sb.total_blocks = total;
    sb.free_blocks = free;
    sb.inode_count = 10;
    sb
}

#[test]
fn computes_basic_fields_from_superblock() {
    let sb = test_superblock(1000, 400);
    let stats = compute_stats(&sb);
    assert_eq!(stats.total_blocks, 1000);
    assert_eq!(stats.free_blocks, 400);
    assert_eq!(stats.block_size, BLOCK_SIZE as u32);
}

#[test]
fn inodes_are_estimated_from_free_blocks() {
    let stats = compute_stats(&test_superblock(1000, 400));
    assert_eq!(stats.total_inodes, 10);
    assert_eq!(stats.free_inodes_estimate, 400);
    assert_eq!(stats.max_name_len, MAX_NAME_LEN);
    assert_eq!(MAX_NAME_LEN, 255);
}

#[test]
fn owner_gets_owner_bits() {
    let inode = test_inode(0o640, 1000, 1000); // rw-r-----
    assert!(can_read(&inode, 1000, 1000));
    assert!(can_write(&inode, 1000, 1000));
    assert!(!can_execute(&inode, 1000, 1000));
}

#[test]
fn group_member_gets_group_bits_not_owner_bits() {
    let inode = test_inode(0o640, 1000, 1000); // owner rw-, group r--
    assert!(can_read(&inode, 2000, 1000));
    assert!(!can_write(&inode, 2000, 1000));
}

#[test]
fn other_gets_other_bits() {
    let inode = test_inode(0o644, 1000, 1000); // other r--
    assert!(can_read(&inode, 3000, 3000));
    assert!(!can_write(&inode, 3000, 3000));
}

#[test]
fn root_always_passes() {
    let inode = test_inode(0o000, 1000, 1000); // no permissions for anyone
    assert!(check_access(&inode, 0, 0, R_OK | W_OK | X_OK));
}

#[test]
fn f_ok_only_checks_existence() {
    let inode = test_inode(0o000, 1000, 1000);
    assert!(check_access(&inode, 3000, 3000, F_OK));
}

#[test]
fn combined_mask_requires_all_bits() {
    let inode = test_inode(0o644, 1000, 1000); // owner rw-
    assert!(check_access(&inode, 1000, 1000, R_OK));
    assert!(!check_access(&inode, 1000, 1000, R_OK | X_OK));
}

#[test]
fn round_trips_through_system_time() {
    let secs = 1_700_000_000i64;
    let st = secs_to_system_time(secs).unwrap();
    assert_eq!(system_time_to_secs(st), secs);
}

#[test]
fn times_before_the_epoch_count_as_the_epoch() {
    assert_eq!(system_time_to_secs(secs_to_system_time(-5).unwrap()), 0);
    assert_eq!(system_time_to_secs(secs_to_system_time(0).unwrap()), 0);
    assert_eq!(system_time_to_secs(secs_to_system_time(1).unwrap()), 1);
}

#[test]
fn every_number_of_seconds_is_tried() {
    let at = |secs| secs_to_system_time(secs).map(system_time_to_secs);
    assert_eq!(at(1_700_000_000), Some(1_700_000_000));
    assert_eq!(at(-1), Some(0));
    assert!(matches!(at(i64::MAX), None | Some(i64::MAX)));
    assert!(matches!(at(i64::MIN), None | Some(0)));
    assert!(now_secs() > 1_600_000_000);
}

#[test]
fn resolve_now_uses_provided_now() {
    assert_eq!(resolve_time_or_now(TimeOrNow::Now, 12345), 12345);
}

#[test]
fn resolve_specific_time_ignores_now() {
    assert_eq!(resolve_time_or_now(TimeOrNow::At(500), 12345), 500);
}

#[test]
fn touched_metadata_only_bumps_ctime() {
    let ts = Timestamps { atime: 1, mtime: 2, ctime: 3 };
    let touched = ts.touched_metadata();
    assert_eq!(touched.atime, 1);
    assert_eq!(touched.mtime, 2);
    assert!(touched.ctime >= 3);
}

#[test]
fn touched_metadata_reads_the_clock() {
    let before = now_secs();
    let touched = Timestamps { atime: 1, mtime: 2, ctime: 3 }.touched_metadata();
    assert!(before <= touched.ctime && touched.ctime <= now_secs());
    assert_eq!(touched, Timestamps { atime: 1, mtime: 2, ctime: touched.ctime });
}

#[test]
fn new_timestamps_agree() {
    let ts = Timestamps::at(9);
    assert_eq!((ts.atime, ts.mtime, ts.ctime), (9, 9, 9));
    let now = Timestamps::now();
    assert!(now.ctime > 1_600_000_000);
    assert_eq!(now.atime, now.ctime);
}
