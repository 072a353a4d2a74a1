use lionfs::common::version::CURRENT_VERSION;
use lionfs::ondisk::block_group;
use lionfs::ondisk::extent::{physical_ranges_overlap, validate};
use lionfs::ondisk::object_header::{ObjectHeader, ObjectKind};
use lionfs::ondisk::serialization::{
    BlockGroupDescriptor, Extent, Inode, Superblock, BLOCK_SIZE, LIONFS_MAGIC,
};
use lionfs::ondisk::validation::{validate_block_group, validate_inode, validate_superblock};

fn test_bg(free_blocks: u32, free_inodes: u32, bitmap: u64) -> BlockGroupDescriptor {
    BlockGroupDescriptor {
        bg_block_bitmap: bitmap,
        bg_inode_bitmap: bitmap,
        bg_inode_table: 10,
        bg_free_blocks_count: free_blocks,
        bg_free_inodes_count: free_inodes,
        bg_used_dirs_count: 0,
        bg_padding: 0,
        bg_reserved: [0; 32],
    }
}

#[test]
fn valid_descriptor_has_no_issues() {
    let bg = test_bg(100, 50, 5);
    assert!(block_group::validate(&bg, 1000, 200).is_empty());
}

#[test]
fn flags_impossible_free_block_count() {
    let bg = test_bg(2000, 50, 5);
    let issues = block_group::validate(&bg, 1000, 200);
    assert_eq!(issues.len(), 1);
    assert!(issues[0].contains("bg_free_blocks_count"));
}

#[test]
fn flags_unset_bitmap_pointer() {
    let bg = test_bg(100, 50, 0);
    let issues = block_group::validate(&bg, 1000, 200);
    assert!(issues.iter().any(|i| i.contains("bg_block_bitmap")));
}

fn ext(physical_start: u64, length: u64) -> Extent {
    Extent {
        logical_start: 0,
        physical_start,
        length,
    }
}

#[test]
fn valid_extent_passes() {
    assert!(validate(&ext(100, 10), 1000).is_ok());
}

#[test]
fn zero_length_is_rejected() {
    assert!(validate(&ext(100, 0), 1000).is_err());
}

#[test]
fn pointing_at_block_zero_is_rejected() {
    assert!(validate(&ext(0, 10), 1000).is_err());
}

#[test]
fn out_of_range_extent_is_rejected() {
    assert!(validate(&ext(995, 10), 1000).is_err());
}

#[test]
fn overlap_detection() {
    assert!(physical_ranges_overlap(&ext(100, 10), &ext(105, 10)));
    assert!(!physical_ranges_overlap(&ext(100, 10), &ext(110, 10)));
}

#[test]
fn header_verifies_its_own_payload() {
    let payload = b"some extended attribute value";
    let header = ObjectHeader::new(ObjectKind::ExtendedAttribute, payload);
    assert!(header.verify(payload));
}

#[test]
fn header_rejects_a_different_payload() {
    let header = ObjectHeader::new(ObjectKind::ExtendedAttribute, b"original");
    assert!(!header.verify(b"tampered!"));
}

#[test]
fn header_rejects_wrong_length_payload() {
    let header = ObjectHeader::new(ObjectKind::ExtendedAttribute, b"12345");
    assert!(!header.verify(b"1234"));
}


#[test]
fn rejects_wrong_magic() {
    let sb = Superblock::zeroed();
    let report = validate_superblock(&sb);
    assert!(!report.is_clean());
    assert!(report.errors.iter().any(|e| e.contains("magic")));
}

#[test]
fn accepts_a_well_formed_superblock() {
    let mut sb = Superblock::zeroed();
    sb.magic = LIONFS_MAGIC;
    sb.block_size = BLOCK_SIZE as u32;
    sb.total_blocks = 1000;
    sb.free_blocks = 500;
    sb.version = CURRENT_VERSION;
    sb.root_inode = 1;
    let report = validate_superblock(&sb);
    assert!(report.is_clean(), "unexpected errors: {:?}", report.errors);
}

#[test]
fn faults_are_told_in_words() {
    let mut sb = Superblock::zeroed();
    sb.magic = LIONFS_MAGIC;
    sb.block_size = 512;
    sb.total_blocks = 5;
    sb.free_blocks = 9;
    sb.version = CURRENT_VERSION + 1;
    let report = validate_superblock(&sb);
    assert_eq!(
        report.errors,
        vec![
            "free_blocks (9) exceeds total_blocks (5)".to_string(),
            "block_size (512) does not match this build's BLOCK_SIZE (4096)".to_string(),
            "on-disk version 3 is newer than this build understands".to_string(),
        ]
    );
    assert_eq!(report.warnings, vec!["root_inode is 0".to_string()]);
    assert!(validate_block_group(&test_bg(100, 50, 5), 1000, 200).is_clean());
    assert!(!validate_block_group(&test_bg(100, 500, 5), 1000, 200).is_clean());
}

#[test]
fn only_the_extents_in_use_count() {
    let mut inode = Inode::zeroed(4);
    inode.extent_count = 2;
    inode.extents[0] = ext(100, 10);
    inode.extents[1] = ext(995, 10);
    assert_eq!(validate_inode(&inode, 1000).errors.len(), 1);
    inode.extent_count = 1;
    assert!(validate_inode(&inode, 1000).is_clean());
}
