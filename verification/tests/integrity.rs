use lionfs::error::ErrorKind;
use lionfs::integrity::algorithms::{
    calculate_checksum, checksums_agree, verify_checksum, ChecksumAlgorithm,
};
use lionfs::integrity::bad_blocks::BadBlockManager;
use lionfs::integrity::refcount::RefCountManager;

#[test]
fn blake3_roundtrip_verifies() {
    let data = b"a block of data that will be checksummed";
    let csum = calculate_checksum(ChecksumAlgorithm::Blake3, data);
    assert!(verify_checksum(ChecksumAlgorithm::Blake3, data, &csum));
}

#[test]
fn blake3_detects_corruption() {
    let data = b"a block of data that will be checksummed";
    let csum = calculate_checksum(ChecksumAlgorithm::Blake3, data);
    let corrupted = b"a block of data that WAS checksummed!!!!";
    assert!(!verify_checksum(ChecksumAlgorithm::Blake3, corrupted, &csum));
}

#[test]
fn from_u8_round_trips_all_known_ids() {
    assert_eq!(ChecksumAlgorithm::from_u8(1), ChecksumAlgorithm::Crc32c);
    assert_eq!(ChecksumAlgorithm::from_u8(2), ChecksumAlgorithm::XxHash64);
    assert_eq!(ChecksumAlgorithm::from_u8(3), ChecksumAlgorithm::Sha256);
    assert_eq!(ChecksumAlgorithm::from_u8(4), ChecksumAlgorithm::Blake3);
    assert_eq!(ChecksumAlgorithm::from_u8(200), ChecksumAlgorithm::Off);
}

#[test]
fn checksums_are_those_of_the_algorithms() {
    let data = b"123456789";
    let crc = calculate_checksum(ChecksumAlgorithm::Crc32c, data);
    assert_eq!(&crc[..4], &0xCBF4_3926u32.to_le_bytes());
    assert!(crc[4..].iter().all(|&b| b == 0));
    let xx = calculate_checksum(ChecksumAlgorithm::XxHash64, b"");
    assert_eq!(&xx[..8], &0xEF46_DB37_51D8_E999u64.to_le_bytes());
    let sha = calculate_checksum(ChecksumAlgorithm::Sha256, b"");
    assert_eq!(&sha[..4], &[0xe3, 0xb0, 0xc4, 0x42]);
    let b3 = calculate_checksum(ChecksumAlgorithm::Blake3, b"");
    assert_eq!(&b3[..4], &[0xaf, 0x13, 0x49, 0xb9]);
    assert_eq!(calculate_checksum(ChecksumAlgorithm::Off, data), [0u8; 32]);
}

#[test]
fn only_the_bytes_of_the_algorithm_count() {
    let a = [7u8; 32];
    let mut b = a;
    b[4] = 8;
    assert!(checksums_agree(ChecksumAlgorithm::Crc32c, &a, &b));
    assert!(!checksums_agree(ChecksumAlgorithm::XxHash64, &a, &b));
    b[0] = 8;
    assert!(!checksums_agree(ChecksumAlgorithm::Crc32c, &a, &b));
    assert!(checksums_agree(ChecksumAlgorithm::Off, &a, &b));
}

#[test]
fn pin_and_query_round_trip() {
    let mut rc = RefCountManager::new(100);
    rc.init_empty(100);
    rc.pin_range(100, 10);
    assert!(rc.is_pinned(100));
    assert!(rc.is_pinned(109));
    assert!(!rc.is_pinned(99));
    assert!(!rc.is_pinned(110));
    assert_eq!(rc.coverage_at(105), 1);
}

#[test]
fn double_pin_counts_two_and_single_unpin_leaves_one() {
    let mut rc = RefCountManager::new(100);
    rc.init_empty(100);
    rc.pin_range(50, 5);
    rc.pin_range(50, 5);
    assert_eq!(rc.coverage_at(52), 2);
    rc.unpin_range(50, 5).unwrap();
    assert_eq!(rc.coverage_at(52), 1);
    rc.unpin_range(50, 5).unwrap();
    assert_eq!(rc.coverage_at(52), 0);
    assert_eq!(rc.iter_coverage().len(), 0);
}

#[test]
fn overlapping_pin_splits_runs_correctly() {
    let mut rc = RefCountManager::new(100);
    rc.init_empty(100);
    rc.pin_range(100, 10);
    rc.pin_range(105, 10);
    assert_eq!(rc.coverage_at(104), 1);
    assert_eq!(rc.coverage_at(105), 2);
    assert_eq!(rc.coverage_at(109), 2);
    assert_eq!(rc.coverage_at(110), 1);
    assert_eq!(rc.coverage_at(114), 1);
    assert_eq!(rc.coverage_at(115), 0);
    let runs = rc.iter_coverage();
    assert_eq!(runs.len(), 3, "expected exactly 3 disjoint runs");
}

#[test]
fn unbalanced_unpin_is_an_error() {
    let mut rc = RefCountManager::new(100);
    rc.init_empty(100);
    assert!(rc.unpin_range(10, 5).is_err());
    rc.pin_range(10, 5);
    let err = rc.unpin_range(8, 10).unwrap_err();
    assert_eq!(err.kind, ErrorKind::InvalidData);
    assert_eq!(rc.coverage_at(12), 1);
}

#[test]
fn range_fills_gaps_with_count_one_runs() {
    let mut rc = RefCountManager::new(100);
    rc.init_empty(100);
    rc.pin_range(500, 7);
    assert!(rc.is_range_pinned(500, 7));
    assert!(!rc.is_range_pinned(500, 8));
    assert!(!rc.is_range_pinned(499, 8));
}

#[test]
fn bad_blocks_are_reported_and_cleared() {
    let mut m = BadBlockManager::new(9);
    m.init_empty(9);
    assert_eq!(m.count(), 0);
    let clean = m.get_health_report();
    m.mark_bad_block_at(77, 5, 1234);
    m.mark_bad_block_at(12, 6, 1235);
    assert_eq!(m.count(), 2);
    let listed = m.list();
    assert_eq!(listed[0].0.physical_block, 12);
    assert_eq!(listed[1].0.physical_block, 77);
    let report = m.get_health_report();
    assert_ne!(report, clean);
    assert!(report.contains("77"));
    assert!(m.clear_bad_block(77));
    assert!(!m.clear_bad_block(77));
    assert_eq!(m.count(), 1);
    m.clear_bad_block(12);
    assert_eq!(m.get_health_report(), clean);
}

#[test]
fn marking_takes_the_time_from_the_clock() {
    let mut m = BadBlockManager::new(9);
    m.mark_bad_block(3, 4);
    assert_eq!(m.count(), 1);
    assert!(m.list()[0].1.timestamp > 1_600_000_000);
    assert!(m.list()[0].1.padding.iter().all(|&b| b == 0));
}
