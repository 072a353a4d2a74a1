use lionfs::ondisk::serialization::{Superblock, BLOCK_SIZE, LIONFS_MAGIC};
use lionfs::ondisk::superblock::{
    is_valid_superblock_block, pick_best, seal, CANDIDATE_LOCATIONS,
};

fn make_valid_block(generation: u64) -> Vec<u8> {
    let mut sb = Superblock::zeroed();
    sb.magic = LIONFS_MAGIC;
    sb.generation = generation;
    seal(sb)
}

#[test]
fn rejects_bad_magic() {
    let buf = vec![0u8; BLOCK_SIZE]; // all zero: magic won't match
    assert!(is_valid_superblock_block(&buf).is_none());
}

#[test]
fn accepts_valid_checksum() {
    let buf = make_valid_block(5);
    let sb = is_valid_superblock_block(&buf).unwrap();
    assert_eq!(sb.generation, 5);
}

#[test]
fn rejects_tampered_block() {
    let mut buf = make_valid_block(5);
    buf[16] ^= 0xFF; // corrupt a byte inside the superblock region
    assert!(is_valid_superblock_block(&buf).is_none());
}

#[test]
fn picks_the_highest_generation_among_valid_candidates() {
    let candidates = vec![
        Some(make_valid_block(3)),
        Some(make_valid_block(7)),
        Some(make_valid_block(1)),
    ];
    let best = pick_best(&candidates).unwrap();
    assert_eq!(best.generation, 7);
}

#[test]
fn skips_unreadable_and_invalid_candidates() {
    let mut corrupted = make_valid_block(9);
    corrupted[16] ^= 0xFF;
    let candidates = vec![None, Some(corrupted), Some(make_valid_block(2))];
    let best = pick_best(&candidates).unwrap();
    assert_eq!(best.generation, 2);
}

#[test]
fn copies_stand_where_they_are_looked_for() {
    assert_eq!(CANDIDATE_LOCATIONS, [0, 8192, 16384]);
    assert_eq!(make_valid_block(1).len(), BLOCK_SIZE);
    assert!(pick_best(&[None, None, None]).is_none());
}
