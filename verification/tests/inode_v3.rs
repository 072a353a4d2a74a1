use lionfs::ondisk::inode_v3::{
    Ino128, InodeV3, TailPacker, INODE_V3_CORE_SIZE, INODE_V3_MAX_INLINE, LEAF_FLUSH_THRESHOLD,
};

fn inline_file(ino: Ino128, payload: &[u8]) -> InodeV3 {
    let mut f = InodeV3::new_file(ino, 0o644, 1000, 1000);
    assert!(f.try_store_inline(payload));
    f
}

#[test]
fn small_file_stores_inline() {
    let f = inline_file(7, b"hello inline world");
    assert!(f.is_inline());
    assert_eq!(f.inline_payload, b"hello inline world");
    assert_eq!(f.size, 18);
    // Zero data blocks: the whole file is metadata.
    assert_eq!(f.extent_root, 0);
}

#[test]
fn exactly_4032_bytes_fits_inline() {
    let payload = vec![0x5Au8; INODE_V3_MAX_INLINE];
    let f = inline_file(8, &payload);
    assert!(f.is_inline());
}

#[test]
fn over_inline_threshold_refused() {
    let mut f = InodeV3::new_file(9, 0o644, 0, 0);
    let payload = vec![0u8; INODE_V3_MAX_INLINE + 1];
    assert!(!f.try_store_inline(&payload));
    assert!(!f.is_inline());
    assert_eq!(f.size, 0, "size must not lie when store failed");
}

#[test]
fn spill_to_extents_retires_inline() {
    let mut f = inline_file(10, b"small at first");
    f.spill_to_extents(0x1234);
    assert!(!f.is_inline());
    assert_eq!(f.extent_root, 0x1234);
    assert!(f.inline_payload.is_empty());
    assert!(f.generation >= 2, "generation bumps on CoW rewrite");
}

#[test]
fn wire_roundtrip_inline() {
    let f = inline_file(0xAB, b"payload bytes here");
    let wire = f.serialize();
    assert_eq!(wire.len(), INODE_V3_CORE_SIZE + 18);
    let back = InodeV3::deserialize(&wire).expect("valid wire form");
    assert_eq!(back, f);
}

#[test]
fn wire_roundtrip_spill() {
    let mut f = InodeV3::new_file(0xCD, 0o644, 5, 6);
    f.size = 1 << 40; // A large spilled file.
    f.spill_to_extents(0x00FF_FFFF_FFFF); // Max u48 root.
    let wire = f.serialize();
    let back = InodeV3::deserialize(&wire).expect("valid wire form");
    assert_eq!(back, f);
    assert_eq!(back.extent_root, 0x00FF_FFFF_FFFF);
}

#[test]
fn wire_rejects_structural_garbage() {
    // Too short.
    assert!(InodeV3::deserialize(&[0u8; 32]).is_none());
    assert!(InodeV3::deserialize(&[0u8; 63]).is_none());
    // Reserved flag bits.
    let mut f = inline_file(1, b"x");
    f.flags |= 1 << 31;
    assert!(InodeV3::deserialize(&f.serialize()).is_none());
    // Inline length inconsistent with buffer.
    let mut f = inline_file(2, b"abc");
    let mut wire = f.serialize();
    wire.truncate(wire.len() - 1);
    assert!(InodeV3::deserialize(&wire).is_none());
    // Spill branch with nonzero reserved bytes at 66/67.
    let mut f = InodeV3::new_file(3, 0o600, 0, 0);
    f.spill_to_extents(0x1000);
    let mut wire = f.serialize();
    assert_eq!(wire.len(), 68);
    wire[66] = 1;
    assert!(InodeV3::deserialize(&wire).is_none());
    let mut wire = f.serialize();
    wire[67] = 1;
    assert!(InodeV3::deserialize(&wire).is_none());
    // Truncated spill record.
    let mut wire = f.serialize();
    wire.truncate(66);
    assert!(InodeV3::deserialize(&wire).is_none());
    // Inline size field lying about the payload length.
    let mut f = inline_file(4, b"abcd");
    let mut wire = f.serialize();
    wire[32] = 0xFF; // Corrupt a size byte.
    assert!(InodeV3::deserialize(&wire).is_none());
}

#[test]
fn dir_and_file_kinds() {
    let d = InodeV3::new_dir(1, 0o755, 0, 0);
    assert!(d.is_dir());
    assert_eq!(d.nlink, 2);
    let f = InodeV3::new_file(2, 0o644, 0, 0);
    assert!(f.is_regular());
    assert!(!f.is_symlink());
}

#[test]
fn tail_packer_batches_to_threshold() {
    let mut packer = TailPacker::new();
    // 68-byte inline inodes: 2 KiB / 68 ~ 30 per flush.
    let mut flushed = None;
    for i in 0..40u128 {
        if let Some(leaf) =
            packer.append(&inline_file(i, b"0123456789abcdefghij0123456789abcd"))
        {
            flushed = Some(leaf);
            break;
        }
    }
    let leaf = flushed.expect("threshold must have been crossed");
    // The flushed leaf carries 25% padding: live bytes ~ (4/3)^-1.
    assert!(leaf.len() >= LEAF_FLUSH_THRESHOLD);
    assert!(
        leaf.len() >= (LEAF_FLUSH_THRESHOLD * 4) / 3 - 16,
        "leaf len {}",
        leaf.len()
    );
    assert_eq!(packer.flushes(), 1);
}

#[test]
fn generation_bumps_on_rewrites() {
    let mut f = inline_file(1, b"v1");
    let g1 = f.generation;
    f.try_store_inline(b"v2 - rewritten");
    assert_eq!(f.generation, g1 + 1);
    f.spill_to_extents(9);
    assert_eq!(f.generation, g1 + 2);
}

#[test]
fn core_size_matches_spec_table() {
    assert_eq!(INODE_V3_CORE_SIZE, 64);
    assert_eq!(INODE_V3_MAX_INLINE, 4032);
    // A max-inline inode is exactly one 4 KiB leaf value.
    let f = inline_file(1, &vec![0u8; INODE_V3_MAX_INLINE]);
    assert_eq!(f.serialize().len(), 4096);
    // A spill record is exactly 68 bytes.
    let mut g = InodeV3::new_file(2, 0o600, 0, 0);
    g.spill_to_extents(5);
    assert_eq!(g.serialize().len(), 68);
}

#[test]
fn tail_packer_flush_pads_amortized() {
    let mut packer = TailPacker::new();
    for i in 0..100u128 {
        packer.append(&inline_file(i, b"0123456789abcdefghij"));
    }
    let _ = packer.flush();
    // Write amplification of the leaf path: ~4/3 from padding, never
    // the 2x+ a naive per-record rewrite would cost.
    let live = packer.bytes_written() * 3 / 4;
    let wa = packer.bytes_written() as f64 / live as f64;
    assert!(wa < 1.5, "write amplification {wa}");
    assert!(wa > 1.0);
    assert_eq!(packer.pending_bytes(), 0);
}
