use lionfs::migrate::detect::{detect, magic_table, FsKind};

fn padded_image() -> Vec<u8> {
    vec![0u8; 65_536 + 8]
}

#[test]
fn every_rule_matches_its_own_image() {
    for rule in &magic_table() {
        let mut img = padded_image();
        img[rule.offset..rule.offset + rule.magic.len()].copy_from_slice(&rule.magic);
        assert_eq!(detect(&img), Some(rule.kind), "rule {:?}", rule.kind);
    }
}

#[test]
fn alt_magics_match() {
    // HFS+ case-sensitive "HX".
    let mut img = padded_image();
    img[1024..1026].copy_from_slice(b"HX");
    assert_eq!(detect(&img), Some(FsKind::HfsPlus));
}

#[test]
fn empty_image_detects_nothing() {
    assert_eq!(detect(&[]), None);
}

#[test]
fn blank_image_detects_nothing() {
    assert_eq!(detect(&padded_image()), None);
}

#[test]
fn short_image_skips_out_of_range_rules() {
    // A 100-byte image cannot match anything in the table (the
    // smallest offsets are 0 for ZFS with 4-byte magic).
    let img = vec![0u8; 100];
    assert_eq!(detect(&img), None);
    // XFS magic at 0 in a 4-byte image.
    assert_eq!(detect(b"XFSB"), Some(FsKind::Xfs));
}

#[test]
fn first_match_wins_in_table_order() {
    // ext4's rule comes first; an image that would also satisfy a
    // later rule reports ext4.
    let mut img = padded_image();
    img[1080..1082].copy_from_slice(&[0x53, 0xEF]); // ext4
    img[1024..1028].copy_from_slice(&[0xF0, 0x0F, 0xF1, 0x0F]); // f2fs
    assert_eq!(detect(&img), Some(FsKind::Ext4));
}

#[test]
fn tags_roundtrip() {
    let all = [
        FsKind::Ext4, FsKind::Xfs, FsKind::Btrfs, FsKind::Zfs, FsKind::F2fs,
        FsKind::Ntfs, FsKind::Apfs, FsKind::Fat32, FsKind::ExFat, FsKind::HfsPlus,
        FsKind::Other, FsKind::Unknown,
    ];
    for k in all {
        assert_eq!(FsKind::from_tag(k.tag()), Some(k));
    }
    assert!(FsKind::from_tag("minix").is_none());
}

#[test]
fn ntfs_and_exfat_dont_collide() {
    // Both key at offset 3; NTFS must win when its 8-byte OEM name
    // is present (table order).
    let mut img = vec![0u8; 512];
    img[3..11].copy_from_slice(b"NTFS    ");
    assert_eq!(detect(&img), Some(FsKind::Ntfs));
    let mut img = vec![0u8; 512];
    img[3..11].copy_from_slice(b"EXFAT   ");
    assert_eq!(detect(&img), Some(FsKind::ExFat));
}
