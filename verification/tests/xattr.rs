use lionfs::error::ErrorKind;
use lionfs::ondisk::xattr::{
    classify_name, parse_block, write_block, XattrEntry, NS_SECURITY, NS_SYSTEM, NS_TRUSTED,
    NS_USER, XATTR_CAPACITY,
};

fn entry(name: &str, value: &[u8]) -> XattrEntry {
    XattrEntry { name: name.to_string(), value: value.to_vec(), ns_flags: classify_name(name).unwrap_or(NS_USER) }
}

#[test]
fn roundtrips_entries() {
    let entries = vec![
        entry("user.mime_type", b"text/plain"),
        entry("system.posix_acl_access", &[1, 2, 3, 4, 5, 6, 7, 8]),
        entry("trusted.origin", b"lionfs"),
    ];
    let buf = write_block(&entries).expect("fits");
    let parsed = parse_block(&buf).expect("parses");
    assert_eq!(parsed, entries);
}

#[test]
fn empty_block_roundtrips() {
    let buf = write_block(&[]).expect("fits");
    let parsed = parse_block(&buf).expect("parses");
    assert!(parsed.is_empty());
}

#[test]
fn detects_corruption() {
    let entries = vec![entry("user.a", b"hello")];
    let mut buf = write_block(&entries).expect("fits");
    // Flip a byte INSIDE the checksummed entry region (the header
    // is 32 bytes; the first entry's value bytes start at 32+4+6).
    buf[45] ^= 0xFF;
    assert!(parse_block(&buf).is_err());
}

#[test]
fn a_cut_block_is_an_error() {
    let buf = write_block(&[entry("user.a", b"hello")]).expect("fits");
    assert_eq!(parse_block(&buf[..40]).err().map(|e| e.kind), Some(ErrorKind::InvalidData));
    assert!(parse_block(&buf[..16]).is_err());
    assert!(parse_block(&[]).is_err());
    // What lies behind the entries is not needed.
    assert_eq!(parse_block(&buf[..64]).expect("parses").len(), 1);
}

#[test]
fn rejects_oversize() {
    let big = vec![b'x'; XATTR_CAPACITY];
    let entries = vec![entry("user.big", &big)];
    assert!(write_block(&entries).is_err());
}

#[test]
fn name_classification() {
    assert_eq!(classify_name("user.a").unwrap(), NS_USER);
    assert_eq!(classify_name("system.posix_acl_access").unwrap(), NS_SYSTEM);
    assert_eq!(classify_name("security.selinux").unwrap(), NS_SECURITY);
    assert_eq!(classify_name("trusted.x").unwrap(), NS_TRUSTED);
    assert!(classify_name("noclass.x").is_err());
    assert!(classify_name("user.").is_err());
    assert!(classify_name("").is_err());
    let long = format!("user.{}", "a".repeat(300));
    assert!(classify_name(&long).is_err());
}
