use lionfs::common::version::{CURRENT_VERSION, FS_FEATURE_REFLINK};
use lionfs::error::{Error, ErrorKind};
use lionfs::fs::commit::{committer_next, CommitterAction};
use lionfs::fs::cipher::resolve_block_cipher_ctx;
use lionfs::fs::filesystem::{
    is_covered, refusal, scratch_step, CoverAction, CoverEvent, CoverWait, LionFS, MountError,
    Recovered, ScratchStep, StoredImage, COVER_PATIENCE,
};
use lionfs::fs::load::ImageParts;
use lionfs::fs::operations::copy_file_contents;
use lionfs::fs::reflink::can_clone;
use lionfs::fs::vfs::{VfsCreate, VfsError, VfsSetAttr};
use lionfs::fs::vfs_impl::{mask_to_perm, HEALTH_INO, SCRUB_INO};
use lionfs::fs::volume::{Limits, Volume};
use lionfs::ondisk::serialization::{Inode, Superblock, BLOCK_SIZE, LIONFS_MAGIC};
use lionfs::ondisk::superblock::seal;
use lionfs::ondisk::xattr::{XATTR_CAPACITY, XATTR_CREATE, XATTR_REPLACE};
use lionfs::posix;
use lionfs::security::posix_acl::{
    AclEntry, PosixAcl, ACL_ACCESS_XATTR, ACL_DEFAULT_XATTR, ACL_GROUP, ACL_GROUP_OBJ, ACL_MASK,
    ACL_OTHER, ACL_USER, ACL_USER_OBJ,
};

fn superblock() -> Superblock {
    let mut sb = Superblock::zeroed();
    sb.magic = LIONFS_MAGIC;
    sb.version = CURRENT_VERSION;
    sb.block_size = BLOCK_SIZE as u32;
    sb.total_blocks = 12_288;
    sb.free_blocks = 8_000;
    sb.inode_count = 1024;
    sb.root_inode = 1;
    sb.generation = 1;
    sb.inode_tree_root = 12;
    sb.checksum_tree_root = 13;
    sb.next_ino = 2;
    sb
}

fn limits() -> Limits {
    Limits { inodes: 64, dir_entries: 8, file_bytes: 1 << 20, blocks: 1 << 20 }
}

fn mount_sb(sb: Superblock) -> Result<LionFS, MountError> {
    let recovered = Recovered { current_tx_id: 0, highest_tx: 0 };
    LionFS::new(&[Some(seal(sb))], recovered, None, limits(), "image")
}

fn mount_with(sb: Superblock) -> LionFS {
    let mut fs = match mount_sb(sb) {
        Ok(fs) => fs,
        Err(e) => panic!("mount: {}", e.message),
    };
    let mut root = Inode::zeroed(1);
    root.mode = posix::S_IFDIR | 0o755;
    root.links_count = 2;
    assert!(fs.core.put_inode(root));
    fs.core.vol.fresh = vec![1003, 1002, 1001, 1000];
    fs
}

fn mount() -> LionFS {
    mount_with(superblock())
}

/// Drives commits until the transactions have landed.
fn cover(fs: &mut LionFS, ids: &[u64]) {
    let mut wait = CoverWait::new();
    let mut event = CoverEvent::Looked;
    loop {
        let covered = is_covered(&fs.core, ids);
        match wait.next(event, covered, !fs.core.committing_is_empty()) {
            CoverAction::Done(all) => {
                assert!(all, "the transactions did not land");
                return;
            }
            CoverAction::Drive => event = CoverEvent::Drove(fs.core.commit_one(true)),
            CoverAction::LastDrive => event = CoverEvent::LastDrove(fs.core.commit_one(true)),
            CoverAction::Wait => event = CoverEvent::Looked,
        }
    }
}

/// Lands everything that was staged, as the end of an unmount does.
fn land(fs: &mut LionFS) {
    while fs.core.commit_one(true) {}
}

/// What an image is made of.
fn parts(fs: LionFS) -> ImageParts {
    let LionFS { core, bad_blocks, .. } = fs;
    let Volume { sb, inodes, spills, dirs, area, xattrs, clones, damaged, fresh, limits, .. } =
        core.vol;
    ImageParts {
        sb,
        inodes,
        spills,
        dirs,
        area,
        xattrs,
        clones,
        damaged,
        fresh,
        limits,
        pins: core.pins,
        bad_blocks,
    }
}

/// Mounts again what the image holds: what has landed. Nothing that was only
/// buffered stays, and what was staged has to have landed.
fn remount(fs: LionFS) -> LionFS {
    assert!(fs.core.live_txids().is_empty(), "remount: a transaction did not land");
    let candidates = [Some(seal(fs.core.sb()))];
    let recovered = Recovered { current_tx_id: fs.core.current_tx_id, highest_tx: 0 };
    let image = StoredImage::load(parts(fs)).expect("remount: the image is not sound");
    match LionFS::with_image(&candidates, image, recovered, None, "image") {
        Ok(fs) => fs,
        Err(e) => panic!("remount: {}", e.message),
    }
}

fn mkcreate() -> VfsCreate {
    VfsCreate { mode: 0o644, uid: 1000, gid: 1000 }
}

fn pattern(len: usize, seed: u8) -> Vec<u8> {
    (0..len).map(|i| (i as u8).wrapping_mul(31).wrapping_add(seed)).collect()
}

fn errno_of(r: Result<(), VfsError>) -> i32 {
    r.err().map(|e| e.errno).unwrap_or(0)
}

#[test]
fn vfs_error_mapping_is_stable() {
    assert_eq!(VfsError::new(posix::ENOENT).errno, 2);
    assert_eq!(VfsError::new(posix::EIO).errno, 5);
}

#[test]
fn virtual_inodes_are_stable_constants() {
    // The control-file inodes must never change: they are visible in
    // mounted filesystems.
    assert_eq!(SCRUB_INO, 999_999);
    assert_eq!(HEALTH_INO, 999_998);
}

#[test]
fn overlay_pages_slices_correctly() {
    // One cached page (block 1), read starting mid-block.
    let mut page = vec![0u8; BLOCK_SIZE];
    for (i, b) in page.iter_mut().enumerate() {
        *b = (i % 251) as u8;
    }
    let out_len = 100;
    let start = BLOCK_SIZE as u64 + 17;
    let mut out = vec![0xFFu8; out_len];
    let n = LionFS::overlay_pages(&mut out, start, &[(1, page.clone())]);
    assert_eq!(n, out_len);
    assert_eq!(&out[..], &page[17..117]);
    // Read wholly inside one cached page.
    let mut out2 = vec![0u8; 10];
    let n2 = LionFS::overlay_pages(&mut out2, 3, &[(0, page.clone())]);
    assert_eq!(n2, 10);
    assert_eq!(&out2[..], &page[3..13]);
}

#[test]
fn errors_map_to_error_numbers() {
    let of = |kind| VfsError::from_io(&Error::new(kind, "")).errno;
    assert_eq!(of(ErrorKind::NotFound), posix::ENODATA);
    assert_eq!(of(ErrorKind::AlreadyExists), posix::EEXIST);
    assert_eq!(of(ErrorKind::InvalidInput), posix::EINVAL);
    assert_eq!(of(ErrorKind::StorageFull), posix::ENOSPC);
    assert_eq!(of(ErrorKind::Unsupported), posix::ENOTSUP);
    assert_eq!(of(ErrorKind::InvalidData), posix::EIO);
    assert_eq!(VfsError::nosys().errno, posix::ENOSYS);
}

#[test]
fn mount_gate_refuses_unknown_feature_bits() {
    let mut sb = superblock();
    sb.fs_features |= 1 << 40;
    let err = mount_sb(sb).err().expect("mount refused");
    assert!(err.message.contains("unknown feature bits"), "gate message: {}", err.message);
    assert_eq!(err.kind, ErrorKind::InvalidData);
}

#[test]
fn mount_refuses_a_newer_version_and_an_unreadable_image() {
    let mut sb = superblock();
    sb.version = CURRENT_VERSION + 1;
    let err = mount_sb(sb).err().expect("mount refused");
    assert_eq!(
        err.message,
        "refusing to mount: on-disk format version 3 (this build writes 2), \
unknown feature bits 0b0 set"
    );
    let recovered = Recovered { current_tx_id: 0, highest_tx: 0 };
    let err = LionFS::new(&[None, None], recovered, None, limits(), "image").err().unwrap();
    assert_eq!(err.message, "No valid superblock found or all checksums failed");
}

#[test]
fn sequential_create_write_read_lookup() {
    let mut fs = mount();
    for t in 0..4u64 {
        let name = format!("t{t}.bin");
        let attr = fs.create(1, &name, &mkcreate(), None, 5).expect("create");
        let data = pattern(8192, t as u8);
        let n = fs.write(attr.ino, 0, &data, 6).expect("write");
        assert_eq!(n, 8192);
        let got = fs.read(attr.ino, 0, 8192).expect("read");
        assert_eq!(got, data);
    }
    // re-read all inodes after commits
    for t in 0..4u64 {
        let name = format!("t{t}.bin");
        let found = fs.lookup(1, &name).expect("lookup");
        let got = fs.read(found.ino, 0, 8192).expect("read2");
        assert_eq!(got.len(), 8192);
    }
}

#[test]
fn unlink_drops_unsynced_pages() {
    let mut fs = mount();
    let attr = fs.create(1, "u.bin", &mkcreate(), None, 1).expect("create");
    fs.write(attr.ino, 0, &pattern(4096, 7), 2).unwrap();
    fs.unlink(1, "u.bin", 3).expect("unlink");

    let fresh = fs.create(1, "u.bin", &mkcreate(), None, 4).expect("recreate");
    let got = fs.read(fresh.ino, 0, 4096).expect("read fresh");
    assert!(got.is_empty(), "stale pages leaked through unlink");
}

#[test]
fn failed_commit_stays_pending() {
    let mut fs = mount();
    assert!(!fs.core.commit_one(true));
    let ino = fs.create(1, "a", &mkcreate(), None, 1).expect("create").ino;
    fs.write(ino, 0, b"abc", 2).unwrap();
    let ids = fs.fsync(ino, 3).unwrap();
    assert!(fs.core.commit_one(false));
    assert!(fs.core.tx_live(ids[0]));
    assert!(!fs.core.committing_is_empty());
    assert_eq!(fs.read(ino, 0, 10).unwrap(), b"abc");
}

#[test]
fn xattr_flags_and_namespace_rules() {
    let mut fs = mount();
    let attr = fs.create(1, "f.txt", &mkcreate(), None, 1).expect("create");
    let ino = attr.ino;

    // XATTR_CREATE then CREATE again -> EEXIST.
    fs.setxattr(ino, "user.a", b"1", XATTR_CREATE, 2).expect("create");
    assert_eq!(
        errno_of(fs.setxattr(ino, "user.a", b"2", XATTR_CREATE, 3)),
        posix::EEXIST
    );
    // XATTR_REPLACE on a missing name -> ENODATA.
    assert_eq!(
        errno_of(fs.setxattr(ino, "user.missing", b"2", XATTR_REPLACE, 4)),
        posix::ENODATA
    );
    // Unknown namespace -> EINVAL.
    assert_eq!(
        errno_of(fs.setxattr(ino, "notanamespace.x", b"2", 0, 5)),
        posix::EINVAL
    );
    // Oversize value -> ENOSPC (one block of capacity).
    let big = vec![7u8; XATTR_CAPACITY + 1];
    assert_eq!(errno_of(fs.setxattr(ino, "user.big", &big, 0, 6)), posix::ENOSPC);
    // Missing name on get -> None; on remove -> ENODATA.
    assert_eq!(fs.getxattr(ino, "user.nope").expect("getxattr"), None);
    assert_eq!(errno_of(fs.removexattr(ino, "user.nope", 7)), posix::ENODATA);
}

fn acl_access_bytes(entries: &[(u16, u16, Option<u32>)]) -> Vec<u8> {
    let acl = PosixAcl {
        entries: entries
            .iter()
            .map(|(tag, perm, id)| AclEntry { tag: *tag, perm: *perm, id: *id })
            .collect(),
    };
    acl.encode()
}

#[test]
fn acl_access_evaluation_overrides_mode_bits() {
    let mut fs = mount();
    // Owner 0, group 0, mode 0o640: user 9 gets nothing from the mode.
    let create = VfsCreate { mode: 0o100640, uid: 0, gid: 0 };
    let ino = fs.create(1, "secret.txt", &create, None, 1).expect("create").ino;
    assert!(fs.access(ino, 9, 9, 4).is_err(), "mode bits deny uid 9");

    let bytes = acl_access_bytes(&[
        (ACL_USER_OBJ, 0o6, None),
        (ACL_USER, 0o4, Some(9)),
        (ACL_GROUP_OBJ, 0o4, None),
        (ACL_MASK, 0o4, None),
        (ACL_OTHER, 0o0, None),
    ]);
    fs.setxattr(ino, ACL_ACCESS_XATTR, &bytes, 0, 2).expect("set acl");

    assert!(fs.access(ino, 9, 9, 4).is_ok(), "named ACL entry grants read");
    assert!(fs.access(ino, 9, 9, 2).is_err(), "ACL denies write");
    assert!(fs.access(ino, 0, 0, 4 | 2).is_ok(), "owner keeps rw");
    let mode = fs.getattr(ino).expect("getattr").perm;
    assert_eq!(mode & 0o777, 0o640, "mode = owner 6 | (4&4)<<3 | 0");

    assert_eq!(errno_of(fs.setxattr(ino, ACL_ACCESS_XATTR, b"x", 0, 3)), posix::EINVAL);
    let incomplete = acl_access_bytes(&[(ACL_USER_OBJ, 0o6, None), (ACL_OTHER, 0, None)]);
    assert_eq!(errno_of(fs.setxattr(ino, ACL_ACCESS_XATTR, &incomplete, 0, 3)), posix::EINVAL);
    assert_eq!(fs.getxattr(ino, ACL_ACCESS_XATTR).expect("getxattr"), Some(bytes));
}

#[test]
fn acl_chmod_keeps_named_entries_and_resyncs_mode() {
    let mut fs = mount();
    let ino = fs.create(1, "f.txt", &mkcreate(), None, 1).expect("create").ino;
    let bytes = acl_access_bytes(&[
        (ACL_USER_OBJ, 0o6, None),
        (ACL_USER, 0o7, Some(42)),
        (ACL_GROUP_OBJ, 0o6, None),
        (ACL_MASK, 0o6, None),
        (ACL_OTHER, 0o0, None),
    ]);
    fs.setxattr(ino, ACL_ACCESS_XATTR, &bytes, 0, 2).expect("set acl");

    let chmod = VfsSetAttr { mode: Some(0o640), ..Default::default() };
    fs.setattr(ino, &chmod, 3).expect("chmod");
    let stored = fs.getxattr(ino, ACL_ACCESS_XATTR).expect("get acl").expect("acl present");
    let acl = PosixAcl::decode(&stored).ok().expect("decode");
    assert_eq!(acl.find(ACL_MASK).unwrap().perm, 0o4, "MASK took the mode group bits");
    assert_eq!(acl.named_by_id(ACL_USER, 42).unwrap().perm, 0o7, "named entry survives chmod");
    let mode = fs.getattr(ino).expect("getattr").perm;
    assert_eq!(mode & 0o777, 0o640);
}

#[test]
fn acl_default_inheritance_on_mkdir() {
    let mut fs = mount();
    let def = acl_access_bytes(&[
        (ACL_USER_OBJ, 0o7, None),
        (ACL_USER, 0o6, Some(7)),
        (ACL_GROUP_OBJ, 0o5, None),
        (ACL_MASK, 0o6, None),
        (ACL_OTHER, 0o0, None),
    ]);
    fs.setxattr(1, ACL_DEFAULT_XATTR, &def, 0, 1).expect("set default acl");

    let create = VfsCreate { mode: posix::S_IFDIR | 0o750, uid: 0, gid: 0 };
    let dir = fs.mkdir(1, "d", &create, 2).expect("mkdir");

    let child_acl = fs
        .getxattr(dir.ino, ACL_ACCESS_XATTR)
        .expect("get")
        .expect("inherited access acl present");
    let acl = PosixAcl::decode(&child_acl).ok().expect("decode");
    assert_eq!(acl.named_by_id(ACL_USER, 7).unwrap().perm, 0o6, "named entry inherited");
    assert_eq!(
        fs.getxattr(dir.ino, ACL_DEFAULT_XATTR).expect("get"),
        Some(def),
        "default acl copied to child dir"
    );
    let mode = fs.getattr(dir.ino).expect("getattr").perm;
    assert_eq!(mode & 0o777, 0o740);
}

#[test]
fn entries_count_in_their_order() {
    let entries = |list: &[(u16, u16, Option<u32>)]| PosixAcl {
        entries: list.iter().map(|&(tag, perm, id)| AclEntry { tag, perm, id }).collect(),
    };
    let acl = entries(&[
        (ACL_USER_OBJ, 0, None),
        (ACL_USER, 7, Some(5)),
        (ACL_GROUP_OBJ, 2, None),
        (ACL_GROUP, 4, Some(30)),
        (ACL_MASK, 6, None),
        (ACL_OTHER, 7, None),
    ]);
    assert!(acl.validate().is_ok());
    // The owner is judged by the owner's entry alone.
    assert!(!acl.evaluate(1, 30, 1, 20, 4));
    // The mask takes execution from the named user.
    assert!(acl.evaluate(5, 99, 1, 20, 6));
    assert!(!acl.evaluate(5, 99, 1, 20, 1));
    // A member of a group is not judged by the entry of others.
    assert!(acl.evaluate(8, 20, 1, 20, 2));
    assert!(!acl.evaluate(8, 20, 1, 20, 4));
    assert!(acl.evaluate(8, 30, 1, 20, 4));
    assert!(!acl.evaluate(8, 30, 1, 20, 1));
    assert!(acl.evaluate(8, 40, 1, 20, 7));
    assert_eq!(acl.mode_bits(), 0o027);
    let encoded = acl.encode();
    assert_eq!(encoded.len(), 4 + 6 * 8);
    assert_eq!(encoded[..12], [2, 0, 0, 0, 1, 0, 0, 0, 255, 255, 255, 255]);
    assert_eq!(PosixAcl::decode(&encoded).ok().expect("decode").entries, acl.entries);

    let twice = entries(&[
        (ACL_USER_OBJ, 7, None),
        (ACL_USER, 7, Some(5)),
        (ACL_USER, 6, Some(5)),
        (ACL_GROUP_OBJ, 7, None),
        (ACL_MASK, 7, None),
        (ACL_OTHER, 0, None),
    ]);
    assert_eq!(twice.validate().err().map(|e| e.kind), Some(ErrorKind::InvalidInput));
    let no_mask = entries(&[
        (ACL_USER_OBJ, 7, None),
        (ACL_USER, 7, Some(5)),
        (ACL_GROUP_OBJ, 7, None),
        (ACL_OTHER, 0, None),
    ]);
    assert!(no_mask.validate().is_err());
    // Without a mask the bits of the group go to the owning group.
    let plain =
        entries(&[(ACL_USER_OBJ, 7, None), (ACL_GROUP_OBJ, 7, None), (ACL_OTHER, 0, None)]);
    assert_eq!(plain.apply_chmod(0o641).mode_bits(), 0o641);
    assert!(PosixAcl::decode(&[2, 0, 0, 0, 3, 0, 0, 0, 0, 0, 0, 0]).is_err());
    assert!(PosixAcl::decode(&[1, 0, 0, 0]).is_err());
}

#[test]
fn parts_of_files_are_copied() {
    let mut fs = mount();
    let src = fs.create(1, "a", &mkcreate(), None, 1).expect("create").ino;
    let dst = fs.create(1, "b", &mkcreate(), None, 1).expect("create").ino;
    fs.write(src, 0, b"0123456789", 2).unwrap();
    assert_eq!(fs.copy_file_range(src, 2, dst, 1, 4, 3).unwrap(), 4);
    assert_eq!(fs.read(dst, 0, 100).unwrap(), b"\x002345");
    let same = fs.copy_file_range(src, 0, src, 0, 4, 4);
    assert_eq!(same.err().map(|e| e.errno), Some(posix::EINVAL));
}

#[test]
fn contents_are_copied_chunk_by_chunk() {
    let mut fs = mount();
    let src = fs.create(1, "a", &mkcreate(), None, 1).expect("create").ino;
    let dst = fs.create(1, "b", &mkcreate(), None, 1).expect("create").ino;
    let data = pattern(10_000, 3);
    fs.write(src, 0, &data, 2).unwrap();
    fs.destroy(3);
    assert_eq!(copy_file_contents(&mut fs.core.vol, &fs.core.pins, src, dst, 4096).unwrap(), 10_000);
    assert_eq!(fs.read(dst, 0, 20_000).unwrap(), data);
    assert_eq!(copy_file_contents(&mut fs.core.vol, &fs.core.pins, src, dst, 0).unwrap(), 0);
    let missing = copy_file_contents(&mut fs.core.vol, &fs.core.pins, 40, dst, 4096);
    assert_eq!(missing.err().map(|e| e.kind), Some(ErrorKind::NotFound));
}

#[test]
fn copying_stops_at_what_cannot_be_read() {
    let mut fs = mount();
    let src = fs.create(1, "a", &mkcreate(), None, 1).expect("create").ino;
    let dst = fs.create(1, "b", &mkcreate(), None, 1).expect("create").ino;
    let data = pattern(10_000, 3);
    fs.write(src, 0, &data, 2).unwrap();
    fs.destroy(3);
    fs.core.vol.damaged.insert(src, vec![1]);
    let r = copy_file_contents(&mut fs.core.vol, &fs.core.pins, src, dst, 4096);
    assert_eq!(r.err().map(|e| e.kind), Some(ErrorKind::InvalidData));
    assert_eq!(fs.read(dst, 0, 20_000).unwrap(), &data[..4096]);
    // One chunk for all of it finds the damage before anything is written.
    let other = fs.create(1, "c", &mkcreate(), None, 4).expect("create").ino;
    assert!(copy_file_contents(&mut fs.core.vol, &fs.core.pins, src, other, 1 << 20).is_err());
    assert_eq!(fs.getattr(other).unwrap().size, 0);
}

#[test]
fn names_come_and_go() {
    let mut fs = mount();
    let f = fs.create(1, "f", &mkcreate(), None, 1).expect("create");
    assert_eq!(fs.lookup(1, "f").unwrap().ino, f.ino);
    let dir = VfsCreate { mode: posix::S_IFDIR | 0o755, uid: 0, gid: 0 };
    let d = fs.mkdir(1, "d", &dir, 2).expect("mkdir");
    fs.rename(1, "f", d.ino, "g", 3).expect("rename");
    assert_eq!(fs.lookup(1, "f").err().map(|e| e.errno), Some(posix::ENOENT));
    assert_eq!(fs.lookup(d.ino, "g").unwrap().ino, f.ino);
    assert_eq!(errno_of(fs.rmdir(1, "d", 4)), posix::ENOTEMPTY);
    let missing = fs.rename(d.ino, "g", 77, "h", 5);
    assert_eq!(errno_of(missing), posix::ENOENT);
    assert_eq!(fs.lookup(d.ino, "g").unwrap().ino, f.ino);
    fs.unlink(d.ino, "g", 6).expect("unlink");
    assert!(fs.lookup(d.ino, "g").is_err());
    fs.rmdir(1, "d", 7).expect("rmdir");
    assert!(fs.lookup(1, "d").is_err());
}

#[test]
fn full_directory_takes_no_name() {
    let mut fs = mount();
    for i in 0..8 {
        fs.create(1, &format!("f{i}"), &mkcreate(), None, 1).expect("create");
    }
    let r = fs.create(1, "one more", &mkcreate(), None, 2);
    assert_eq!(r.err().map(|e| e.errno), Some(posix::EIO));
    assert!(fs.lookup(1, "one more").is_err());
}

#[test]
fn directories_are_listed_from_an_offset() {
    let mut fs = mount();
    fs.create(1, "a", &mkcreate(), None, 1).expect("create");
    fs.create(1, "b", &mkcreate(), None, 1).expect("create");
    let all = fs.readdir(1, 0, 100).unwrap();
    let names: Vec<&str> = all.iter().map(|e| e.name.as_str()).collect();
    assert!(names.contains(&"a") && names.contains(&"b"));
    let at = names.iter().position(|n| *n == "a").unwrap();
    let rest = fs.readdir(1, all[at].next_offset, 100).unwrap();
    assert_eq!(rest.len(), all.len() - at - 1);
}

#[test]
fn committer_goes_on_until_nothing_is_left() {
    assert_eq!(committer_next(true, true), CommitterAction::Commit);
    assert_eq!(committer_next(false, true), CommitterAction::Stop);
    assert_eq!(committer_next(false, false), CommitterAction::Wait);
}

/// Partial-block writes at unaligned offsets merge correctly with
/// committed content, and a buffered read sees them before any flush.
#[test]
fn partial_write_rmw_and_read_your_write() {
    let mut fs = mount();
    let attr = fs.create(1, "rmw.bin", &mkcreate(), None, 1).expect("create");
    let ino = attr.ino;

    // Commit a base block first.
    let base = pattern(4096, 9);
    assert_eq!(fs.write(ino, 0, &base, 2).unwrap(), 4096);
    let ids = fs.fsync(ino, 3).unwrap();
    assert_eq!(ids.len(), 1);
    assert!(fs.core.tx_live(ids[0]));
    assert!(fs.core.commit_one(true));
    assert!(!fs.core.tx_live(ids[0]));

    // Partial overwrite at an unaligned offset, still buffered.
    let patch = vec![0xA5u8; 100];
    assert_eq!(fs.write(ino, 100, &patch, 4).unwrap(), 100);

    // Read-your-own-buffered-write BEFORE any flush.
    let got = fs.read(ino, 0, 4096).expect("read");
    assert_eq!(got.len(), 4096);
    assert_eq!(&got[0..100], &base[0..100]);
    assert_eq!(&got[100..200], &patch[..]);
    assert_eq!(&got[200..], &base[200..]);

    // And after fsync + remount (durable).
    let ids = fs.fsync(ino, 5).unwrap();
    cover(&mut fs, &ids);
    let fs = remount(fs);
    let got = fs.read(ino, 0, 4096).expect("read after remount");
    assert_eq!(&got[100..200], &patch[..]);
    assert_eq!(&got[200..], &base[200..]);
}

/// Flushed writes are there after a crash; unflushed buffered ones are not.
#[test]
fn fsync_durable_unflushed_lost() {
    let mut fs = mount();
    let keep = fs.create(1, "keep.bin", &mkcreate(), None, 1).expect("create");
    let lose = fs.create(1, "lose.bin", &mkcreate(), None, 1).expect("create");
    let data = pattern(8192, 3);

    assert_eq!(fs.write(keep.ino, 0, &data, 2).unwrap(), 8192);
    let ids = fs.fsync(keep.ino, 3).unwrap();
    cover(&mut fs, &ids);
    assert_eq!(fs.write(lose.ino, 0, &data, 4).unwrap(), 8192); // buffered only

    let fs = remount(fs);
    let got = fs.read(keep.ino, 0, 8192).expect("read keep");
    assert_eq!(got, data, "fsync'd data must survive");
    let gone = fs.read(lose.ino, 0, 8192).expect("read lose");
    assert!(
        gone.is_empty() || gone.iter().all(|&b| b == 0),
        "unflushed buffered data must NOT survive a crash (write-back contract)"
    );
}

/// Unmounting is a full barrier.
#[test]
fn destroy_flushes_all_buffered_writes() {
    let mut fs = mount();
    for i in 0..3 {
        let attr = fs
            .create(1, &format!("d{i}.bin"), &mkcreate(), None, 1)
            .expect("create");
        let data = pattern(4096 + i * 100, i as u8);
        assert_eq!(fs.write(attr.ino, 0, &data, 2).unwrap(), data.len() as u32);
    }
    assert_eq!(fs.core.page_cache.dirty_inodes().len(), 3);
    fs.destroy(3); // no explicit fsyncs anywhere
    assert!(fs.core.page_cache.dirty_inodes().is_empty());
    land(&mut fs);

    let fs = remount(fs);
    for i in 0..3 {
        let found = fs.lookup(1, &format!("d{i}.bin")).expect("lookup");
        let data = pattern(4096 + i * 100, i as u8);
        let got = fs.read(found.ino, 0, data.len() as u32).expect("read");
        assert_eq!(got, data, "destroy must have flushed file {i}");
    }
}

/// getattr reflects buffered writes immediately (shadow size), and the
/// committed size catches up after flush.
#[test]
fn getattr_sees_shadow_size() {
    let mut fs = mount();
    let attr = fs.create(1, "s.bin", &mkcreate(), None, 1).expect("create");
    assert_eq!(fs.getattr(attr.ino).unwrap().size, 0);

    let data = pattern(10 * 4096, 5);
    fs.write(attr.ino, 0, &data, 2).unwrap();
    assert_eq!(fs.getattr(attr.ino).unwrap().size, data.len() as u64);

    let ids = fs.fsync(attr.ino, 3).unwrap();
    cover(&mut fs, &ids);
    assert_eq!(fs.getattr(attr.ino).unwrap().size, data.len() as u64);
    let fs = remount(fs);
    assert_eq!(fs.getattr(attr.ino).unwrap().size, data.len() as u64);
}

/// Truncate after buffered writes: flush-first ordering means nothing
/// is lost or resurrected.
#[test]
fn truncate_after_buffered_writes() {
    let mut fs = mount();
    let attr = fs.create(1, "t.bin", &mkcreate(), None, 1).expect("create");
    let data = pattern(3 * 4096, 6);
    fs.write(attr.ino, 0, &data, 2).unwrap();

    let shrunken = VfsSetAttr { size: Some(4096), ..Default::default() };
    let after = fs.setattr(attr.ino, &shrunken, 3).expect("setattr");
    assert_eq!(after.size, 4096);

    let got = fs.read(attr.ino, 0, 4096).expect("read");
    assert_eq!(got, &data[..4096]);
    // Beyond the new EOF: nothing.
    assert!(fs.read(attr.ino, 4096, 4096).unwrap().is_empty());

    // A change of attributes asks for a commit.
    assert!(fs.core.commit_due);
    land(&mut fs);
    let mut fs = remount(fs);
    assert_eq!(fs.getattr(attr.ino).unwrap().size, 4096);
    assert_eq!(fs.read(attr.ino, 0, 4096).unwrap(), &data[..4096]);

    // Growing again shows zeros, not what was cut.
    let grown = VfsSetAttr { size: Some(5000), ..Default::default() };
    fs.setattr(attr.ino, &grown, 4).expect("setattr");
    let got = fs.read(attr.ino, 0, 9000).unwrap();
    assert_eq!(got.len(), 5000);
    assert!(got[4096..].iter().all(|&b| b == 0));
}

/// Compressed inodes are written through (no page cache).
#[test]
fn compressed_inode_write_through_still_works() {
    let mut sb = superblock();
    sb.default_compression = 2;
    let mut fs = mount_with(sb);
    let attr = fs.create(1, "c.bin", &mkcreate(), None, 1).expect("create");
    // Compressible data (runs of one byte).
    let mut data = vec![0u8; 128 * 1024];
    for (i, b) in data.iter_mut().enumerate() {
        *b = (i / 4096) as u8;
    }
    let mut off = 0;
    while off < data.len() {
        let end = (off + 4096).min(data.len());
        assert_eq!(
            fs.write(attr.ino, off as u64, &data[off..end], 2).unwrap() as usize,
            end - off
        );
        off = end;
    }
    assert!(fs.core.page_cache.dirty_inodes().is_empty());
    let ids = fs.fsync(attr.ino, 3).unwrap();
    cover(&mut fs, &ids);

    let got = fs.read(attr.ino, 0, data.len() as u32).expect("read");
    assert_eq!(got, data);

    let fs = remount(fs);
    let got = fs.read(attr.ino, 0, data.len() as u32).expect("read after remount");
    assert_eq!(got, data);
}

#[test]
fn xattr_roundtrip_persists_across_remount() {
    let mut fs = mount();
    let attr = fs.create(1, "f.txt", &mkcreate(), None, 1).expect("create");
    let ino = attr.ino;

    fs.setxattr(ino, "user.mime_type", b"text/plain", 0, 2).expect("setxattr");
    assert_eq!(fs.getxattr(ino, "user.mime_type").expect("getxattr"), Some(b"text/plain".to_vec()));
    // Read-your-own-write before durability, too.
    let listed = fs.listxattr(ino).expect("listxattr");
    assert!(listed.contains(&"user.mime_type".to_string()));
    fs.destroy(3);
    land(&mut fs);

    let mut fs = remount(fs);
    assert_eq!(fs.getxattr(ino, "user.mime_type").expect("getxattr"), Some(b"text/plain".to_vec()));
    assert!(fs.listxattr(ino).expect("listxattr").contains(&"user.mime_type".to_string()));
    // Replace + remove.
    fs.setxattr(ino, "user.mime_type", b"image/png", 0, 4).expect("replace");
    assert_eq!(fs.getxattr(ino, "user.mime_type").expect("getxattr"), Some(b"image/png".to_vec()));
    fs.removexattr(ino, "user.mime_type", 5).expect("remove");
    assert_eq!(fs.getxattr(ino, "user.mime_type").expect("getxattr"), None);
}

#[test]
fn every_change_of_an_attribute_is_a_change_of_the_inode() {
    let mut fs = mount();
    let ino = file(&mut fs, "f");
    fs.setxattr(ino, "user.a", b"1", 0, 7).unwrap();
    let attr = fs.getattr(ino).unwrap();
    assert_eq!((attr.mtime, attr.ctime), (1, 7));
    fs.removexattr(ino, "user.a", 9).unwrap();
    let attr = fs.getattr(ino).unwrap();
    assert_eq!((attr.mtime, attr.ctime), (1, 9));
    // What is not there is not removed, and changes nothing.
    assert_eq!(errno_of(fs.removexattr(ino, "user.a", 11)), posix::ENODATA);
    assert_eq!(fs.getattr(ino).unwrap().ctime, 9);
}

#[test]
fn a_copy_over_a_block_that_cannot_be_read_has_the_bytes() {
    let mut fs = mount();
    let (src, dst) = (file(&mut fs, "a"), file(&mut fs, "b"));
    let data = pattern(6_000, 5);
    fs.write(src, 0, &data, 2).unwrap();
    fs.write(dst, 0, &pattern(3 * BLOCK_SIZE, 9), 2).unwrap();
    fs.destroy(3);
    fs.core.vol.damaged.insert(dst, vec![0, 2]);
    assert!(fs.read(dst, 0, 10).is_err());
    assert_eq!(fs.copy_file_range(src, 0, dst, 100, 6_000, 4).unwrap(), 6_000);
    assert_eq!(fs.read(dst, 100, 6_000).unwrap(), data);
    // Beside them the block that was lost is zero; the next one is as it was.
    assert_eq!(fs.read(dst, 0, 100).unwrap(), vec![0; 100]);
    let rest = fs.read(dst, 6_100, 2_092).unwrap();
    assert_eq!(rest, &pattern(3 * BLOCK_SIZE, 9)[6_100..8_192]);
    assert!(fs.read(dst, 2 * BLOCK_SIZE as u64, 10).is_err());
    assert_eq!(fs.read(src, 0, 10_000).unwrap(), data);
    // A write to either leaves the other alone.
    fs.write(src, 0, b"changed", 5).unwrap();
    assert_eq!(fs.read(dst, 100, 6_000).unwrap(), data);
    fs.write(dst, 100, b"also", 6).unwrap();
    assert_eq!(&fs.read(src, 0, 10_000).unwrap()[7..], &data[7..]);
}

#[test]
fn reflink_shares_blocks_and_redirects_writes() {
    let mut fs = mount();
    let src = fs.create(1, "src.bin", &mkcreate(), None, 1).expect("create");
    let payload: Vec<u8> = (0..32)
        .flat_map(|b| (0..BLOCK_SIZE).map(move |i| ((b + i) & 0xFF) as u8))
        .collect();
    assert_eq!(payload.len(), 32 * BLOCK_SIZE);
    fs.write(src.ino, 0, &payload, 2).expect("write");
    let ids = fs.fsync(src.ino, 3).expect("fsync");
    cover(&mut fs, &ids);

    let statfs_before = fs.statfs(1).expect("statfs").free_blocks;

    let dst = fs.create(1, "dst.bin", &mkcreate(), None, 4).expect("create dst");
    let copied = fs.copy_file_range(src.ino, 0, dst.ino, 0, u64::MAX, 5).expect("reflink");
    assert_eq!(copied, payload.len() as u64);

    // Both read the same bytes.
    assert_eq!(fs.read(dst.ino, 0, payload.len() as u32).expect("read dst"), payload);

    // Space accounting: sharing means ~no new allocation (metadata
    // only; allow a few blocks of tree growth).
    land(&mut fs);
    let statfs_after = fs.statfs(1).expect("statfs").free_blocks;
    assert!(
        statfs_before.saturating_sub(statfs_after) < 8,
        "reflink allocated { } blocks; sharing failed",
        statfs_before - statfs_after
    );

    // Overwrite the CLONE's middle block: the SOURCE must be untouched.
    let mut new_mid = vec![0xAAu8; BLOCK_SIZE];
    new_mid[0] = 0xBB;
    fs.write(dst.ino, 8 * BLOCK_SIZE as u64, &new_mid, 6).expect("overwrite dst");
    fs.fsync(dst.ino, 7).expect("fsync dst");

    let src_expect = payload;
    let got_src = fs.read(src.ino, 8 * BLOCK_SIZE as u64, BLOCK_SIZE as u32).expect("read src");
    assert_eq!(
        got_src,
        src_expect[8 * BLOCK_SIZE..9 * BLOCK_SIZE],
        "source corrupted by clone write"
    );
    fs.destroy(8);
    land(&mut fs);

    // Durability: remount, both sides keep their own views.
    let fs = remount(fs);
    let got_src = fs.read(src.ino, 8 * BLOCK_SIZE as u64, BLOCK_SIZE as u32).expect("read src");
    assert_eq!(got_src, src_expect[8 * BLOCK_SIZE..9 * BLOCK_SIZE]);
    let got_dst = fs.read(dst.ino, 8 * BLOCK_SIZE as u64, BLOCK_SIZE as u32).expect("read dst");
    assert_eq!(got_dst, new_mid);
}

#[test]
fn reflink_registry_record_and_feature_flag_persist() {
    let mut fs = mount();
    let src = fs.create(1, "a.bin", &mkcreate(), None, 1).expect("create");
    fs.write(src.ino, 0, b"hello clone registry", 2).expect("write");
    fs.fsync(src.ino, 3).expect("fsync");
    let dst = fs.create(1, "b.bin", &mkcreate(), None, 4).expect("create");
    fs.copy_file_range(src.ino, 0, dst.ino, 0, u64::MAX, 5).expect("reflink");
    let features = fs.core.sb().fs_features;
    assert_eq!(features & FS_FEATURE_REFLINK, FS_FEATURE_REFLINK);
    let clone_root = fs.core.sb().clone_tree_root;
    assert!(clone_root != 0);
    fs.destroy(6);
    land(&mut fs);

    // The registry survives remount with the record intact.
    let fs = remount(fs);
    let sb = fs.core.sb();
    assert_eq!(sb.clone_tree_root, clone_root);
    let rec = fs.core.vol.clones.get(dst.ino).expect("clone record present");
    assert_eq!(rec.source_id, src.ino);
}

#[test]
fn refusal_names_versions_and_bits() {
    let mut sb = superblock();
    sb.version = 7;
    sb.fs_features = 0b1011;
    assert_eq!(
        refusal(&sb),
        "refusing to mount: on-disk format version 7 (this build writes 2), \
unknown feature bits 0b1000 set"
    );
}

#[test]
fn control_files_are_there_and_read_only() {
    let mut fs = mount();
    assert_eq!(fs.lookup(1, ".lfs_scrub").unwrap().ino, SCRUB_INO);
    assert_eq!(fs.lookup(1, ".lfs_health").unwrap().perm, 0o444);
    assert_eq!(fs.read(SCRUB_INO, 0, 100).unwrap(), b"Idle");
    assert_eq!(fs.write(SCRUB_INO, 0, b"start", 1).unwrap(), 5);
    assert_eq!(fs.write(HEALTH_INO, 0, b"x", 1).err().map(|e| e.errno), Some(posix::EPERM));
    assert_eq!(errno_of(fs.setxattr(SCRUB_INO, "user.a", b"1", 0, 1)), posix::EPERM);
    assert!(fs.access(HEALTH_INO, 5, 5, 7).is_ok());
    assert_eq!(fs.readlink(1).err().map(|e| e.errno), Some(posix::ENOSYS));
    assert_eq!(fs.symlink(1, "l", "t", 0, 0).err().map(|e| e.errno), Some(posix::ENOSYS));
}

#[test]
fn damaged_files_are_errors_and_not_zeros() {
    let mut fs = mount();
    let ino = fs.create(1, "f", &mkcreate(), None, 1).expect("create").ino;
    fs.write(ino, 0, &pattern(8192, 1), 2).unwrap();
    fs.fsync(ino, 3).unwrap();
    fs.core.vol.damaged.insert(ino, vec![0]);
    assert_eq!(fs.read(ino, 0, 100).err().map(|e| e.errno), Some(posix::EIO));
    // A block that can be read is read.
    assert_eq!(fs.read(ino, 4096, 4096).unwrap(), &pattern(8192, 1)[4096..]);
    // What is buffered over the whole range is still read.
    fs.write(ino, 4096, &pattern(4096, 2), 4).unwrap();
    assert_eq!(fs.read(ino, 4096, 4096).unwrap(), pattern(4096, 2));
    assert!(fs.read(ino, 0, 8192).is_err());
}

#[test]
fn a_block_that_is_written_whole_can_be_read_again() {
    let mut fs = mount();
    let ino = fs.create(1, "f", &mkcreate(), None, 1).expect("create").ino;
    fs.write(ino, 0, &pattern(12288, 1), 2).unwrap();
    fs.fsync(ino, 3).unwrap();
    fs.core.vol.damaged.insert(ino, vec![0, 1, 2]);
    fs.write(ino, 4096, &pattern(4096, 2), 4).unwrap();
    fs.fsync(ino, 5).unwrap();
    assert_eq!(fs.read(ino, 4096, 4096).unwrap(), pattern(4096, 2));
    assert_eq!(fs.read(ino, 0, 4096).err().map(|e| e.errno), Some(posix::EIO));
    // Cutting a file drops the damage behind its end.
    let cut = VfsSetAttr { size: Some(8192), ..Default::default() };
    fs.setattr(ino, &cut, 6).unwrap();
    let grown = VfsSetAttr { size: Some(12288), ..Default::default() };
    fs.setattr(ino, &grown, 7).unwrap();
    assert_eq!(fs.read(ino, 8192, 4096).unwrap(), vec![0u8; 4096]);
    // A clone shares what cannot be read.
    let dst = fs.create(1, "g", &mkcreate(), None, 8).expect("create").ino;
    fs.copy_file_range(ino, 0, dst, 0, u64::MAX, 9).unwrap();
    assert!(fs.read(dst, 0, 1).is_err());
    assert_eq!(fs.read(dst, 4096, 4096).unwrap(), pattern(4096, 2));
}

#[test]
fn a_name_is_given_once_in_a_directory() {
    let mut fs = mount();
    let a = fs.create(1, "a", &mkcreate(), None, 1).expect("create").ino;
    assert_eq!(fs.create(1, "a", &mkcreate(), None, 2).err().map(|e| e.errno), Some(posix::EIO));
    assert_eq!(fs.mkdir(1, "a", &mkcreate(), 3).err().map(|e| e.errno), Some(posix::EIO));
    let b = fs.create(1, "b", &mkcreate(), None, 4).expect("create").ino;
    let d = fs.mkdir(1, "d", &mkcreate(), 5).expect("mkdir").ino;
    // A name that is taken is not given again, and the old one stays.
    assert_eq!(fs.rename(1, "a", 1, "b", 6).err().map(|e| e.errno), Some(posix::ENOENT));
    assert_eq!(fs.lookup(1, "a").unwrap().ino, a);
    assert_eq!(fs.lookup(1, "b").unwrap().ino, b);
    // To another directory.
    fs.rename(1, "a", d, "b", 7).unwrap();
    assert_eq!(fs.lookup(d, "b").unwrap().ino, a);
    assert!(fs.lookup(1, "a").is_err());
    assert_eq!(fs.lookup(1, "b").unwrap().ino, b);
    // Back, under a name of its own.
    fs.rename(d, "b", 1, "c", 8).unwrap();
    assert_eq!(fs.lookup(1, "c").unwrap().ino, a);
    assert!(fs.lookup(d, "b").is_err());
    assert_eq!(fs.rename(1, "gone", 1, "e", 9).err().map(|e| e.errno), Some(posix::ENOENT));
}

#[test]
fn a_copied_range_is_the_source_and_stays_its_own() {
    let mut fs = mount();
    let src = fs.create(1, "src", &mkcreate(), None, 1).expect("create").ino;
    let dst = fs.create(1, "dst", &mkcreate(), None, 1).expect("create").ino;
    let data = pattern(10_000, 7);
    fs.write(src, 0, &data, 2).unwrap();
    fs.write(dst, 0, &[9u8; 100], 2).unwrap();
    assert_eq!(fs.copy_file_range(src, 0, src, 0, 5, 3).err().map(|e| e.errno), Some(posix::EINVAL));
    assert_eq!(fs.copy_file_range(src, 500, dst, 50, 6000, 3).unwrap(), 6000);
    assert_eq!(fs.read(dst, 50, 6000).unwrap(), &data[500..6500]);
    assert_eq!(fs.read(dst, 0, 50).unwrap(), [9u8; 50]);
    assert_eq!(fs.read(src, 0, 10_000).unwrap(), data);
    fs.write(dst, 50, &[1u8; 10], 4).unwrap();
    assert_eq!(fs.read(src, 0, 10_000).unwrap(), data);
    fs.write(src, 600, &[2u8; 10], 5).unwrap();
    assert_eq!(fs.read(dst, 60, 5990).unwrap(), &data[510..6500]);
    // Past the end of the source there is nothing to copy.
    assert_eq!(fs.copy_file_range(src, 9_990, dst, 0, 100, 6).unwrap(), 10);
    assert_eq!(fs.copy_file_range(src, 20_000, dst, 0, 100, 6).unwrap(), 0);
    assert!(can_clone(&fs.core, src));
    assert!(!can_clone(&fs.core, 777));
}

#[test]
fn readers_accept_only_what_no_commit_crossed() {
    assert_eq!(scratch_step(4, false, 4), ScratchStep::Accept);
    assert_eq!(scratch_step(4, false, 6), ScratchStep::Retry);
    assert_eq!(scratch_step(5, true, 5), ScratchStep::Accept);
    assert_eq!(scratch_step(5, false, 5), ScratchStep::Yield);
}

#[test]
fn waiting_drives_a_commit_when_nobody_does() {
    let mut fs = mount();
    let ino = fs.create(1, "f", &mkcreate(), None, 1).expect("create").ino;
    fs.write(ino, 0, b"abc", 2).unwrap();
    let ids = fs.fsync(ino, 3).unwrap();
    assert!(!is_covered(&fs.core, &ids));
    let mut wait = CoverWait::new();
    assert_eq!(wait.next(CoverEvent::Looked, false, false), CoverAction::Drive);
    assert!(fs.core.commit_one(true));
    assert!(is_covered(&fs.core, &ids));
    assert_eq!(wait.next(CoverEvent::Drove(true), true, false), CoverAction::Done(true));
    for _ in 0..COVER_PATIENCE {
        assert_eq!(wait.next(CoverEvent::Looked, false, true), CoverAction::Wait);
    }
    assert_eq!(wait.next(CoverEvent::Looked, false, true), CoverAction::LastDrive);
    assert_eq!(wait.next(CoverEvent::LastDrove(false), false, true), CoverAction::Done(false));
}

#[test]
fn keys_count_only_for_encrypted_files() {
    let sb = superblock();
    let mut inode = Inode::zeroed(9);
    assert_eq!(resolve_block_cipher_ctx(&inode, &sb, Some(4)).key, None);
    inode.encryption_algo = 1;
    assert_eq!(resolve_block_cipher_ctx(&inode, &sb, Some(4)).key, Some(4));
}

#[test]
fn masks_become_permission_bits() {
    assert_eq!(mask_to_perm(0), 0);
    assert_eq!(mask_to_perm(7), 7);
    assert_eq!(mask_to_perm(4 | 1), 5);
    let fs = mount();
    assert_eq!(fs.core.get_bg_desc().bg_block_bitmap, fs.core.sb().bitmap_start);
}

/// A small volume with this many free data blocks, and one that is set aside
/// for metadata.
fn small(free: u64) -> LionFS {
    let mut sb = superblock();
    sb.total_blocks = 64;
    sb.free_blocks = free + 1;
    let mut fs = mount_with(sb);
    fs.core.vol.fresh = vec![13, 12, 11, 10];
    fs
}

fn free_blocks(fs: &LionFS) -> u64 {
    fs.statfs(1).expect("statfs").free_blocks
}

fn file(fs: &mut LionFS, name: &str) -> u64 {
    fs.create(1, name, &mkcreate(), None, 1).expect("create").ino
}

#[test]
fn blocks_are_counted_when_a_commit_lands() {
    let mut fs = mount();
    let src = file(&mut fs, "src");
    land(&mut fs);
    assert_eq!(free_blocks(&fs), 8_000);

    // Buffered bytes take no block; flushed ones are counted when they land.
    fs.write(src, 0, &pattern(32 * BLOCK_SIZE, 1), 2).unwrap();
    assert_eq!(free_blocks(&fs), 8_000);
    let ids = fs.fsync(src, 3).unwrap();
    assert_eq!(free_blocks(&fs), 8_000);
    cover(&mut fs, &ids);
    assert_eq!(free_blocks(&fs), 8_000 - 32);
    let inode = fs.core.get_inode(src).unwrap();
    assert_eq!(inode.extent_count, 1);
    assert_eq!(inode.extents[0].logical_start, 0);
    assert_eq!(inode.extents[0].length, 32);

    // A clone takes no data block.
    let dst = file(&mut fs, "dst");
    fs.copy_file_range(src, 0, dst, 0, u64::MAX, 4).unwrap();
    land(&mut fs);
    assert_eq!(free_blocks(&fs), 8_000 - 32);
    let clone = fs.core.get_inode(dst).unwrap();
    assert_eq!(clone.extents[0].physical_start, inode.extents[0].physical_start);

    // A write to a shared block takes one, and leaves the source's alone.
    fs.write(dst, 8 * BLOCK_SIZE as u64, &pattern(BLOCK_SIZE, 9), 5).unwrap();
    let ids = fs.fsync(dst, 6).unwrap();
    cover(&mut fs, &ids);
    assert_eq!(free_blocks(&fs), 8_000 - 33);
    let redirected = fs.core.get_inode(dst).unwrap();
    assert_eq!(redirected.extent_count, 3);
    assert_eq!(redirected.extents[1].logical_start, 8);
    assert_eq!(redirected.extents[1].length, 1);
    let first = inode.extents[0].physical_start;
    assert!(!(first..first + 32).contains(&redirected.extents[1].physical_start));
    assert_eq!(fs.core.get_inode(src).unwrap().extents[0].length, 32);

    // A second write to it goes in place.
    fs.write(dst, 8 * BLOCK_SIZE as u64, b"again", 7).unwrap();
    let ids = fs.fsync(dst, 8).unwrap();
    cover(&mut fs, &ids);
    assert_eq!(free_blocks(&fs), 8_000 - 33);
    let kept = &pattern(32 * BLOCK_SIZE, 1)[8 * BLOCK_SIZE..9 * BLOCK_SIZE];
    assert_eq!(fs.read(src, 8 * BLOCK_SIZE as u64, BLOCK_SIZE as u32).unwrap(), kept);
    assert_eq!(fs.read(dst, 8 * BLOCK_SIZE as u64, 5).unwrap(), b"again");
}

#[test]
fn a_hole_takes_no_block_and_a_cut_gives_blocks_back() {
    let mut fs = mount();
    let ino = file(&mut fs, "f");
    fs.write(ino, 10 * BLOCK_SIZE as u64, &pattern(2 * BLOCK_SIZE, 4), 2).unwrap();
    fs.destroy(3);
    land(&mut fs);
    assert_eq!(free_blocks(&fs), 8_000 - 2);
    assert_eq!(fs.read(ino, 0, 4).unwrap(), vec![0; 4]);

    let cut = VfsSetAttr { size: Some(11 * BLOCK_SIZE as u64), ..VfsSetAttr::default() };
    assert_eq!(fs.setattr(ino, &cut, 4).unwrap().size, 11 * BLOCK_SIZE as u64);
    land(&mut fs);
    assert_eq!(free_blocks(&fs), 8_000 - 1);
    let empty = VfsSetAttr { size: Some(0), ..VfsSetAttr::default() };
    fs.setattr(ino, &empty, 5).unwrap();
    land(&mut fs);
    assert_eq!(free_blocks(&fs), 8_000);
    assert_eq!(fs.core.get_inode(ino).unwrap().extent_count, 0);
}

#[test]
fn a_file_with_many_runs_spills_them() {
    let mut fs = mount();
    let ino = file(&mut fs, "f");
    let other = file(&mut fs, "g");
    // Writing two files in turn leaves each with one run for each block.
    for block in 0..10u64 {
        for f in [ino, other] {
            fs.write(f, block * BLOCK_SIZE as u64, &pattern(BLOCK_SIZE, block as u8), 2).unwrap();
            fs.fsync(f, 3).unwrap();
        }
    }
    land(&mut fs);
    assert_eq!(free_blocks(&fs), 8_000 - 20);
    assert!(fs.core.get_inode(ino).unwrap().spill_extent_root != 0);
    let fs = remount(fs);
    for block in 0..10u64 {
        let got = fs.read(other, block * BLOCK_SIZE as u64, BLOCK_SIZE as u32).unwrap();
        assert_eq!(got, pattern(BLOCK_SIZE, block as u8));
    }
}

#[test]
fn a_full_volume_refuses_what_does_not_fit() {
    let mut fs = small(4);
    let ino = file(&mut fs, "f");
    fs.write(ino, 0, &pattern(5 * BLOCK_SIZE, 1), 2).unwrap();
    assert_eq!(fs.fsync(ino, 3).err().map(|e| e.errno), Some(posix::EIO));
    assert_eq!(fs.getattr(ino).unwrap().size, 0);
    fs.write(ino, 0, &pattern(4 * BLOCK_SIZE, 2), 4).unwrap();
    let ids = fs.fsync(ino, 5).unwrap();
    cover(&mut fs, &ids);
    assert_eq!(free_blocks(&fs), 1);
    assert_eq!(fs.read(ino, 0, 1 << 20).unwrap(), pattern(4 * BLOCK_SIZE, 2));
    // What is there can still be written in place.
    fs.write(ino, 0, b"in place", 6).unwrap();
    fs.fsync(ino, 7).unwrap();
    assert_eq!(fs.read(ino, 0, 8).unwrap(), b"in place");
    // Bytes that go past the buffer are refused at once.
    assert_eq!(
        fs.write_through(ino, 4 * BLOCK_SIZE as u64, b"more", 8).err().map(|e| e.errno),
        Some(posix::EIO)
    );
    assert_eq!(fs.getattr(ino).unwrap().size, 4 * BLOCK_SIZE as u64);
    let other = file(&mut fs, "g");
    let r = copy_file_contents(&mut fs.core.vol, &fs.core.pins, ino, other, 4096);
    assert_eq!(r.err().map(|e| e.kind), Some(ErrorKind::StorageFull));
}

#[test]
fn a_shared_tail_that_finds_no_block_is_not_cut() {
    let mut fs = small(1);
    let src = file(&mut fs, "a");
    fs.write(src, 0, &pattern(BLOCK_SIZE, 6), 2).unwrap();
    fs.fsync(src, 3).unwrap();
    let dst = file(&mut fs, "b");
    fs.copy_file_range(src, 0, dst, 0, u64::MAX, 4).unwrap();
    let cut = VfsSetAttr { size: Some(100), ..VfsSetAttr::default() };
    assert_eq!(fs.setattr(dst, &cut, 5).unwrap().size, BLOCK_SIZE as u64);
    // Without a byte left in the block, none has to be kept for it.
    let empty = VfsSetAttr { size: Some(0), ..VfsSetAttr::default() };
    assert_eq!(fs.setattr(dst, &empty, 6).unwrap().size, 0);
    assert_eq!(fs.read(src, 0, BLOCK_SIZE as u32).unwrap(), pattern(BLOCK_SIZE, 6));
}

#[test]
fn a_source_that_is_only_buffered_is_copied_whole() {
    let mut fs = mount();
    let src = file(&mut fs, "a");
    let dst = file(&mut fs, "b");
    let data = pattern(10_000, 7);
    fs.write(src, 0, &data, 2).unwrap();
    assert_eq!(fs.copy_file_range(src, 0, dst, 0, u64::MAX, 3).unwrap(), 10_000);
    assert_eq!(fs.read(dst, 0, 20_000).unwrap(), data);
    assert_eq!(fs.read(src, 0, 20_000).unwrap(), data);
    land(&mut fs);
    assert_eq!(free_blocks(&fs), 8_000 - 3);
    let fs = remount(fs);
    assert_eq!(fs.read(dst, 0, 20_000).unwrap(), data);
    assert_eq!(fs.read(src, 0, 20_000).unwrap(), data);
}

#[test]
fn a_mount_after_a_commit_finds_what_was_there() {
    let mut fs = mount();
    let ino = file(&mut fs, "kept");
    fs.write(ino, 5_000, b"synced", 2).unwrap();
    let ids = fs.fsync(ino, 3).unwrap();
    cover(&mut fs, &ids);
    fs.write(ino, 0, b"only buffered", 4).unwrap();
    let stamp = fs.core.node_stamp;
    let mut fs = remount(fs);
    assert_eq!(fs.lookup(1, "kept").unwrap().ino, ino);
    assert_eq!(fs.read(ino, 5_000, 100).unwrap(), b"synced");
    assert_eq!(fs.read(ino, 0, 4).unwrap(), vec![0; 4]);
    assert!(fs.core.node_stamp >= stamp);
    assert_eq!(free_blocks(&fs), 8_000 - 1);
    // It goes on from there.
    fs.write(ino, 0, b"more", 5).unwrap();
    fs.destroy(6);
    land(&mut fs);
    let fs = remount(fs);
    assert_eq!(fs.read(ino, 0, 4).unwrap(), b"more");
    assert_eq!(fs.read(ino, 5_000, 100).unwrap(), b"synced");
}

#[test]
fn an_image_without_a_superblock_is_not_mounted() {
    let image = StoredImage::load(parts(mount())).expect("load");
    let recovered = Recovered { current_tx_id: 0, highest_tx: 0 };
    let e = match LionFS::with_image(&[None], image, recovered, None, "image") {
        Ok(_) => panic!("mounted"),
        Err(e) => e,
    };
    assert_eq!(e.kind, ErrorKind::InvalidData);
    assert_eq!(e.message, "No valid superblock found or all checksums failed");
}

/// The parts of an image with a file of two blocks, a clone of it and a file
/// with a list of runs.
fn some_parts() -> (ImageParts, u64, u64) {
    let mut fs = mount();
    let (a, b) = (file(&mut fs, "a"), file(&mut fs, "b"));
    fs.write(a, 0, &pattern(5_000, 1), 2).unwrap();
    fs.copy_file_range(a, 0, b, 0, u64::MAX, 3).unwrap();
    for block in 0..10u64 {
        for name in ["c", "d"] {
            let ino = match fs.lookup(1, name) {
                Ok(attr) => attr.ino,
                Err(_) => file(&mut fs, name),
            };
            fs.write(ino, block * BLOCK_SIZE as u64, b"x", 4).unwrap();
            fs.fsync(ino, 5).unwrap();
        }
    }
    land(&mut fs);
    (parts(fs), a, b)
}

#[test]
fn a_sound_image_is_loaded() {
    let (p, a, b) = some_parts();
    assert!(p.is_sound());
    let sb = p.sb;
    let image = StoredImage::load(p).expect("load");
    let recovered = Recovered { current_tx_id: 0, highest_tx: 0 };
    let fs = match LionFS::with_image(&[Some(seal(sb))], image, recovered, None, "image") {
        Ok(fs) => fs,
        Err(e) => panic!("mount: {}", e.message),
    };
    assert_eq!(fs.read(a, 0, 10_000).unwrap(), pattern(5_000, 1));
    assert_eq!(fs.read(b, 0, 10_000).unwrap(), pattern(5_000, 1));
}

#[test]
fn an_image_that_is_not_sound_is_not_loaded() {
    // A block of a file that is not in use.
    let (mut p, a, _) = some_parts();
    let first = p.inodes.get(a).unwrap().extents[0].physical_start;
    p.area.used[first as usize] = false;
    assert!(StoredImage::load(p).is_none());

    // Bytes behind the end of a file.
    let (mut p, a, _) = some_parts();
    let first = p.inodes.get(a).unwrap().extents[0].physical_start;
    let mut block = vec![0u8; BLOCK_SIZE];
    block[5_000 - BLOCK_SIZE] = 1;
    p.area.blocks.insert(first + 1, block);
    assert!(StoredImage::load(p).is_none());

    // Blocks that two files share and nothing pins.
    let (mut p, _, _) = some_parts();
    p.pins.init_empty(p.sb.refcount_tree_root);
    assert!(StoredImage::load(p).is_none());

    // A list of runs that two files have, and one that is not there.
    let (mut p, a, _) = some_parts();
    let root = (0..9).filter_map(|n| p.inodes.get(n)).map(|i| i.spill_extent_root).max().unwrap();
    assert!(root != 0);
    let mut inode = *p.inodes.get(a).unwrap();
    inode.spill_extent_root = root;
    p.inodes.insert(a, inode);
    assert!(StoredImage::load(p).is_none());
    let (mut p, _, _) = some_parts();
    p.spills.remove(root);
    assert!(StoredImage::load(p).is_none());

    // A number that was not given out, and one that is not the inode's.
    let (mut p, _, _) = some_parts();
    p.sb.next_ino = 2;
    assert!(StoredImage::load(p).is_none());
    let (mut p, a, _) = some_parts();
    let mut inode = *p.inodes.get(a).unwrap();
    inode.ino = a + 1;
    p.inodes.insert(a, inode);
    assert!(StoredImage::load(p).is_none());

    // A name that occurs twice.
    let (mut p, _, _) = some_parts();
    let mut root_dir = p.dirs.take(1).unwrap();
    let again = root_dir[0].name.clone();
    root_dir[1].name = again;
    p.dirs.insert(1, root_dir);
    assert!(StoredImage::load(p).is_none());

    // A block that the allocator would give twice, and none.
    let (mut p, _, _) = some_parts();
    p.fresh = vec![7, 7];
    assert!(StoredImage::load(p).is_none());
    let (mut p, _, _) = some_parts();
    p.fresh = vec![0];
    assert!(StoredImage::load(p).is_none());
}

#[test]
fn a_new_volume_sets_blocks_aside_for_metadata() {
    let mut fs = match mount_sb(superblock()) {
        Ok(fs) => fs,
        Err(e) => panic!("mount: {}", e.message),
    };
    // 8,000 of 12,288 blocks are free: the first of them are set aside.
    assert_eq!(fs.core.vol.fresh.len(), 126);
    assert_eq!(fs.core.vol.fresh.last(), Some(&4_288));
    assert_eq!(fs.core.vol.fresh.first(), Some(&4_413));
    let mut root = Inode::zeroed(1);
    root.mode = posix::S_IFDIR | 0o755;
    root.links_count = 2;
    assert!(fs.core.put_inode(root));
    let ino = file(&mut fs, "f");
    fs.write(ino, 0, &pattern(20 * BLOCK_SIZE, 1), 2).unwrap();
    fs.fsync(ino, 3).unwrap();
    let inode = fs.core.get_inode(ino).unwrap();
    assert_eq!(inode.extents[0].physical_start, 4_414);
    assert_eq!(inode.extents[0].length, 20);
    assert_eq!(fs.core.vol.fresh.len(), 126);
}

#[test]
fn blocks_are_written_in_place_without_metadata_blocks() {
    let mut fs = small(12);
    fs.core.vol.fresh = vec![];
    let (a, b) = (file(&mut fs, "a"), file(&mut fs, "b"));
    // Three runs each, and no block for a longer list.
    for block in 0..3u64 {
        for f in [a, b] {
            fs.write(f, 2 * block * BLOCK_SIZE as u64, &pattern(BLOCK_SIZE, 1), 2).unwrap();
            fs.fsync(f, 3).unwrap();
        }
    }
    assert_eq!(fs.core.get_inode(a).unwrap().extent_count, 3);
    fs.write(a, 0, &pattern(BLOCK_SIZE, 8), 4).unwrap();
    fs.write(a, 4 * BLOCK_SIZE as u64, &pattern(BLOCK_SIZE, 9), 4).unwrap();
    fs.fsync(a, 5).unwrap();
    assert_eq!(fs.read(a, 0, BLOCK_SIZE as u32).unwrap(), pattern(BLOCK_SIZE, 8));
    // Three more runs do not fit.
    fs.write(a, 10 * BLOCK_SIZE as u64, &pattern(3 * BLOCK_SIZE, 2), 6).unwrap();
    assert_eq!(fs.fsync(a, 7).err().map(|e| e.errno), Some(posix::EIO));
    assert_eq!(fs.read(a, 0, BLOCK_SIZE as u32).unwrap(), pattern(BLOCK_SIZE, 8));
}
