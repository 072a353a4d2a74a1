//! The records that an image is made of, and the layout of the superblock.

use crate::bytes;
use crate::codec;
use vstd::prelude::*;

verus! {

/// Size of one storage block, in bytes.
pub const BLOCK_SIZE: usize = 4096;

/// Magic number of a superblock, "LIONFS" and two zero bytes.
pub const LIONFS_MAGIC: u64 = 0x0000_5346_4E4F_494C;

/// Bytes of a superblock that are not padding.
pub const SUPERBLOCK_FIELDS_SIZE: usize = 336;

/// A run of blocks of a file.
#[derive(Debug, Clone, Copy, PartialEq, Eq, Structural)]
pub struct Extent {
    /// First block of the file in the run.
    pub logical_start: u64,
    /// First block of the image in the run.
    pub physical_start: u64,
    /// Number of blocks.
    pub length: u64,
}

/// An inode of the inode tree.
#[derive(Debug, Clone, Copy)]
pub struct Inode {
    /// Inode number.
    pub ino: u64,
    /// File type and permissions.
    pub mode: u32,
    /// Owner.
    pub uid: u32,
    /// Group.
    pub gid: u32,
    /// Number of links.
    pub links_count: u32,
    /// Flags.
    pub flags: u32,
    /// Unused, zero.
    pub padding1: u32,
    /// File size in bytes.
    pub size: u64,
    /// Time of the last change of the inode.
    pub ctime: i64,
    /// Time of the last change of the contents.
    pub mtime: i64,
    /// Time of the last access.
    pub atime: i64,
    /// Number of extents in `extents`.
    pub extent_count: u32,
    /// Compression algorithm, 0 for none.
    pub compression_algo: u8,
    /// Encryption algorithm, 0 for none.
    pub encryption_algo: u8,
    /// Key of the encryption, 0 for none.
    pub key_id: u64,
    /// The first extents of the file.
    pub extents: [Extent; 7],
    /// Checksum.
    pub checksum: u32,
    /// Unused, zero.
    pub spill_pad_head: [u8; 4],
    /// Root of the tree of further extents, 0 for none.
    pub spill_extent_root: u64,
}

/// A block group.
#[derive(Debug, Clone, Copy)]
pub struct BlockGroupDescriptor {
    /// First block of the block bitmap.
    pub bg_block_bitmap: u64,
    /// First block of the inode bitmap.
    pub bg_inode_bitmap: u64,
    /// First block of the inode table.
    pub bg_inode_table: u64,
    /// Free blocks.
    pub bg_free_blocks_count: u32,
    /// Free inodes.
    pub bg_free_inodes_count: u32,
    /// Directories.
    pub bg_used_dirs_count: u32,
    /// Unused, zero.
    pub bg_padding: u32,
    /// Unused, zero.
    pub bg_reserved: [u8; 32],
}

/// A snapshot.
#[derive(Debug, Clone, Copy, PartialEq, Eq, Structural)]
pub struct SnapshotRecord {
    /// Snapshot id.
    pub id: u64,
    /// Id of the snapshot that it was made from, 0 for none.
    pub parent_id: u64,
    /// Time of creation, in seconds.
    pub creation_time: u64,
    /// Highest node stamp that the snapshot can reach.
    pub generation: u64,
    /// Root of the inode tree.
    pub inode_tree_root: u64,
    /// Root of the directory-name tree.
    pub dir_tree_root: u64,
    /// Root of the extent tree.
    pub extent_tree_root: u64,
    /// Root of the checksum tree.
    pub checksum_tree_root: u64,
    /// Root of the bad-block ledger.
    pub bad_blocks_root: u64,
    /// How the snapshot protects its data.
    pub flags: u32,
    /// Unused, zero.
    pub padding: u32,
}

/// A clone of a file.
#[derive(Debug, Clone, Copy, PartialEq, Eq, Structural)]
pub struct CloneRecord {
    /// Inode that was cloned.
    pub source_id: u64,
    /// Node stamp at which the clone was made.
    pub generation: u64,
    /// Blocks that the two files shared then.
    pub shared_blocks: u64,
}

/// The superblock.
#[derive(Debug, Clone, Copy, PartialEq, Eq, Structural)]
pub struct Superblock {
    /// [`LIONFS_MAGIC`].
    pub magic: u64,
    /// Version of the format.
    pub version: u32,
    /// Size of a block.
    pub block_size: u32,
    /// Blocks of the image.
    pub total_blocks: u64,
    /// Blocks that are free.
    pub free_blocks: u64,
    /// Inodes of the inode table.
    pub inode_count: u64,
    /// Inode of the root directory.
    pub root_inode: u64,
    /// Flags.
    pub flags: u32,
    /// Unused, zero.
    pub padding1: u32,
    /// First block of the block bitmap.
    pub bitmap_start: u64,
    /// First block of the inode table.
    pub inode_table_start: u64,
    /// First block of the data region.
    pub data_region_start: u64,
    /// Goes up with every write of the superblock.
    pub generation: u64,
    /// Checksum of the superblock with this field zero.
    pub checksum: u32,
    /// Unused, zero.
    pub padding_csum: u32,
    /// First block of the journal.
    pub journal_start: u64,
    /// Blocks of the journal.
    pub journal_blocks: u64,
    /// Block of the second copy, 0 for none.
    pub secondary_sb_1: u64,
    /// Block of the third copy, 0 for none.
    pub secondary_sb_2: u64,
    /// Number of block groups.
    pub block_group_count: u32,
    /// Blocks of a group.
    pub blocks_per_group: u32,
    /// Root of the inode tree.
    pub inode_tree_root: u64,
    /// Root of the directory-name tree.
    pub dir_tree_root: u64,
    /// Root of the extent tree.
    pub extent_tree_root: u64,
    /// Root of the free-space tree.
    pub freespace_tree_root: u64,
    /// Next inode number.
    pub next_ino: u64,
    /// Root of the checksum tree.
    pub checksum_tree_root: u64,
    /// Root of the bad-block ledger.
    pub bad_blocks_root: u64,
    /// Root of the snapshot registry.
    pub snapshot_tree_root: u64,
    /// Root of the clone registry.
    pub clone_tree_root: u64,
    /// Root of the coverage tree.
    pub refcount_tree_root: u64,
    /// Root of the subvolume tree.
    pub subvolume_tree_root: u64,
    /// Root of the space map.
    pub space_map_root: u64,
    /// Highest node stamp that a live snapshot can reach, 0 for none.
    pub last_snapshot_generation: u64,
    /// Root of the deduplication index.
    pub dedupe_tree_root: u64,
    /// Root of the key tree.
    pub key_tree_root: u64,
    /// Features that the image uses.
    pub fs_features: u64,
    /// Compression of new files, 0 for none.
    pub default_compression: u8,
    /// Encryption of new files, 0 for none.
    pub default_encryption: u8,
    /// Root of the device tree.
    pub device_tree_root: u64,
    /// Identity of the pool.
    pub pool_uuid: u128,
    /// RAID profile.
    pub raid_profile: u8,
    /// Blocks of a RAID chunk.
    pub chunk_size: u32,
    /// Root of the block-transform tree.
    pub crypto_tree_root: u64,
    /// Highest node stamp in use.
    pub node_generation: u64,
    /// Root of the attribute tree, 0 for none.
    pub xattr_tree_root: u64,
    /// Block of the key envelope, 0 for none.
    pub key_envelope_block: u64,
}

impl Inode {
    /// An inode of number `ino` with every other field zero.
    pub fn zeroed(ino: u64) -> (r: Self)
        ensures
            r.ino == ino,
            r.mode == 0,
            r.uid == 0,
            r.gid == 0,
            r.links_count == 0,
            r.flags == 0,
            r.padding1 == 0,
            r.size == 0,
            r.ctime == 0,
            r.mtime == 0,
            r.atime == 0,
            r.extent_count == 0,
            r.compression_algo == 0,
            r.encryption_algo == 0,
            r.key_id == 0,
            forall|i: int|
                0 <= i < 7 ==> #[trigger] r.extents@[i] == (Extent {
                    logical_start: 0,
                    physical_start: 0,
                    length: 0,
                }),
            r.checksum == 0,
            r.spill_extent_root == 0,
    {
        let none = Extent { logical_start: 0, physical_start: 0, length: 0 };
        Inode {
            ino,
            mode: 0,
            uid: 0,
            gid: 0,
            links_count: 0,
            flags: 0,
            padding1: 0,
            size: 0,
            ctime: 0,
            mtime: 0,
            atime: 0,
            extent_count: 0,
            compression_algo: 0,
            encryption_algo: 0,
            key_id: 0,
            extents: [none, none, none, none, none, none, none],
            checksum: 0,
            spill_pad_head: [0, 0, 0, 0],
            spill_extent_root: 0,
        }
    }
}

/// The number in `buf[at..at + n]`.
pub open spec fn field(buf: Seq<u8>, at: int, n: int) -> nat {
    codec::from_le(buf.subrange(at, at + n))
}

/// `n` zero bytes.
pub open spec fn zero_bytes(n: nat) -> Seq<u8> {
    Seq::new(n, |i: int| 0u8)
}

/// `sb` has the fields that the block holds.
pub open spec fn fields_of(sb: Superblock, buf: Seq<u8>) -> bool {
    &&& sb.magic == field(buf, 0, 8)
    &&& sb.version == field(buf, 8, 4)
    &&& sb.block_size == field(buf, 12, 4)
    &&& sb.total_blocks == field(buf, 16, 8)
    &&& sb.free_blocks == field(buf, 24, 8)
    &&& sb.inode_count == field(buf, 32, 8)
    &&& sb.root_inode == field(buf, 40, 8)
    &&& sb.flags == field(buf, 48, 4)
    &&& sb.padding1 == field(buf, 52, 4)
    &&& sb.bitmap_start == field(buf, 56, 8)
    &&& sb.inode_table_start == field(buf, 64, 8)
    &&& sb.data_region_start == field(buf, 72, 8)
    &&& sb.generation == field(buf, 80, 8)
    &&& sb.checksum == field(buf, 88, 4)
    &&& sb.padding_csum == field(buf, 92, 4)
    &&& sb.journal_start == field(buf, 96, 8)
    &&& sb.journal_blocks == field(buf, 104, 8)
    &&& sb.secondary_sb_1 == field(buf, 112, 8)
    &&& sb.secondary_sb_2 == field(buf, 120, 8)
    &&& sb.block_group_count == field(buf, 128, 4)
    &&& sb.blocks_per_group == field(buf, 132, 4)
    &&& sb.inode_tree_root == field(buf, 136, 8)
    &&& sb.dir_tree_root == field(buf, 144, 8)
    &&& sb.extent_tree_root == field(buf, 152, 8)
    &&& sb.freespace_tree_root == field(buf, 160, 8)
    &&& sb.next_ino == field(buf, 168, 8)
    &&& sb.checksum_tree_root == field(buf, 176, 8)
    &&& sb.bad_blocks_root == field(buf, 184, 8)
    &&& sb.snapshot_tree_root == field(buf, 192, 8)
    &&& sb.clone_tree_root == field(buf, 200, 8)
    &&& sb.refcount_tree_root == field(buf, 208, 8)
    &&& sb.subvolume_tree_root == field(buf, 216, 8)
    &&& sb.space_map_root == field(buf, 224, 8)
    &&& sb.last_snapshot_generation == field(buf, 232, 8)
    &&& sb.dedupe_tree_root == field(buf, 240, 8)
    &&& sb.key_tree_root == field(buf, 248, 8)
    &&& sb.fs_features == field(buf, 256, 8)
    &&& sb.default_compression == field(buf, 264, 1)
    &&& sb.default_encryption == field(buf, 265, 1)
    &&& sb.device_tree_root == field(buf, 272, 8)
    &&& sb.pool_uuid == field(buf, 280, 16)
    &&& sb.raid_profile == field(buf, 296, 1)
    &&& sb.chunk_size == field(buf, 300, 4)
    &&& sb.crypto_tree_root == field(buf, 304, 8)
    &&& sb.node_generation == field(buf, 312, 8)
    &&& sb.xattr_tree_root == field(buf, 320, 8)
    &&& sb.key_envelope_block == field(buf, 328, 8)
}

impl Superblock {
    /// The fields that say what the image is and how large.
    #[verifier::opaque]
    pub open spec fn wire_geometry(&self) -> Seq<u8> {
        codec::le(self.magic as nat, 8)
            + codec::le(self.version as nat, 4)
            + codec::le(self.block_size as nat, 4)
            + codec::le(self.total_blocks as nat, 8)
            + codec::le(self.free_blocks as nat, 8)
            + codec::le(self.inode_count as nat, 8)
            + codec::le(self.root_inode as nat, 8)
            + codec::le(self.flags as nat, 4)
            + codec::le(self.padding1 as nat, 4)
            + codec::le(self.bitmap_start as nat, 8)
            + codec::le(self.inode_table_start as nat, 8)
            + codec::le(self.data_region_start as nat, 8)
            + codec::le(self.generation as nat, 8)
    }

    /// The fields that say where its parts lie.
    #[verifier::opaque]
    pub open spec fn wire_location(&self) -> Seq<u8> {
        codec::le(self.checksum as nat, 4)
            + codec::le(self.padding_csum as nat, 4)
            + codec::le(self.journal_start as nat, 8)
            + codec::le(self.journal_blocks as nat, 8)
            + codec::le(self.secondary_sb_1 as nat, 8)
            + codec::le(self.secondary_sb_2 as nat, 8)
            + codec::le(self.block_group_count as nat, 4)
            + codec::le(self.blocks_per_group as nat, 4)
            + codec::le(self.inode_tree_root as nat, 8)
            + codec::le(self.dir_tree_root as nat, 8)
            + codec::le(self.extent_tree_root as nat, 8)
            + codec::le(self.freespace_tree_root as nat, 8)
    }

    /// The fields that say where its parts lie, without the checksum.
    #[verifier::opaque]
    pub open spec fn wire_location_tail(&self) -> Seq<u8> {
        codec::le(self.padding_csum as nat, 4)
            + codec::le(self.journal_start as nat, 8)
            + codec::le(self.journal_blocks as nat, 8)
            + codec::le(self.secondary_sb_1 as nat, 8)
            + codec::le(self.secondary_sb_2 as nat, 8)
            + codec::le(self.block_group_count as nat, 4)
            + codec::le(self.blocks_per_group as nat, 4)
            + codec::le(self.inode_tree_root as nat, 8)
            + codec::le(self.dir_tree_root as nat, 8)
            + codec::le(self.extent_tree_root as nat, 8)
            + codec::le(self.freespace_tree_root as nat, 8)
    }

    /// The fields that say the roots of its trees.
    #[verifier::opaque]
    pub open spec fn wire_roots(&self) -> Seq<u8> {
        codec::le(self.next_ino as nat, 8)
            + codec::le(self.checksum_tree_root as nat, 8)
            + codec::le(self.bad_blocks_root as nat, 8)
            + codec::le(self.snapshot_tree_root as nat, 8)
            + codec::le(self.clone_tree_root as nat, 8)
            + codec::le(self.refcount_tree_root as nat, 8)
            + codec::le(self.subvolume_tree_root as nat, 8)
            + codec::le(self.space_map_root as nat, 8)
            + codec::le(self.last_snapshot_generation as nat, 8)
            + codec::le(self.dedupe_tree_root as nat, 8)
            + codec::le(self.key_tree_root as nat, 8)
            + codec::le(self.fs_features as nat, 8)
    }

    /// The fields that say features, defaults and the pool.
    #[verifier::opaque]
    pub open spec fn wire_settings(&self) -> Seq<u8> {
        codec::le(self.default_compression as nat, 1)
            + codec::le(self.default_encryption as nat, 1)
            + zero_bytes(6)
            + codec::le(self.device_tree_root as nat, 8)
            + codec::le(self.pool_uuid as nat, 16)
            + codec::le(self.raid_profile as nat, 1)
            + zero_bytes(3)
            + codec::le(self.chunk_size as nat, 4)
            + codec::le(self.crypto_tree_root as nat, 8)
            + codec::le(self.node_generation as nat, 8)
            + codec::le(self.xattr_tree_root as nat, 8)
            + codec::le(self.key_envelope_block as nat, 8)
    }

    /// The fields, in the order of the layout.
    pub open spec fn fields_wire(&self) -> Seq<u8> {
        self.wire_geometry() + self.wire_location() + self.wire_roots() + self.wire_settings()
    }

    /// The block that holds the superblock.
    pub open spec fn wire(&self) -> Seq<u8> {
        self.fields_wire() + zero_bytes((BLOCK_SIZE - SUPERBLOCK_FIELDS_SIZE) as nat)
    }

    /// A superblock with every field zero.
    pub fn zeroed() -> (r: Self)
        ensures
            fields_of(r, zero_bytes(BLOCK_SIZE as nat)),
    {
        let buf = bytes::zeros(BLOCK_SIZE);
        Self::from_block(buf.as_slice())
    }

    /// The superblock that a block holds.
    pub fn from_block(buf: &[u8]) -> (r: Self)
        requires
            buf@.len() >= SUPERBLOCK_FIELDS_SIZE,
        ensures
            fields_of(r, buf@),
    {
        proof {
            codec::lemma_pow256_values();
        }
        Superblock {
        magic: codec::get_le(buf, 0, 8) as u64,
        version: codec::get_le(buf, 8, 4) as u32,
        block_size: codec::get_le(buf, 12, 4) as u32,
        total_blocks: codec::get_le(buf, 16, 8) as u64,
        free_blocks: codec::get_le(buf, 24, 8) as u64,
        inode_count: codec::get_le(buf, 32, 8) as u64,
        root_inode: codec::get_le(buf, 40, 8) as u64,
        flags: codec::get_le(buf, 48, 4) as u32,
        padding1: codec::get_le(buf, 52, 4) as u32,
        bitmap_start: codec::get_le(buf, 56, 8) as u64,
        inode_table_start: codec::get_le(buf, 64, 8) as u64,
        data_region_start: codec::get_le(buf, 72, 8) as u64,
        generation: codec::get_le(buf, 80, 8) as u64,
        checksum: codec::get_le(buf, 88, 4) as u32,
        padding_csum: codec::get_le(buf, 92, 4) as u32,
        journal_start: codec::get_le(buf, 96, 8) as u64,
        journal_blocks: codec::get_le(buf, 104, 8) as u64,
        secondary_sb_1: codec::get_le(buf, 112, 8) as u64,
        secondary_sb_2: codec::get_le(buf, 120, 8) as u64,
        block_group_count: codec::get_le(buf, 128, 4) as u32,
        blocks_per_group: codec::get_le(buf, 132, 4) as u32,
        inode_tree_root: codec::get_le(buf, 136, 8) as u64,
        dir_tree_root: codec::get_le(buf, 144, 8) as u64,
        extent_tree_root: codec::get_le(buf, 152, 8) as u64,
        freespace_tree_root: codec::get_le(buf, 160, 8) as u64,
        next_ino: codec::get_le(buf, 168, 8) as u64,
        checksum_tree_root: codec::get_le(buf, 176, 8) as u64,
        bad_blocks_root: codec::get_le(buf, 184, 8) as u64,
        snapshot_tree_root: codec::get_le(buf, 192, 8) as u64,
        clone_tree_root: codec::get_le(buf, 200, 8) as u64,
        refcount_tree_root: codec::get_le(buf, 208, 8) as u64,
        subvolume_tree_root: codec::get_le(buf, 216, 8) as u64,
        space_map_root: codec::get_le(buf, 224, 8) as u64,
        last_snapshot_generation: codec::get_le(buf, 232, 8) as u64,
        dedupe_tree_root: codec::get_le(buf, 240, 8) as u64,
        key_tree_root: codec::get_le(buf, 248, 8) as u64,
        fs_features: codec::get_le(buf, 256, 8) as u64,
        default_compression: codec::get_le(buf, 264, 1) as u8,
        default_encryption: codec::get_le(buf, 265, 1) as u8,
        device_tree_root: codec::get_le(buf, 272, 8) as u64,
        pool_uuid: codec::get_le(buf, 280, 16),
        raid_profile: codec::get_le(buf, 296, 1) as u8,
        chunk_size: codec::get_le(buf, 300, 4) as u32,
        crypto_tree_root: codec::get_le(buf, 304, 8) as u64,
        node_generation: codec::get_le(buf, 312, 8) as u64,
        xattr_tree_root: codec::get_le(buf, 320, 8) as u64,
        key_envelope_block: codec::get_le(buf, 328, 8) as u64,
        }
    }

    fn put_geometry(&self, buf: &mut Vec<u8>)
        ensures
            final(buf)@ == old(buf)@ + self.wire_geometry(),
    {
        reveal(Superblock::wire_geometry);
        codec::put_le(buf, self.magic as u128, 8);
        codec::put_le(buf, self.version as u128, 4);
        codec::put_le(buf, self.block_size as u128, 4);
        codec::put_le(buf, self.total_blocks as u128, 8);
        codec::put_le(buf, self.free_blocks as u128, 8);
        codec::put_le(buf, self.inode_count as u128, 8);
        codec::put_le(buf, self.root_inode as u128, 8);
        codec::put_le(buf, self.flags as u128, 4);
        codec::put_le(buf, self.padding1 as u128, 4);
        codec::put_le(buf, self.bitmap_start as u128, 8);
        codec::put_le(buf, self.inode_table_start as u128, 8);
        codec::put_le(buf, self.data_region_start as u128, 8);
        codec::put_le(buf, self.generation as u128, 8);
        assert(buf@ =~= old(buf)@ + self.wire_geometry());
    }

    fn put_location(&self, buf: &mut Vec<u8>)
        ensures
            final(buf)@ == old(buf)@ + self.wire_location(),
    {
        reveal(Superblock::wire_location);
        codec::put_le(buf, self.checksum as u128, 4);
        codec::put_le(buf, self.padding_csum as u128, 4);
        codec::put_le(buf, self.journal_start as u128, 8);
        codec::put_le(buf, self.journal_blocks as u128, 8);
        codec::put_le(buf, self.secondary_sb_1 as u128, 8);
        codec::put_le(buf, self.secondary_sb_2 as u128, 8);
        codec::put_le(buf, self.block_group_count as u128, 4);
        codec::put_le(buf, self.blocks_per_group as u128, 4);
        codec::put_le(buf, self.inode_tree_root as u128, 8);
        codec::put_le(buf, self.dir_tree_root as u128, 8);
        codec::put_le(buf, self.extent_tree_root as u128, 8);
        codec::put_le(buf, self.freespace_tree_root as u128, 8);
        assert(buf@ =~= old(buf)@ + self.wire_location());
    }

    fn put_roots(&self, buf: &mut Vec<u8>)
        ensures
            final(buf)@ == old(buf)@ + self.wire_roots(),
    {
        reveal(Superblock::wire_roots);
        codec::put_le(buf, self.next_ino as u128, 8);
        codec::put_le(buf, self.checksum_tree_root as u128, 8);
        codec::put_le(buf, self.bad_blocks_root as u128, 8);
        codec::put_le(buf, self.snapshot_tree_root as u128, 8);
        codec::put_le(buf, self.clone_tree_root as u128, 8);
        codec::put_le(buf, self.refcount_tree_root as u128, 8);
        codec::put_le(buf, self.subvolume_tree_root as u128, 8);
        codec::put_le(buf, self.space_map_root as u128, 8);
        codec::put_le(buf, self.last_snapshot_generation as u128, 8);
        codec::put_le(buf, self.dedupe_tree_root as u128, 8);
        codec::put_le(buf, self.key_tree_root as u128, 8);
        codec::put_le(buf, self.fs_features as u128, 8);
        assert(buf@ =~= old(buf)@ + self.wire_roots());
    }

    fn put_settings(&self, buf: &mut Vec<u8>)
        ensures
            final(buf)@ == old(buf)@ + self.wire_settings(),
    {
        reveal(Superblock::wire_settings);
        codec::put_le(buf, self.default_compression as u128, 1);
        codec::put_le(buf, self.default_encryption as u128, 1);
        bytes::append(buf, bytes::zeros(6).as_slice());
        codec::put_le(buf, self.device_tree_root as u128, 8);
        codec::put_le(buf, self.pool_uuid, 16);
        codec::put_le(buf, self.raid_profile as u128, 1);
        bytes::append(buf, bytes::zeros(3).as_slice());
        codec::put_le(buf, self.chunk_size as u128, 4);
        codec::put_le(buf, self.crypto_tree_root as u128, 8);
        codec::put_le(buf, self.node_generation as u128, 8);
        codec::put_le(buf, self.xattr_tree_root as u128, 8);
        codec::put_le(buf, self.key_envelope_block as u128, 8);
        assert(buf@ =~= old(buf)@ + self.wire_settings());
    }

    /// The block that holds the superblock.
    pub fn to_block(&self) -> (r: Vec<u8>)
        ensures
            r@ == self.wire(),
            r@.len() == BLOCK_SIZE,
    {
        let mut buf: Vec<u8> = Vec::new();
        self.put_geometry(&mut buf);
        self.put_location(&mut buf);
        self.put_roots(&mut buf);
        self.put_settings(&mut buf);
        bytes::append(&mut buf, bytes::zeros(BLOCK_SIZE - SUPERBLOCK_FIELDS_SIZE).as_slice());
        proof {
            assert(buf@ =~= self.wire());
            lemma_superblock_fields(*self);
        }
        buf
    }
}

proof fn lemma_wire_geometry(sb: Superblock)
    ensures
        sb.wire_geometry().len() == 88,
        codec::from_le(sb.wire_geometry().subrange(0, 8)) == sb.magic,
        codec::from_le(sb.wire_geometry().subrange(8, 12)) == sb.version,
        codec::from_le(sb.wire_geometry().subrange(12, 16)) == sb.block_size,
        codec::from_le(sb.wire_geometry().subrange(16, 24)) == sb.total_blocks,
        codec::from_le(sb.wire_geometry().subrange(24, 32)) == sb.free_blocks,
        codec::from_le(sb.wire_geometry().subrange(32, 40)) == sb.inode_count,
        codec::from_le(sb.wire_geometry().subrange(40, 48)) == sb.root_inode,
        codec::from_le(sb.wire_geometry().subrange(48, 52)) == sb.flags,
        codec::from_le(sb.wire_geometry().subrange(52, 56)) == sb.padding1,
        codec::from_le(sb.wire_geometry().subrange(56, 64)) == sb.bitmap_start,
        codec::from_le(sb.wire_geometry().subrange(64, 72)) == sb.inode_table_start,
        codec::from_le(sb.wire_geometry().subrange(72, 80)) == sb.data_region_start,
        codec::from_le(sb.wire_geometry().subrange(80, 88)) == sb.generation,
{
    reveal(Superblock::wire_geometry);
    let b = sb.wire_geometry();
    codec::lemma_pow256_values();
    codec::lemma_le_len(sb.magic as nat, 8);
    codec::lemma_from_le_of_le(sb.magic as nat, 8);
    codec::lemma_le_len(sb.version as nat, 4);
    codec::lemma_from_le_of_le(sb.version as nat, 4);
    codec::lemma_le_len(sb.block_size as nat, 4);
    codec::lemma_from_le_of_le(sb.block_size as nat, 4);
    codec::lemma_le_len(sb.total_blocks as nat, 8);
    codec::lemma_from_le_of_le(sb.total_blocks as nat, 8);
    codec::lemma_le_len(sb.free_blocks as nat, 8);
    codec::lemma_from_le_of_le(sb.free_blocks as nat, 8);
    codec::lemma_le_len(sb.inode_count as nat, 8);
    codec::lemma_from_le_of_le(sb.inode_count as nat, 8);
    codec::lemma_le_len(sb.root_inode as nat, 8);
    codec::lemma_from_le_of_le(sb.root_inode as nat, 8);
    codec::lemma_le_len(sb.flags as nat, 4);
    codec::lemma_from_le_of_le(sb.flags as nat, 4);
    codec::lemma_le_len(sb.padding1 as nat, 4);
    codec::lemma_from_le_of_le(sb.padding1 as nat, 4);
    codec::lemma_le_len(sb.bitmap_start as nat, 8);
    codec::lemma_from_le_of_le(sb.bitmap_start as nat, 8);
    codec::lemma_le_len(sb.inode_table_start as nat, 8);
    codec::lemma_from_le_of_le(sb.inode_table_start as nat, 8);
    codec::lemma_le_len(sb.data_region_start as nat, 8);
    codec::lemma_from_le_of_le(sb.data_region_start as nat, 8);
    codec::lemma_le_len(sb.generation as nat, 8);
    codec::lemma_from_le_of_le(sb.generation as nat, 8);
    assert(b.subrange(0, 8) =~= codec::le(sb.magic as nat, 8));
    assert(b.subrange(8, 12) =~= codec::le(sb.version as nat, 4));
    assert(b.subrange(12, 16) =~= codec::le(sb.block_size as nat, 4));
    assert(b.subrange(16, 24) =~= codec::le(sb.total_blocks as nat, 8));
    assert(b.subrange(24, 32) =~= codec::le(sb.free_blocks as nat, 8));
    assert(b.subrange(32, 40) =~= codec::le(sb.inode_count as nat, 8));
    assert(b.subrange(40, 48) =~= codec::le(sb.root_inode as nat, 8));
    assert(b.subrange(48, 52) =~= codec::le(sb.flags as nat, 4));
    assert(b.subrange(52, 56) =~= codec::le(sb.padding1 as nat, 4));
    assert(b.subrange(56, 64) =~= codec::le(sb.bitmap_start as nat, 8));
    assert(b.subrange(64, 72) =~= codec::le(sb.inode_table_start as nat, 8));
    assert(b.subrange(72, 80) =~= codec::le(sb.data_region_start as nat, 8));
    assert(b.subrange(80, 88) =~= codec::le(sb.generation as nat, 8));
}

proof fn lemma_wire_location(sb: Superblock)
    ensures
        sb.wire_location().len() == 80,
        codec::from_le(sb.wire_location().subrange(0, 4)) == sb.checksum,
        codec::from_le(sb.wire_location().subrange(4, 8)) == sb.padding_csum,
        codec::from_le(sb.wire_location().subrange(8, 16)) == sb.journal_start,
        codec::from_le(sb.wire_location().subrange(16, 24)) == sb.journal_blocks,
        codec::from_le(sb.wire_location().subrange(24, 32)) == sb.secondary_sb_1,
        codec::from_le(sb.wire_location().subrange(32, 40)) == sb.secondary_sb_2,
        codec::from_le(sb.wire_location().subrange(40, 44)) == sb.block_group_count,
        codec::from_le(sb.wire_location().subrange(44, 48)) == sb.blocks_per_group,
        codec::from_le(sb.wire_location().subrange(48, 56)) == sb.inode_tree_root,
        codec::from_le(sb.wire_location().subrange(56, 64)) == sb.dir_tree_root,
        codec::from_le(sb.wire_location().subrange(64, 72)) == sb.extent_tree_root,
        codec::from_le(sb.wire_location().subrange(72, 80)) == sb.freespace_tree_root,
{
    reveal(Superblock::wire_location);
    let b = sb.wire_location();
    codec::lemma_pow256_values();
    codec::lemma_le_len(sb.checksum as nat, 4);
    codec::lemma_from_le_of_le(sb.checksum as nat, 4);
    codec::lemma_le_len(sb.padding_csum as nat, 4);
    codec::lemma_from_le_of_le(sb.padding_csum as nat, 4);
    codec::lemma_le_len(sb.journal_start as nat, 8);
    codec::lemma_from_le_of_le(sb.journal_start as nat, 8);
    codec::lemma_le_len(sb.journal_blocks as nat, 8);
    codec::lemma_from_le_of_le(sb.journal_blocks as nat, 8);
    codec::lemma_le_len(sb.secondary_sb_1 as nat, 8);
    codec::lemma_from_le_of_le(sb.secondary_sb_1 as nat, 8);
    codec::lemma_le_len(sb.secondary_sb_2 as nat, 8);
    codec::lemma_from_le_of_le(sb.secondary_sb_2 as nat, 8);
    codec::lemma_le_len(sb.block_group_count as nat, 4);
    codec::lemma_from_le_of_le(sb.block_group_count as nat, 4);
    codec::lemma_le_len(sb.blocks_per_group as nat, 4);
    codec::lemma_from_le_of_le(sb.blocks_per_group as nat, 4);
    codec::lemma_le_len(sb.inode_tree_root as nat, 8);
    codec::lemma_from_le_of_le(sb.inode_tree_root as nat, 8);
    codec::lemma_le_len(sb.dir_tree_root as nat, 8);
    codec::lemma_from_le_of_le(sb.dir_tree_root as nat, 8);
    codec::lemma_le_len(sb.extent_tree_root as nat, 8);
    codec::lemma_from_le_of_le(sb.extent_tree_root as nat, 8);
    codec::lemma_le_len(sb.freespace_tree_root as nat, 8);
    codec::lemma_from_le_of_le(sb.freespace_tree_root as nat, 8);
    assert(b.subrange(0, 4) =~= codec::le(sb.checksum as nat, 4));
    assert(b.subrange(4, 8) =~= codec::le(sb.padding_csum as nat, 4));
    assert(b.subrange(8, 16) =~= codec::le(sb.journal_start as nat, 8));
    assert(b.subrange(16, 24) =~= codec::le(sb.journal_blocks as nat, 8));
    assert(b.subrange(24, 32) =~= codec::le(sb.secondary_sb_1 as nat, 8));
    assert(b.subrange(32, 40) =~= codec::le(sb.secondary_sb_2 as nat, 8));
    assert(b.subrange(40, 44) =~= codec::le(sb.block_group_count as nat, 4));
    assert(b.subrange(44, 48) =~= codec::le(sb.blocks_per_group as nat, 4));
    assert(b.subrange(48, 56) =~= codec::le(sb.inode_tree_root as nat, 8));
    assert(b.subrange(56, 64) =~= codec::le(sb.dir_tree_root as nat, 8));
    assert(b.subrange(64, 72) =~= codec::le(sb.extent_tree_root as nat, 8));
    assert(b.subrange(72, 80) =~= codec::le(sb.freespace_tree_root as nat, 8));
}

proof fn lemma_wire_roots(sb: Superblock)
    ensures
        sb.wire_roots().len() == 96,
        codec::from_le(sb.wire_roots().subrange(0, 8)) == sb.next_ino,
        codec::from_le(sb.wire_roots().subrange(8, 16)) == sb.checksum_tree_root,
        codec::from_le(sb.wire_roots().subrange(16, 24)) == sb.bad_blocks_root,
        codec::from_le(sb.wire_roots().subrange(24, 32)) == sb.snapshot_tree_root,
        codec::from_le(sb.wire_roots().subrange(32, 40)) == sb.clone_tree_root,
        codec::from_le(sb.wire_roots().subrange(40, 48)) == sb.refcount_tree_root,
        codec::from_le(sb.wire_roots().subrange(48, 56)) == sb.subvolume_tree_root,
        codec::from_le(sb.wire_roots().subrange(56, 64)) == sb.space_map_root,
        codec::from_le(sb.wire_roots().subrange(64, 72)) == sb.last_snapshot_generation,
        codec::from_le(sb.wire_roots().subrange(72, 80)) == sb.dedupe_tree_root,
        codec::from_le(sb.wire_roots().subrange(80, 88)) == sb.key_tree_root,
        codec::from_le(sb.wire_roots().subrange(88, 96)) == sb.fs_features,
{
    reveal(Superblock::wire_roots);
    let b = sb.wire_roots();
    codec::lemma_pow256_values();
    codec::lemma_le_len(sb.next_ino as nat, 8);
    codec::lemma_from_le_of_le(sb.next_ino as nat, 8);
    codec::lemma_le_len(sb.checksum_tree_root as nat, 8);
    codec::lemma_from_le_of_le(sb.checksum_tree_root as nat, 8);
    codec::lemma_le_len(sb.bad_blocks_root as nat, 8);
    codec::lemma_from_le_of_le(sb.bad_blocks_root as nat, 8);
    codec::lemma_le_len(sb.snapshot_tree_root as nat, 8);
    codec::lemma_from_le_of_le(sb.snapshot_tree_root as nat, 8);
    codec::lemma_le_len(sb.clone_tree_root as nat, 8);
    codec::lemma_from_le_of_le(sb.clone_tree_root as nat, 8);
    codec::lemma_le_len(sb.refcount_tree_root as nat, 8);
    codec::lemma_from_le_of_le(sb.refcount_tree_root as nat, 8);
    codec::lemma_le_len(sb.subvolume_tree_root as nat, 8);
    codec::lemma_from_le_of_le(sb.subvolume_tree_root as nat, 8);
    codec::lemma_le_len(sb.space_map_root as nat, 8);
    codec::lemma_from_le_of_le(sb.space_map_root as nat, 8);
    codec::lemma_le_len(sb.last_snapshot_generation as nat, 8);
    codec::lemma_from_le_of_le(sb.last_snapshot_generation as nat, 8);
    codec::lemma_le_len(sb.dedupe_tree_root as nat, 8);
    codec::lemma_from_le_of_le(sb.dedupe_tree_root as nat, 8);
    codec::lemma_le_len(sb.key_tree_root as nat, 8);
    codec::lemma_from_le_of_le(sb.key_tree_root as nat, 8);
    codec::lemma_le_len(sb.fs_features as nat, 8);
    codec::lemma_from_le_of_le(sb.fs_features as nat, 8);
    assert(b.subrange(0, 8) =~= codec::le(sb.next_ino as nat, 8));
    assert(b.subrange(8, 16) =~= codec::le(sb.checksum_tree_root as nat, 8));
    assert(b.subrange(16, 24) =~= codec::le(sb.bad_blocks_root as nat, 8));
    assert(b.subrange(24, 32) =~= codec::le(sb.snapshot_tree_root as nat, 8));
    assert(b.subrange(32, 40) =~= codec::le(sb.clone_tree_root as nat, 8));
    assert(b.subrange(40, 48) =~= codec::le(sb.refcount_tree_root as nat, 8));
    assert(b.subrange(48, 56) =~= codec::le(sb.subvolume_tree_root as nat, 8));
    assert(b.subrange(56, 64) =~= codec::le(sb.space_map_root as nat, 8));
    assert(b.subrange(64, 72) =~= codec::le(sb.last_snapshot_generation as nat, 8));
    assert(b.subrange(72, 80) =~= codec::le(sb.dedupe_tree_root as nat, 8));
    assert(b.subrange(80, 88) =~= codec::le(sb.key_tree_root as nat, 8));
    assert(b.subrange(88, 96) =~= codec::le(sb.fs_features as nat, 8));
}

proof fn lemma_wire_settings(sb: Superblock)
    ensures
        sb.wire_settings().len() == 72,
        codec::from_le(sb.wire_settings().subrange(0, 1)) == sb.default_compression,
        codec::from_le(sb.wire_settings().subrange(1, 2)) == sb.default_encryption,
        codec::from_le(sb.wire_settings().subrange(8, 16)) == sb.device_tree_root,
        codec::from_le(sb.wire_settings().subrange(16, 32)) == sb.pool_uuid,
        codec::from_le(sb.wire_settings().subrange(32, 33)) == sb.raid_profile,
        codec::from_le(sb.wire_settings().subrange(36, 40)) == sb.chunk_size,
        codec::from_le(sb.wire_settings().subrange(40, 48)) == sb.crypto_tree_root,
        codec::from_le(sb.wire_settings().subrange(48, 56)) == sb.node_generation,
        codec::from_le(sb.wire_settings().subrange(56, 64)) == sb.xattr_tree_root,
        codec::from_le(sb.wire_settings().subrange(64, 72)) == sb.key_envelope_block,
{
    reveal(Superblock::wire_settings);
    let b = sb.wire_settings();
    codec::lemma_pow256_values();
    codec::lemma_le_len(sb.default_compression as nat, 1);
    codec::lemma_from_le_of_le(sb.default_compression as nat, 1);
    codec::lemma_le_len(sb.default_encryption as nat, 1);
    codec::lemma_from_le_of_le(sb.default_encryption as nat, 1);
    codec::lemma_le_len(sb.device_tree_root as nat, 8);
    codec::lemma_from_le_of_le(sb.device_tree_root as nat, 8);
    codec::lemma_le_len(sb.pool_uuid as nat, 16);
    codec::lemma_from_le_of_le(sb.pool_uuid as nat, 16);
    codec::lemma_le_len(sb.raid_profile as nat, 1);
    codec::lemma_from_le_of_le(sb.raid_profile as nat, 1);
    codec::lemma_le_len(sb.chunk_size as nat, 4);
    codec::lemma_from_le_of_le(sb.chunk_size as nat, 4);
    codec::lemma_le_len(sb.crypto_tree_root as nat, 8);
    codec::lemma_from_le_of_le(sb.crypto_tree_root as nat, 8);
    codec::lemma_le_len(sb.node_generation as nat, 8);
    codec::lemma_from_le_of_le(sb.node_generation as nat, 8);
    codec::lemma_le_len(sb.xattr_tree_root as nat, 8);
    codec::lemma_from_le_of_le(sb.xattr_tree_root as nat, 8);
    codec::lemma_le_len(sb.key_envelope_block as nat, 8);
    codec::lemma_from_le_of_le(sb.key_envelope_block as nat, 8);
    assert(b.subrange(0, 1) =~= codec::le(sb.default_compression as nat, 1));
    assert(b.subrange(1, 2) =~= codec::le(sb.default_encryption as nat, 1));
    assert(b.subrange(8, 16) =~= codec::le(sb.device_tree_root as nat, 8));
    assert(b.subrange(16, 32) =~= codec::le(sb.pool_uuid as nat, 16));
    assert(b.subrange(32, 33) =~= codec::le(sb.raid_profile as nat, 1));
    assert(b.subrange(36, 40) =~= codec::le(sb.chunk_size as nat, 4));
    assert(b.subrange(40, 48) =~= codec::le(sb.crypto_tree_root as nat, 8));
    assert(b.subrange(48, 56) =~= codec::le(sb.node_generation as nat, 8));
    assert(b.subrange(56, 64) =~= codec::le(sb.xattr_tree_root as nat, 8));
    assert(b.subrange(64, 72) =~= codec::le(sb.key_envelope_block as nat, 8));
}

/// Each field is where the layout says, and is read back from there.
pub proof fn lemma_superblock_fields(sb: Superblock)
    ensures
        sb.wire().len() == BLOCK_SIZE,
        fields_of(sb, sb.wire()),
{
    let b = sb.wire();
    lemma_wire_geometry(sb);
    lemma_wire_location(sb);
    lemma_wire_roots(sb);
    lemma_wire_settings(sb);
    assert(b.subrange(0, 8) =~= sb.wire_geometry().subrange(0, 8));
    assert(b.subrange(8, 12) =~= sb.wire_geometry().subrange(8, 12));
    assert(b.subrange(12, 16) =~= sb.wire_geometry().subrange(12, 16));
    assert(b.subrange(16, 24) =~= sb.wire_geometry().subrange(16, 24));
    assert(b.subrange(24, 32) =~= sb.wire_geometry().subrange(24, 32));
    assert(b.subrange(32, 40) =~= sb.wire_geometry().subrange(32, 40));
    assert(b.subrange(40, 48) =~= sb.wire_geometry().subrange(40, 48));
    assert(b.subrange(48, 52) =~= sb.wire_geometry().subrange(48, 52));
    assert(b.subrange(52, 56) =~= sb.wire_geometry().subrange(52, 56));
    assert(b.subrange(56, 64) =~= sb.wire_geometry().subrange(56, 64));
    assert(b.subrange(64, 72) =~= sb.wire_geometry().subrange(64, 72));
    assert(b.subrange(72, 80) =~= sb.wire_geometry().subrange(72, 80));
    assert(b.subrange(80, 88) =~= sb.wire_geometry().subrange(80, 88));
    assert(b.subrange(88, 92) =~= sb.wire_location().subrange(0, 4));
    assert(b.subrange(92, 96) =~= sb.wire_location().subrange(4, 8));
    assert(b.subrange(96, 104) =~= sb.wire_location().subrange(8, 16));
    assert(b.subrange(104, 112) =~= sb.wire_location().subrange(16, 24));
    assert(b.subrange(112, 120) =~= sb.wire_location().subrange(24, 32));
    assert(b.subrange(120, 128) =~= sb.wire_location().subrange(32, 40));
    assert(b.subrange(128, 132) =~= sb.wire_location().subrange(40, 44));
    assert(b.subrange(132, 136) =~= sb.wire_location().subrange(44, 48));
    assert(b.subrange(136, 144) =~= sb.wire_location().subrange(48, 56));
    assert(b.subrange(144, 152) =~= sb.wire_location().subrange(56, 64));
    assert(b.subrange(152, 160) =~= sb.wire_location().subrange(64, 72));
    assert(b.subrange(160, 168) =~= sb.wire_location().subrange(72, 80));
    assert(b.subrange(168, 176) =~= sb.wire_roots().subrange(0, 8));
    assert(b.subrange(176, 184) =~= sb.wire_roots().subrange(8, 16));
    assert(b.subrange(184, 192) =~= sb.wire_roots().subrange(16, 24));
    assert(b.subrange(192, 200) =~= sb.wire_roots().subrange(24, 32));
    assert(b.subrange(200, 208) =~= sb.wire_roots().subrange(32, 40));
    assert(b.subrange(208, 216) =~= sb.wire_roots().subrange(40, 48));
    assert(b.subrange(216, 224) =~= sb.wire_roots().subrange(48, 56));
    assert(b.subrange(224, 232) =~= sb.wire_roots().subrange(56, 64));
    assert(b.subrange(232, 240) =~= sb.wire_roots().subrange(64, 72));
    assert(b.subrange(240, 248) =~= sb.wire_roots().subrange(72, 80));
    assert(b.subrange(248, 256) =~= sb.wire_roots().subrange(80, 88));
    assert(b.subrange(256, 264) =~= sb.wire_roots().subrange(88, 96));
    assert(b.subrange(264, 265) =~= sb.wire_settings().subrange(0, 1));
    assert(b.subrange(265, 266) =~= sb.wire_settings().subrange(1, 2));
    assert(b.subrange(272, 280) =~= sb.wire_settings().subrange(8, 16));
    assert(b.subrange(280, 296) =~= sb.wire_settings().subrange(16, 32));
    assert(b.subrange(296, 297) =~= sb.wire_settings().subrange(32, 33));
    assert(b.subrange(300, 304) =~= sb.wire_settings().subrange(36, 40));
    assert(b.subrange(304, 312) =~= sb.wire_settings().subrange(40, 48));
    assert(b.subrange(312, 320) =~= sb.wire_settings().subrange(48, 56));
    assert(b.subrange(320, 328) =~= sb.wire_settings().subrange(56, 64));
    assert(b.subrange(328, 336) =~= sb.wire_settings().subrange(64, 72));
}

/// Writing over the middle part of three replaces it.
proof fn lemma_overwrite_middle(head: Seq<u8>, mid: Seq<u8>, tail: Seq<u8>, other: Seq<u8>)
    requires
        mid.len() == other.len(),
    ensures
        bytes::overwritten(head + mid + tail, head.len() as int, other) == head + other + tail,
{
    assert(bytes::overwritten(head + mid + tail, head.len() as int, other) =~= head + other + tail);
}

/// The second part begins with the checksum.
proof fn lemma_location_tail(sb: Superblock)
    ensures
        sb.wire_location() == codec::le(sb.checksum as nat, 4) + sb.wire_location_tail(),
{
    reveal(Superblock::wire_location);
    reveal(Superblock::wire_location_tail);
    assert(sb.wire_location() =~= codec::le(sb.checksum as nat, 4) + sb.wire_location_tail());
}

/// A superblock with another checksum is stored in the same bytes but for the
/// four of the checksum field.
pub proof fn lemma_wire_without_checksum(sb: Superblock)
    ensures
        (Superblock { checksum: 0, ..sb }).wire() == bytes::overwritten(
            sb.wire(),
            88,
            Seq::new(4, |i: int| 0u8),
        ),
{
    let sb0 = Superblock { checksum: 0, ..sb };
    let zeros = Seq::new(4, |i: int| 0u8);
    assert(sb0.wire_geometry() == sb.wire_geometry()) by {
        reveal(Superblock::wire_geometry);
    }
    assert(sb0.wire_roots() == sb.wire_roots()) by {
        reveal(Superblock::wire_roots);
    }
    assert(sb0.wire_settings() == sb.wire_settings()) by {
        reveal(Superblock::wire_settings);
    }
    lemma_wire_geometry(sb);
    lemma_wire_location(sb);
    lemma_wire_location(sb0);
    lemma_location_tail(sb);
    lemma_location_tail(sb0);
    codec::lemma_le_len(sb.checksum as nat, 4);
    codec::lemma_le_len(0, 4);
    assert(codec::le(0, 4) =~= zeros) by {
        reveal_with_fuel(codec::le, 5);
    }
    let tail = sb.wire_location_tail();
    assert(sb0.wire_location_tail() == tail) by {
        reveal(Superblock::wire_location_tail);
    }
    lemma_overwrite_middle(
        sb.wire_geometry(),
        codec::le(sb.checksum as nat, 4),
        tail + sb.wire_roots() + sb.wire_settings() + zero_bytes(
            (BLOCK_SIZE - SUPERBLOCK_FIELDS_SIZE) as nat,
        ),
        zeros,
    );
    let rest = tail + sb.wire_roots() + sb.wire_settings() + zero_bytes(
        (BLOCK_SIZE - SUPERBLOCK_FIELDS_SIZE) as nat,
    );
    assert(sb.wire() =~= sb.wire_geometry() + codec::le(sb.checksum as nat, 4) + rest);
    assert(sb0.wire() =~= sb.wire_geometry() + zeros + rest);
}

/// The superblock that is read from a written block is the one that was
/// written.
pub proof fn superblock_roundtrip(sb: Superblock, back: Superblock)
    requires
        fields_of(back, sb.wire()),
    ensures
        back == sb,
{
    lemma_superblock_fields(sb);
}

/// Where each field of a superblock lies in its block, lowest byte first.
pub proof fn superblock_layout(sb: Superblock)
    ensures
        sb.wire().len() == 4096,
        codec::from_le(sb.wire().subrange(0, 8)) == sb.magic,
        codec::from_le(sb.wire().subrange(8, 12)) == sb.version,
        codec::from_le(sb.wire().subrange(12, 16)) == sb.block_size,
        codec::from_le(sb.wire().subrange(16, 24)) == sb.total_blocks,
        codec::from_le(sb.wire().subrange(24, 32)) == sb.free_blocks,
        codec::from_le(sb.wire().subrange(32, 40)) == sb.inode_count,
        codec::from_le(sb.wire().subrange(40, 48)) == sb.root_inode,
        codec::from_le(sb.wire().subrange(48, 52)) == sb.flags,
        codec::from_le(sb.wire().subrange(56, 64)) == sb.bitmap_start,
        codec::from_le(sb.wire().subrange(64, 72)) == sb.inode_table_start,
        codec::from_le(sb.wire().subrange(72, 80)) == sb.data_region_start,
        codec::from_le(sb.wire().subrange(80, 88)) == sb.generation,
        codec::from_le(sb.wire().subrange(88, 92)) == sb.checksum,
        codec::from_le(sb.wire().subrange(96, 104)) == sb.journal_start,
        codec::from_le(sb.wire().subrange(104, 112)) == sb.journal_blocks,
        codec::from_le(sb.wire().subrange(112, 120)) == sb.secondary_sb_1,
        codec::from_le(sb.wire().subrange(120, 128)) == sb.secondary_sb_2,
        codec::from_le(sb.wire().subrange(128, 132)) == sb.block_group_count,
        codec::from_le(sb.wire().subrange(132, 136)) == sb.blocks_per_group,
        codec::from_le(sb.wire().subrange(136, 144)) == sb.inode_tree_root,
        codec::from_le(sb.wire().subrange(144, 152)) == sb.dir_tree_root,
        codec::from_le(sb.wire().subrange(152, 160)) == sb.extent_tree_root,
        codec::from_le(sb.wire().subrange(160, 168)) == sb.freespace_tree_root,
        codec::from_le(sb.wire().subrange(168, 176)) == sb.next_ino,
        codec::from_le(sb.wire().subrange(176, 184)) == sb.checksum_tree_root,
        codec::from_le(sb.wire().subrange(184, 192)) == sb.bad_blocks_root,
        codec::from_le(sb.wire().subrange(192, 200)) == sb.snapshot_tree_root,
        codec::from_le(sb.wire().subrange(200, 208)) == sb.clone_tree_root,
        codec::from_le(sb.wire().subrange(208, 216)) == sb.refcount_tree_root,
        codec::from_le(sb.wire().subrange(216, 224)) == sb.subvolume_tree_root,
        codec::from_le(sb.wire().subrange(224, 232)) == sb.space_map_root,
        codec::from_le(sb.wire().subrange(232, 240)) == sb.last_snapshot_generation,
        codec::from_le(sb.wire().subrange(240, 248)) == sb.dedupe_tree_root,
        codec::from_le(sb.wire().subrange(248, 256)) == sb.key_tree_root,
        codec::from_le(sb.wire().subrange(256, 264)) == sb.fs_features,
        codec::from_le(sb.wire().subrange(264, 265)) == sb.default_compression,
        codec::from_le(sb.wire().subrange(265, 266)) == sb.default_encryption,
        codec::from_le(sb.wire().subrange(272, 280)) == sb.device_tree_root,
        codec::from_le(sb.wire().subrange(280, 296)) == sb.pool_uuid,
        codec::from_le(sb.wire().subrange(296, 297)) == sb.raid_profile,
        codec::from_le(sb.wire().subrange(300, 304)) == sb.chunk_size,
        codec::from_le(sb.wire().subrange(304, 312)) == sb.crypto_tree_root,
        codec::from_le(sb.wire().subrange(312, 320)) == sb.node_generation,
        codec::from_le(sb.wire().subrange(320, 328)) == sb.xattr_tree_root,
        codec::from_le(sb.wire().subrange(328, 336)) == sb.key_envelope_block,
{
    lemma_superblock_fields(sb);
}

} // verus!
