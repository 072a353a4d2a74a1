//! The variable-length inode record: a fixed core, and either the file's
//! bytes themselves or the root of its extent tree.
//!
//! Layout (little endian):
//!
//! ```text
//! Offset  Field                    Width
//! 0       ino                      16 B
//! 16      mode / nlink / uid / gid 4 x u32
//! 32      size                     16 B
//! 48      generation               8 B
//! 56      flags                    4 B
//! 60      inline_len (INLINE set)  4 B, payload from 64
//! 60      extent_root (otherwise)  6 B, then 2 reserved zero bytes
//! ```

use crate::bytes;
use crate::codec;
use crate::posix::{S_IFDIR, S_IFLNK, S_IFMT, S_IFREG};
use vstd::prelude::*;

verus! {

/// Size of the record before an inline payload.
pub const INODE_V3_CORE_SIZE: usize = 64;

/// Largest inline payload: a 4 KiB leaf value less the core.
pub const INODE_V3_MAX_INLINE: usize = 4032;

/// A leaf is flushed once it holds this many bytes.
pub const LEAF_FLUSH_THRESHOLD: usize = 2048;

/// Share of a flushed leaf that is padding, in 256ths.
pub const LEAF_PADDING_FRAC_256: u32 = 64;

/// The payload is in the record.
pub const FLAG_V3_INLINE: u32 = 1;

/// The file's data is compressed.
pub const FLAG_V3_COMPRESSED: u32 = 2;

/// The file's data is encrypted.
pub const FLAG_V3_ENCRYPTED: u32 = 4;

/// The file's data is deduplicated.
pub const FLAG_V3_DEDUP: u32 = 8;

/// A 128-bit inode number.
pub type Ino128 = u128;

/// An inode.
#[derive(Debug, Clone, PartialEq, Eq)]
pub struct InodeV3 {
    /// Inode number.
    pub ino: Ino128,
    /// File type and permissions.
    pub mode: u32,
    /// Number of links.
    pub nlink: u32,
    /// Owner.
    pub uid: u32,
    /// Group.
    pub gid: u32,
    /// File size in bytes.
    pub size: u128,
    /// Goes up with every rewrite.
    pub generation: u64,
    /// The `FLAG_V3_*` bits.
    pub flags: u32,
    /// The file's bytes, when they are in the record.
    pub inline_payload: Vec<u8>,
    /// Root of the extent tree, when they are not.
    pub extent_root: u64,
}

/// The flag bits say that the payload is in the record.
pub open spec fn inline_flag(flags: u32) -> bool {
    flags & FLAG_V3_INLINE != 0
}

/// No flag bit without a meaning is set.
pub open spec fn known_flags(flags: u32) -> bool {
    flags & !(FLAG_V3_INLINE | FLAG_V3_COMPRESSED | FLAG_V3_ENCRYPTED | FLAG_V3_DEDUP) == 0
}

/// The number in `buf[at..at + n]`.
pub open spec fn field(buf: Seq<u8>, at: int, n: int) -> nat {
    codec::from_le(buf.subrange(at, at + n))
}

/// The buffer holds one record, whole and without excess.
pub open spec fn is_record(buf: Seq<u8>) -> bool {
    let flags = field(buf, 56, 4) as u32;
    &&& buf.len() >= INODE_V3_CORE_SIZE
    &&& known_flags(flags)
    &&& if inline_flag(flags) {
        let n = field(buf, 60, 4);
        &&& n <= INODE_V3_MAX_INLINE
        &&& buf.len() == INODE_V3_CORE_SIZE + n
        &&& field(buf, 32, 16) == n
    } else {
        &&& buf.len() == INODE_V3_CORE_SIZE + 4
        &&& buf[66] == 0
        &&& buf[67] == 0
    }
}

impl InodeV3 {
    /// The record of this inode.
    pub open spec fn wire(&self) -> Seq<u8> {
        codec::le(self.ino as nat, 16) + codec::le(self.mode as nat, 4) + codec::le(
            self.nlink as nat,
            4,
        ) + codec::le(self.uid as nat, 4) + codec::le(self.gid as nat, 4) + codec::le(
            self.size as nat,
            16,
        ) + codec::le(self.generation as nat, 8) + codec::le(self.flags as nat, 4) + self.tail()
    }

    /// The part of the record that depends on where the file's bytes are.
    pub open spec fn tail(&self) -> Seq<u8> {
        if inline_flag(self.flags) {
            codec::le(self.inline_payload@.len(), 4) + self.inline_payload@
        } else {
            codec::le(self.extent_root as nat, 6) + seq![0u8, 0u8]
        }
    }

    /// The inode is one that a record can hold: an inline inode's size is
    /// that of its payload, which fits; any other has an extent root of 48
    /// bits and no payload.
    pub open spec fn canonical(&self) -> bool {
        &&& known_flags(self.flags)
        &&& if inline_flag(self.flags) {
            &&& self.inline_payload@.len() <= INODE_V3_MAX_INLINE
            &&& self.size == self.inline_payload@.len()
            &&& self.extent_root == 0
        } else {
            &&& self.inline_payload@.len() == 0
            &&& self.extent_root < 0x1_0000_0000_0000
        }
    }

    /// The inode is the one whose record is `buf`.
    pub open spec fn decoded_from(&self, buf: Seq<u8>) -> bool {
        &&& self.ino == field(buf, 0, 16)
        &&& self.mode == field(buf, 16, 4)
        &&& self.nlink == field(buf, 20, 4)
        &&& self.uid == field(buf, 24, 4)
        &&& self.gid == field(buf, 28, 4)
        &&& self.size == field(buf, 32, 16)
        &&& self.generation == field(buf, 48, 8)
        &&& self.flags == field(buf, 56, 4)
        &&& if inline_flag(self.flags) {
            &&& self.inline_payload@ == buf.subrange(64, buf.len() as int)
            &&& self.extent_root == 0
        } else {
            &&& self.inline_payload@ == Seq::<u8>::empty()
            &&& self.extent_root == field(buf, 60, 6)
        }
    }

    /// A new regular file.
    pub fn new_file(ino: Ino128, mode: u32, uid: u32, gid: u32) -> (r: Self)
        ensures
            r == (InodeV3 {
                ino,
                mode: mode | S_IFREG,
                nlink: 1,
                uid,
                gid,
                size: 0,
                generation: 1,
                flags: 0,
                inline_payload: r.inline_payload,
                extent_root: 0,
            }),
            r.inline_payload@ == Seq::<u8>::empty(),
    {
        InodeV3 {
            ino,
            mode: mode | S_IFREG,
            nlink: 1,
            uid,
            gid,
            size: 0,
            generation: 1,
            flags: 0,
            inline_payload: Vec::new(),
            extent_root: 0,
        }
    }

    /// A new directory.
    pub fn new_dir(ino: Ino128, mode: u32, uid: u32, gid: u32) -> (r: Self)
        ensures
            r == (InodeV3 {
                ino,
                mode: mode | S_IFDIR,
                nlink: 2,
                uid,
                gid,
                size: 0,
                generation: 1,
                flags: 0,
                inline_payload: r.inline_payload,
                extent_root: 0,
            }),
            r.inline_payload@ == Seq::<u8>::empty(),
    {
        InodeV3 {
            ino,
            mode: mode | S_IFDIR,
            nlink: 2,
            uid,
            gid,
            size: 0,
            generation: 1,
            flags: 0,
            inline_payload: Vec::new(),
            extent_root: 0,
        }
    }

    /// Whether the payload is in the record.
    pub fn is_inline(&self) -> (r: bool)
        ensures
            r == inline_flag(self.flags),
    {
        self.flags & FLAG_V3_INLINE != 0
    }

    /// Whether this is a directory.
    pub fn is_dir(&self) -> (r: bool)
        ensures
            r == (self.mode & S_IFMT == S_IFDIR),
    {
        self.mode & S_IFMT == S_IFDIR
    }

    /// Whether this is a regular file.
    pub fn is_regular(&self) -> (r: bool)
        ensures
            r == (self.mode & S_IFMT == S_IFREG),
    {
        self.mode & S_IFMT == S_IFREG
    }

    /// Whether this is a symbolic link.
    pub fn is_symlink(&self) -> (r: bool)
        ensures
            r == (self.mode & S_IFMT == S_IFLNK),
    {
        self.mode & S_IFMT == S_IFLNK
    }

    /// Whether a payload of this length fits in a record.
    pub fn fits_inline(payload_len: usize) -> (r: bool)
        ensures
            r == (payload_len <= INODE_V3_MAX_INLINE),
    {
        payload_len <= INODE_V3_MAX_INLINE
    }

    /// Stores the payload in the record if it fits; otherwise the inode is
    /// left as it is and the file has to go to extents.
    pub fn try_store_inline(&mut self, payload: &[u8]) -> (stored: bool)
        ensures
            stored == (payload@.len() <= INODE_V3_MAX_INLINE),
            !stored ==> *final(self) == *old(self),
            stored ==> *final(self) == (InodeV3 {
                size: payload@.len() as u128,
                flags: old(self).flags | FLAG_V3_INLINE,
                extent_root: 0,
                generation: next_generation(old(self).generation),
                inline_payload: final(self).inline_payload,
                ..*old(self)
            }) && final(self).inline_payload@ == payload@,
    {
        if !Self::fits_inline(payload.len()) {
            return false;
        }
        self.inline_payload = bytes::copy_range(payload, 0, payload.len());
        assert(self.inline_payload@ =~= payload@);
        self.size = payload.len() as u128;
        self.flags = self.flags | FLAG_V3_INLINE;
        self.extent_root = 0;
        self.generation = self.generation.wrapping_add(1);
        true
    }

    /// Retires the inline payload: the file's bytes are in the extents
    /// rooted at `root` from now on.
    pub fn spill_to_extents(&mut self, root: u64)
        ensures
            *final(self) == (InodeV3 {
                flags: old(self).flags & !FLAG_V3_INLINE,
                extent_root: root,
                generation: next_generation(old(self).generation),
                inline_payload: final(self).inline_payload,
                ..*old(self)
            }),
            final(self).inline_payload@ == Seq::<u8>::empty(),
    {
        self.inline_payload = Vec::new();
        self.flags = self.flags & !FLAG_V3_INLINE;
        self.extent_root = root;
        self.generation = self.generation.wrapping_add(1);
    }

    /// The record of this inode.
    pub fn serialize(&self) -> (r: Vec<u8>)
        requires
            self.inline_payload@.len() <= u32::MAX,
        ensures
            r@ == self.wire(),
    {
        let mut buf: Vec<u8> = Vec::new();
        codec::put_le(&mut buf, self.ino, 16);
        codec::put_le(&mut buf, self.mode as u128, 4);
        codec::put_le(&mut buf, self.nlink as u128, 4);
        codec::put_le(&mut buf, self.uid as u128, 4);
        codec::put_le(&mut buf, self.gid as u128, 4);
        codec::put_le(&mut buf, self.size, 16);
        codec::put_le(&mut buf, self.generation as u128, 8);
        codec::put_le(&mut buf, self.flags as u128, 4);
        if self.is_inline() {
            codec::put_le(&mut buf, self.inline_payload.len() as u128, 4);
            bytes::append(&mut buf, self.inline_payload.as_slice());
        } else {
            codec::put_le(&mut buf, self.extent_root as u128, 6);
            buf.push(0);
            buf.push(0);
        }
        assert(buf@ =~= self.wire());
        buf
    }

    /// The inode whose record is `buf`; `None` if `buf` is not a record.
    pub fn deserialize(buf: &[u8]) -> (r: Option<Self>)
        ensures
            r is Some <==> is_record(buf@),
            r matches Some(inode) ==> inode.decoded_from(buf@) && inode.canonical(),
    {
        if buf.len() < INODE_V3_CORE_SIZE {
            return None;
        }
        proof {
            codec::lemma_pow256_values();
        }
        let ino: u128 = codec::get_le(buf, 0, 16);
        let mode: u32 = codec::get_le(buf, 16, 4) as u32;
        let nlink: u32 = codec::get_le(buf, 20, 4) as u32;
        let uid: u32 = codec::get_le(buf, 24, 4) as u32;
        let gid: u32 = codec::get_le(buf, 28, 4) as u32;
        let size: u128 = codec::get_le(buf, 32, 16);
        let generation: u64 = codec::get_le(buf, 48, 8) as u64;
        let flags: u32 = codec::get_le(buf, 56, 4) as u32;
        if flags & !(FLAG_V3_INLINE | FLAG_V3_COMPRESSED | FLAG_V3_ENCRYPTED | FLAG_V3_DEDUP) != 0 {
            return None;
        }
        if flags & FLAG_V3_INLINE != 0 {
            let inline_len: usize = codec::get_le(buf, 60, 4) as usize;
            if inline_len > INODE_V3_MAX_INLINE {
                return None;
            }
            if buf.len() != INODE_V3_CORE_SIZE + inline_len {
                return None;
            }
            if size != inline_len as u128 {
                return None;
            }
            let inline_payload = bytes::copy_range(buf, 64, 64 + inline_len);
            Some(
                InodeV3 {
                    ino,
                    mode,
                    nlink,
                    uid,
                    gid,
                    size,
                    generation,
                    flags,
                    inline_payload,
                    extent_root: 0,
                },
            )
        } else {
            if buf.len() != INODE_V3_CORE_SIZE + 4 {
                return None;
            }
            if buf[66] != 0 || buf[67] != 0 {
                return None;
            }
            let extent_root: u64 = codec::get_le(buf, 60, 6) as u64;
            Some(
                InodeV3 {
                    ino,
                    mode,
                    nlink,
                    uid,
                    gid,
                    size,
                    generation,
                    flags,
                    inline_payload: Vec::new(),
                    extent_root,
                },
            )
        }
    }
}

/// The generation after one rewrite.
pub open spec fn next_generation(g: u64) -> u64 {
    if g == u64::MAX {
        0
    } else {
        (g + 1) as u64
    }
}

/// Reading a record that was written gives the inode back: the record of a
/// canonical inode is a record, the inode is what it decodes to, and whatever
/// it decodes to has the same fields and payload.
pub proof fn record_roundtrip(inode: InodeV3, back: InodeV3)
    requires
        inode.canonical(),
    ensures
        is_record(inode.wire()),
        inode.decoded_from(inode.wire()),
        back.decoded_from(inode.wire()) ==> {
            &&& back == (InodeV3 { inline_payload: back.inline_payload, ..inode })
            &&& back.inline_payload@ == inode.inline_payload@
        },
{
    let w = inode.wire();
    codec::lemma_pow256_values();
    codec::lemma_le_len(inode.ino as nat, 16);
    codec::lemma_le_len(inode.mode as nat, 4);
    codec::lemma_le_len(inode.nlink as nat, 4);
    codec::lemma_le_len(inode.uid as nat, 4);
    codec::lemma_le_len(inode.gid as nat, 4);
    codec::lemma_le_len(inode.size as nat, 16);
    codec::lemma_le_len(inode.generation as nat, 8);
    codec::lemma_le_len(inode.flags as nat, 4);
    codec::lemma_le_len(inode.inline_payload@.len(), 4);
    codec::lemma_le_len(inode.extent_root as nat, 6);
    codec::lemma_from_le_of_le(inode.ino as nat, 16);
    codec::lemma_from_le_of_le(inode.mode as nat, 4);
    codec::lemma_from_le_of_le(inode.nlink as nat, 4);
    codec::lemma_from_le_of_le(inode.uid as nat, 4);
    codec::lemma_from_le_of_le(inode.gid as nat, 4);
    codec::lemma_from_le_of_le(inode.size as nat, 16);
    codec::lemma_from_le_of_le(inode.generation as nat, 8);
    codec::lemma_from_le_of_le(inode.flags as nat, 4);
    assert(w.subrange(0, 16) =~= codec::le(inode.ino as nat, 16));
    assert(w.subrange(16, 20) =~= codec::le(inode.mode as nat, 4));
    assert(w.subrange(20, 24) =~= codec::le(inode.nlink as nat, 4));
    assert(w.subrange(24, 28) =~= codec::le(inode.uid as nat, 4));
    assert(w.subrange(28, 32) =~= codec::le(inode.gid as nat, 4));
    assert(w.subrange(32, 48) =~= codec::le(inode.size as nat, 16));
    assert(w.subrange(48, 56) =~= codec::le(inode.generation as nat, 8));
    assert(w.subrange(56, 60) =~= codec::le(inode.flags as nat, 4));
    if inline_flag(inode.flags) {
        codec::lemma_from_le_of_le(inode.inline_payload@.len(), 4);
        assert(w.subrange(60, 64) =~= codec::le(inode.inline_payload@.len(), 4));
        assert(w.subrange(64, w.len() as int) =~= inode.inline_payload@);
    } else {
        codec::lemma_from_le_of_le(inode.extent_root as nat, 6);
        assert(w.subrange(60, 66) =~= codec::le(inode.extent_root as nat, 6));
        assert(inode.inline_payload@ =~= Seq::<u8>::empty());
        if back.decoded_from(w) {
            assert(back.inline_payload@ =~= inode.inline_payload@);
        }
    }
}

/// Writing an inode that was read gives the record back, byte for byte.
pub proof fn reencoding_is_identity(buf: Seq<u8>, inode: InodeV3)
    requires
        is_record(buf),
        inode.decoded_from(buf),
    ensures
        inode.wire() == buf,
{
    codec::lemma_le_of_from_le(buf.subrange(0, 16));
    codec::lemma_le_of_from_le(buf.subrange(16, 20));
    codec::lemma_le_of_from_le(buf.subrange(20, 24));
    codec::lemma_le_of_from_le(buf.subrange(24, 28));
    codec::lemma_le_of_from_le(buf.subrange(28, 32));
    codec::lemma_le_of_from_le(buf.subrange(32, 48));
    codec::lemma_le_of_from_le(buf.subrange(48, 56));
    codec::lemma_le_of_from_le(buf.subrange(56, 60));
    if inline_flag(inode.flags) {
        codec::lemma_le_of_from_le(buf.subrange(60, 64));
        assert(inode.inline_payload@.len() == field(buf, 60, 4));
    } else {
        codec::lemma_le_of_from_le(buf.subrange(60, 66));
    }
    assert(inode.wire() =~= buf);
}

/// An inode that a payload was stored in, or that was spilled to a 48-bit
/// root, can be written and read back.
pub proof fn stored_and_spilled_inodes_are_canonical(flags: u32)
    requires
        known_flags(flags),
    ensures
        known_flags(flags | FLAG_V3_INLINE),
        inline_flag(flags | FLAG_V3_INLINE),
        known_flags(flags & !FLAG_V3_INLINE),
        !inline_flag(flags & !FLAG_V3_INLINE),
{
    assert(flags & !(1u32 | 2u32 | 4u32 | 8u32) == 0 ==> (flags | 1u32) & !(1u32 | 2u32 | 4u32
        | 8u32) == 0 && (flags | 1u32) & 1u32 != 0 && (flags & !1u32) & !(1u32 | 2u32 | 4u32 | 8u32)
        == 0 && (flags & !1u32) & 1u32 == 0) by (bit_vector);
}

/// An entry of a packed leaf: an inode, and the bytes of the next entry that
/// stand in its place.
#[derive(Debug, Clone, PartialEq, Eq)]
pub struct PackedEntry {
    pub inode: InodeV3,
    /// The leading bytes of the next entry.
    pub borrowed_tail: Vec<u8>,
}

/// Packs records into leaves: one after the other, until a leaf is full enough
/// to be flushed.
#[derive(Debug)]
pub struct TailPacker {
    /// The records since the last flush.
    pub pending: Vec<u8>,
    /// How many records those are.
    pub pending_records: usize,
    /// How often a leaf was flushed.
    pub flushes: usize,
    /// The bytes of all flushed leaves.
    pub bytes_written: usize,
}

/// What a packer holds.
pub struct PackerView {
    pub pending: Seq<u8>,
    pub pending_records: nat,
    pub flushes: nat,
    pub bytes_written: nat,
}

/// The leaf that records are flushed as: they and a third of their size of
/// zeros, rounded up, so that a quarter of the leaf is free.
pub open spec fn leaf_of(pending: Seq<u8>) -> Seq<u8> {
    pending + Seq::new(((pending.len() + 2) / 3) as nat, |i: int| 0u8)
}

impl PackerView {
    /// The packer once its leaf is flushed.
    pub open spec fn flushed(self) -> PackerView {
        PackerView {
            pending: Seq::empty(),
            pending_records: 0,
            flushes: self.flushes + 1,
            bytes_written: self.bytes_written + leaf_of(self.pending).len(),
        }
    }

    /// The packer once a record is added, before any flush.
    pub open spec fn with_record(self, record: Seq<u8>) -> PackerView {
        PackerView {
            pending: self.pending + record,
            pending_records: self.pending_records + 1,
            ..self
        }
    }

    /// The numbers of a flush fit.
    pub open spec fn can_flush(self) -> bool {
        &&& self.flushes < usize::MAX
        &&& self.bytes_written + leaf_of(self.pending).len() <= usize::MAX
    }
}

impl Default for TailPacker {
    fn default() -> (r: Self)
        ensures
            r@ == (PackerView {
                pending: Seq::empty(),
                pending_records: 0,
                flushes: 0,
                bytes_written: 0,
            }),
    {
        TailPacker { pending: Vec::new(), pending_records: 0, flushes: 0, bytes_written: 0 }
    }
}

impl TailPacker {
    /// What the packer holds.
    pub open spec fn view(&self) -> PackerView {
        PackerView {
            pending: self.pending@,
            pending_records: self.pending_records as nat,
            flushes: self.flushes as nat,
            bytes_written: self.bytes_written as nat,
        }
    }

    /// A packer that holds nothing.
    #[must_use]
    pub fn new() -> (r: Self)
        ensures
            r@ == (PackerView {
                pending: Seq::empty(),
                pending_records: 0,
                flushes: 0,
                bytes_written: 0,
            }),
    {
        Self::default()
    }

    /// Adds the record of an inode; the leaf, if it is full enough now.
    pub fn append(&mut self, inode: &InodeV3) -> (r: Option<Vec<u8>>)
        requires
            inode.inline_payload@.len() <= u32::MAX,
            old(self).pending_records < usize::MAX,
            old(self)@.with_record(inode.wire()).can_flush(),
        ensures
            ({
                let added = old(self)@.with_record(inode.wire());
                if added.pending.len() >= LEAF_FLUSH_THRESHOLD {
                    &&& r matches Some(leaf) && leaf@ == leaf_of(added.pending)
                    &&& final(self)@ == added.flushed()
                } else {
                    &&& r is None
                    &&& final(self)@ == added
                }
            }),
    {
        let record = inode.serialize();
        bytes::append(&mut self.pending, record.as_slice());
        self.pending_records = self.pending_records + 1;
        if self.pending.len() >= LEAF_FLUSH_THRESHOLD {
            return Some(self.flush());
        }
        None
    }

    /// Flushes the leaf, padded.
    pub fn flush(&mut self) -> (leaf: Vec<u8>)
        requires
            old(self)@.can_flush(),
        ensures
            leaf@ == leaf_of(old(self)@.pending),
            final(self)@ == old(self)@.flushed(),
    {
        let mut out: Vec<u8> = Vec::new();
        std::mem::swap(&mut self.pending, &mut out);
        let n: usize = out.len();
        let padding: usize = n / 3 + if n % 3 == 0 {
            0
        } else {
            1
        };
        out.resize(n + padding, 0);
        assert(out@ =~= leaf_of(old(self)@.pending));
        self.flushes = self.flushes + 1;
        self.bytes_written = self.bytes_written + out.len();
        self.pending_records = 0;
        out
    }

    /// How often a leaf was flushed.
    pub fn flushes(&self) -> (r: usize)
        ensures
            r == self@.flushes,
    {
        self.flushes
    }

    /// The bytes of all flushed leaves.
    pub fn bytes_written(&self) -> (r: usize)
        ensures
            r == self@.bytes_written,
    {
        self.bytes_written
    }

    /// The bytes since the last flush.
    pub fn pending_bytes(&self) -> (r: usize)
        ensures
            r == self@.pending.len(),
    {
        self.pending.len()
    }
}

/// A flushed leaf begins with its records, and a quarter of it is free, as
/// near as whole bytes allow.
pub proof fn flushed_leaf_keeps_a_quarter_free(pending: Seq<u8>)
    ensures
        leaf_of(pending).take(pending.len() as int) == pending,
        4 * pending.len() <= 3 * leaf_of(pending).len(),
        3 * leaf_of(pending).len() < 4 * pending.len() + 3,
{
    assert(leaf_of(pending).take(pending.len() as int) =~= pending);
}

/// Where each field of a record lies, lowest byte first: 60 bytes that every
/// record has, then the length and the bytes of a small file, or the six bytes
/// of the root of its extents and two zeros.
pub proof fn record_layout(inode: InodeV3)
    requires
        inode.inline_payload@.len() <= u32::MAX,
        inode.extent_root < 0x1_0000_0000_0000,
    ensures
        ({
            let w = inode.wire();
            &&& codec::from_le(w.subrange(0, 16)) == inode.ino
            &&& codec::from_le(w.subrange(16, 20)) == inode.mode
            &&& codec::from_le(w.subrange(20, 24)) == inode.nlink
            &&& codec::from_le(w.subrange(24, 28)) == inode.uid
            &&& codec::from_le(w.subrange(28, 32)) == inode.gid
            &&& codec::from_le(w.subrange(32, 48)) == inode.size
            &&& codec::from_le(w.subrange(48, 56)) == inode.generation
            &&& codec::from_le(w.subrange(56, 60)) == inode.flags
            &&& inode.flags & 1 != 0 ==> {
                &&& w.len() == 64 + inode.inline_payload@.len()
                &&& codec::from_le(w.subrange(60, 64)) == inode.inline_payload@.len()
                &&& w.subrange(64, w.len() as int) == inode.inline_payload@
            }
            &&& inode.flags & 1 == 0 ==> {
                &&& w.len() == 68
                &&& codec::from_le(w.subrange(60, 66)) == inode.extent_root
                &&& w[66] == 0 && w[67] == 0
            }
        }),
{
    codec::lemma_pow256_values();
    let parts = (
        codec::le(inode.ino as nat, 16),
        codec::le(inode.mode as nat, 4),
        codec::le(inode.nlink as nat, 4),
        codec::le(inode.uid as nat, 4),
        codec::le(inode.gid as nat, 4),
        codec::le(inode.size as nat, 16),
        codec::le(inode.generation as nat, 8),
        codec::le(inode.flags as nat, 4),
    );
    codec::lemma_le_len(inode.ino as nat, 16);
    codec::lemma_le_len(inode.mode as nat, 4);
    codec::lemma_le_len(inode.nlink as nat, 4);
    codec::lemma_le_len(inode.uid as nat, 4);
    codec::lemma_le_len(inode.gid as nat, 4);
    codec::lemma_le_len(inode.size as nat, 16);
    codec::lemma_le_len(inode.generation as nat, 8);
    codec::lemma_le_len(inode.flags as nat, 4);
    codec::lemma_from_le_of_le(inode.ino as nat, 16);
    codec::lemma_from_le_of_le(inode.mode as nat, 4);
    codec::lemma_from_le_of_le(inode.nlink as nat, 4);
    codec::lemma_from_le_of_le(inode.uid as nat, 4);
    codec::lemma_from_le_of_le(inode.gid as nat, 4);
    codec::lemma_from_le_of_le(inode.size as nat, 16);
    codec::lemma_from_le_of_le(inode.generation as nat, 8);
    codec::lemma_from_le_of_le(inode.flags as nat, 4);
    codec::lemma_le_len(inode.inline_payload@.len(), 4);
    codec::lemma_from_le_of_le(inode.inline_payload@.len(), 4);
    codec::lemma_le_len(inode.extent_root as nat, 6);
    codec::lemma_from_le_of_le(inode.extent_root as nat, 6);
    let w = inode.wire();
    assert(w.subrange(0, 16) =~= parts.0);
    assert(w.subrange(16, 20) =~= parts.1);
    assert(w.subrange(20, 24) =~= parts.2);
    assert(w.subrange(24, 28) =~= parts.3);
    assert(w.subrange(28, 32) =~= parts.4);
    assert(w.subrange(32, 48) =~= parts.5);
    assert(w.subrange(48, 56) =~= parts.6);
    assert(w.subrange(56, 60) =~= parts.7);
    if inode.flags & 1 != 0 {
        assert(w.subrange(60, 64) =~= codec::le(inode.inline_payload@.len(), 4));
        assert(w.subrange(64, w.len() as int) =~= inode.inline_payload@);
    } else {
        assert(w.subrange(60, 66) =~= codec::le(inode.extent_root as nat, 6));
    }
}

/// A change of a record raises its generation by one; after the last one comes
/// the first.
pub proof fn generations_go_up(g: u64)
    ensures
        g < u64::MAX ==> next_generation(g) == g + 1,
        g == u64::MAX ==> next_generation(g) == 0,
{
}

} // verus!
