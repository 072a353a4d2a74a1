//! What is wrong with the structures of a volume, all in one place.

use crate::common::text;
use crate::common::version;
use crate::ondisk::block_group;
use crate::ondisk::extent;
use crate::ondisk::serialization::{
    BlockGroupDescriptor, Extent, Inode, Superblock, BLOCK_SIZE, LIONFS_MAGIC,
};
use vstd::prelude::*;
use vstd::string::StringExecFns;

verus! {

/// What a check found.
#[derive(Debug)]
pub struct ValidationReport {
    pub errors: Vec<String>,
    pub warnings: Vec<String>,
}

impl Default for ValidationReport {
    fn default() -> (r: Self)
        ensures
            r.errors@.len() == 0,
            r.warnings@.len() == 0,
    {
        ValidationReport { errors: Vec::new(), warnings: Vec::new() }
    }
}

impl ValidationReport {
    /// Whether there are no errors.
    pub fn is_clean(&self) -> (r: bool)
        ensures
            r == (self.errors@.len() == 0),
    {
        self.errors.len() == 0
    }
}

/// What is wrong with a superblock.
pub open spec fn superblock_faults(sb: Superblock) -> Seq<Seq<char>> {
    text::text_if(
        sb.magic != LIONFS_MAGIC,
        "bad magic: 0x"@ + text::hex_text(sb.magic as nat) + ", expected 0x"@ + text::hex_text(
            LIONFS_MAGIC as nat,
        ),
    ) + text::text_if(
        sb.free_blocks > sb.total_blocks,
        "free_blocks ("@ + text::dec_text(sb.free_blocks as nat) + ") exceeds total_blocks ("@
            + text::dec_text(sb.total_blocks as nat) + ")"@,
    ) + text::text_if(
        sb.block_size != BLOCK_SIZE,
        "block_size ("@ + text::dec_text(sb.block_size as nat)
            + ") does not match this build's BLOCK_SIZE ("@ + text::dec_text(BLOCK_SIZE as nat)
            + ")"@,
    ) + text::text_if(
        sb.version > version::CURRENT_VERSION,
        "on-disk version "@ + text::dec_text(sb.version as nat)
            + " is newer than this build understands"@,
    )
}

/// Checks a superblock.
pub fn validate_superblock(sb: &Superblock) -> (r: ValidationReport)
    ensures
        text::texts(r.errors@) == superblock_faults(*sb),
        text::texts(r.warnings@) == text::text_if(sb.root_inode == 0, "root_inode is 0"@),
{
    let mut report = ValidationReport::default();
    assert(text::texts(report.errors@) =~= Seq::empty());
    assert(text::texts(report.warnings@) =~= Seq::empty());
    if sb.magic != LIONFS_MAGIC {
        let mut s = String::from_str("bad magic: 0x");
        s.append(text::hex(sb.magic).as_str());
        s.append(", expected 0x");
        s.append(text::hex(LIONFS_MAGIC).as_str());
        text::push_text(&mut report.errors, s);
    }
    if sb.free_blocks > sb.total_blocks {
        let mut s = String::from_str("free_blocks (");
        s.append(text::dec(sb.free_blocks).as_str());
        s.append(") exceeds total_blocks (");
        s.append(text::dec(sb.total_blocks).as_str());
        s.append(")");
        text::push_text(&mut report.errors, s);
    }
    if sb.block_size as usize != BLOCK_SIZE {
        let mut s = String::from_str("block_size (");
        s.append(text::dec(sb.block_size as u64).as_str());
        s.append(") does not match this build's BLOCK_SIZE (");
        s.append(text::dec(BLOCK_SIZE as u64).as_str());
        s.append(")");
        text::push_text(&mut report.errors, s);
    }
    if !version::is_safe_to_mount(sb.version) {
        let mut s = String::from_str("on-disk version ");
        s.append(text::dec(sb.version as u64).as_str());
        s.append(" is newer than this build understands");
        text::push_text(&mut report.errors, s);
    }
    assert(text::texts(report.errors@) =~= superblock_faults(*sb));
    if sb.root_inode == 0 {
        text::push_text(&mut report.warnings, String::from_str("root_inode is 0"));
    }
    assert(text::texts(report.warnings@) =~= text::text_if(
        sb.root_inode == 0,
        "root_inode is 0"@,
    ));
    report
}

/// Checks the descriptor of a block group.
pub fn validate_block_group(
    bg: &BlockGroupDescriptor,
    blocks_per_group: u32,
    inodes_per_group: u32,
) -> (r: ValidationReport)
    ensures
        text::texts(r.errors@) == block_group::faults_of(*bg, blocks_per_group, inodes_per_group),
        r.warnings@.len() == 0,
{
    ValidationReport {
        errors: block_group::validate(bg, blocks_per_group, inodes_per_group),
        warnings: Vec::new(),
    }
}

/// What is wrong with the first `n` extents of an inode.
pub open spec fn inode_faults(extents: Seq<Extent>, n: int, total_blocks: u64) -> Seq<Seq<char>>
    decreases n,
{
    if n <= 0 {
        Seq::empty()
    } else {
        inode_faults(extents, n - 1, total_blocks) + match extent::fault_of(
            extents[n - 1],
            total_blocks,
        ) {
            Some(t) => seq![t],
            None => Seq::empty(),
        }
    }
}

/// Checks the extents that stand in an inode.
pub fn validate_inode(inode: &Inode, total_blocks: u64) -> (r: ValidationReport)
    ensures
        text::texts(r.errors@) == inode_faults(
            inode.extents@,
            if inode.extent_count < 7 {
                inode.extent_count as int
            } else {
                7
            },
            total_blocks,
        ),
        r.warnings@.len() == 0,
{
    let mut report = ValidationReport::default();
    let n: usize = if inode.extent_count < 7 {
        inode.extent_count as usize
    } else {
        7
    };
    let mut i: usize = 0;
    assert(text::texts(report.errors@) =~= Seq::empty());
    while i < n
        invariant
            i <= n <= 7,
            text::texts(report.errors@) == inode_faults(inode.extents@, i as int, total_blocks),
            report.warnings@.len() == 0,
        decreases n - i,
    {
        match extent::validate(&inode.extents[i], total_blocks) {
            Err(s) => {
                text::push_text(&mut report.errors, s);
            },
            Ok(()) => {},
        }
        i = i + 1;
        assert(text::texts(report.errors@) =~= inode_faults(
            inode.extents@,
            i as int,
            total_blocks,
        ));
    }
    report
}

/// A superblock has no fault exactly if it has the magic number, no more free
/// blocks than blocks, blocks of 4096 bytes, and a version that is understood.
/// Each thing that is wrong is one fault.
pub proof fn superblock_is_clean_if_sound(sb: Superblock)
    ensures
        superblock_faults(sb).len() == (if sb.magic != 0x0000_5346_4E4F_494C {
            1int
        } else {
            0
        }) + (if sb.free_blocks > sb.total_blocks {
            1int
        } else {
            0
        }) + (if sb.block_size != 4096 {
            1int
        } else {
            0
        }) + (if sb.version > 2 {
            1int
        } else {
            0
        }),
{
}

/// An inode has one fault for each of its extents that is empty, begins at
/// block 0, or ends past the blocks that there are; and no other.
pub proof fn inode_is_clean_if_its_extents_are(extents: Seq<Extent>, n: int, total_blocks: u64)
    requires
        0 <= n <= extents.len(),
    ensures
        inode_faults(extents, n, total_blocks).len() <= n,
        inode_faults(extents, n, total_blocks).len() == 0 <==> (forall|i: int|
            0 <= i < n ==> (#[trigger] extents[i]).length > 0 && extents[i].physical_start > 0
                && extents[i].physical_start + extents[i].length <= total_blocks),
        (forall|i: int|
            0 <= i < n ==> !((#[trigger] extents[i]).length > 0 && extents[i].physical_start > 0
                && extents[i].physical_start + extents[i].length <= total_blocks)) ==> inode_faults(
            extents,
            n,
            total_blocks,
        ).len() == n,
    decreases n,
{
    if n > 0 {
        inode_is_clean_if_its_extents_are(extents, n - 1, total_blocks);
        let e = extents[n - 1];
        assert(extent::fault_of(e, total_blocks) is None <==> e.length > 0 && e.physical_start > 0
            && e.physical_start + e.length <= total_blocks);
    }
}

} // verus!
