//! Whether an extent that was read from disk can be trusted.

use crate::common::text;
use crate::ondisk::serialization::Extent;
use vstd::prelude::*;
use vstd::string::StringExecFns;

verus! {

/// What is wrong with an extent of a volume with so many blocks.
pub open spec fn fault_of(extent: Extent, total_blocks: u64) -> Option<Seq<char>> {
    let end = extent.physical_start + extent.length;
    if extent.length == 0 {
        Some("extent has zero length"@)
    } else if extent.physical_start == 0 {
        Some("extent points at physical block 0, which is reserved for the superblock"@)
    } else if end > u64::MAX {
        Some("extent's physical range overflows u64"@)
    } else if end > total_blocks {
        Some(
            "extent's physical range ["@ + text::dec_text(extent.physical_start as nat) + ", "@
                + text::dec_text(end as nat) + ") exceeds the filesystem's "@ + text::dec_text(
                total_blocks as nat,
            ) + " total blocks"@,
        )
    } else {
        None
    }
}

/// Checks that an extent has blocks, all of them on the volume and none of
/// them the first.
pub fn validate(extent: &Extent, total_blocks: u64) -> (r: Result<(), String>)
    ensures
        match fault_of(*extent, total_blocks) {
            Some(t) => r matches Err(s) && s@ == t,
            None => r is Ok,
        },
        r is Ok <==> (extent.length > 0 && extent.physical_start > 0 && extent.physical_start
            + extent.length <= total_blocks),
{
    if extent.length == 0 {
        return Err(String::from_str("extent has zero length"));
    }
    if extent.physical_start == 0 {
        return Err(
            String::from_str(
                "extent points at physical block 0, which is reserved for the superblock",
            ),
        );
    }
    let end: u64 = match extent.physical_start.checked_add(extent.length) {
        Some(end) => end,
        None => {
            return Err(String::from_str("extent's physical range overflows u64"));
        },
    };
    if end > total_blocks {
        let mut s = String::from_str("extent's physical range [");
        s.append(text::dec(extent.physical_start).as_str());
        s.append(", ");
        s.append(text::dec(end).as_str());
        s.append(") exceeds the filesystem's ");
        s.append(text::dec(total_blocks).as_str());
        s.append(" total blocks");
        return Err(s);
    }
    Ok(())
}

/// Whether the blocks of two extents overlap.
pub fn physical_ranges_overlap(a: &Extent, b: &Extent) -> (r: bool)
    requires
        b.physical_start + b.length <= u64::MAX,
        a.physical_start < b.physical_start + b.length ==> a.physical_start + a.length <= u64::MAX,
    ensures
        r == ranges_overlap(*a, *b),
{
    a.physical_start < b.physical_start + b.length && b.physical_start < a.physical_start
        + a.length
}

/// Each extent begins before the other ends.
pub open spec fn ranges_overlap(a: Extent, b: Extent) -> bool {
    a.physical_start < b.physical_start + b.length && b.physical_start < a.physical_start
        + a.length
}

/// The block is one of the extent's.
pub open spec fn has_block(e: Extent, block: int) -> bool {
    e.physical_start <= block < e.physical_start + e.length
}

/// Extents that have blocks overlap exactly if they share one.
pub proof fn overlap_means_a_shared_block(a: Extent, b: Extent)
    requires
        a.length > 0,
        b.length > 0,
    ensures
        ranges_overlap(a, b) <==> (exists|block: int| #[trigger] has_block(a, block) && has_block(
            b,
            block,
        )),
{
    if ranges_overlap(a, b) {
        let block = if a.physical_start > b.physical_start {
            a.physical_start as int
        } else {
            b.physical_start as int
        };
        assert(has_block(a, block) && has_block(b, block));
    }
}

/// An extent is sound if and only if it has blocks, none of them the first of
/// the volume, and all of them in the volume.
pub proof fn extent_is_sound_inside_the_volume(extent: Extent, total_blocks: u64)
    ensures
        fault_of(extent, total_blocks) is None <==> extent.length > 0 && extent.physical_start > 0
            && extent.physical_start + extent.length <= total_blocks,
{
}

} // verus!
