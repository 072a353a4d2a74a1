//! Whether the descriptor of a block group is consistent in itself.

use crate::common::text;
use crate::ondisk::serialization::BlockGroupDescriptor;
use vstd::prelude::*;
use vstd::string::StringExecFns;

verus! {

/// What is wrong with a descriptor.
pub open spec fn faults_of(
    bg: BlockGroupDescriptor,
    blocks_per_group: u32,
    inodes_per_group: u32,
) -> Seq<Seq<char>> {
    text::text_if(
        bg.bg_free_blocks_count > blocks_per_group,
        "bg_free_blocks_count ("@ + text::dec_text(bg.bg_free_blocks_count as nat)
            + ") exceeds blocks_per_group ("@ + text::dec_text(blocks_per_group as nat) + ")"@,
    ) + text::text_if(
        bg.bg_free_inodes_count > inodes_per_group,
        "bg_free_inodes_count ("@ + text::dec_text(bg.bg_free_inodes_count as nat)
            + ") exceeds inodes_per_group ("@ + text::dec_text(inodes_per_group as nat) + ")"@,
    ) + text::text_if(bg.bg_block_bitmap == 0, "bg_block_bitmap is 0 (unset)"@)
}

/// Checks that no more is free than a group has, and that there is a bitmap.
pub fn validate(bg: &BlockGroupDescriptor, blocks_per_group: u32, inodes_per_group: u32) -> (r: Vec<
    String,
>)
    ensures
        text::texts(r@) == faults_of(*bg, blocks_per_group, inodes_per_group),
{
    let mut issues: Vec<String> = Vec::new();
    assert(text::texts(issues@) =~= Seq::empty());
    if bg.bg_free_blocks_count > blocks_per_group {
        let mut s = String::from_str("bg_free_blocks_count (");
        s.append(text::dec(bg.bg_free_blocks_count as u64).as_str());
        s.append(") exceeds blocks_per_group (");
        s.append(text::dec(blocks_per_group as u64).as_str());
        s.append(")");
        text::push_text(&mut issues, s);
    }
    if bg.bg_free_inodes_count > inodes_per_group {
        let mut s = String::from_str("bg_free_inodes_count (");
        s.append(text::dec(bg.bg_free_inodes_count as u64).as_str());
        s.append(") exceeds inodes_per_group (");
        s.append(text::dec(inodes_per_group as u64).as_str());
        s.append(")");
        text::push_text(&mut issues, s);
    }
    if bg.bg_block_bitmap == 0 {
        text::push_text(&mut issues, String::from_str("bg_block_bitmap is 0 (unset)"));
    }
    assert(text::texts(issues@) =~= faults_of(*bg, blocks_per_group, inodes_per_group));
    issues
}

/// A block group has no fault exactly if it has no more free blocks and inodes
/// than it can have, and a bitmap. Each thing that is wrong is one fault.
pub proof fn group_is_clean_if_sound(
    bg: BlockGroupDescriptor,
    blocks_per_group: u32,
    inodes_per_group: u32,
)
    ensures
        faults_of(bg, blocks_per_group, inodes_per_group).len() == (if bg.bg_free_blocks_count
            > blocks_per_group {
            1int
        } else {
            0
        }) + (if bg.bg_free_inodes_count > inodes_per_group {
            1int
        } else {
            0
        }) + (if bg.bg_block_bitmap == 0 {
            1int
        } else {
            0
        }),
{
}

} // verus!
