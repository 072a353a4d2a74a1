//! The ledger of bad blocks.

use crate::btree::BTree;
use crate::common::text;
use crate::inode::timestamps;
use std::time::SystemTime;
use vstd::prelude::*;
use vstd::string::StringExecFns;

verus! {

/// Node type of the bad-block ledger.
pub const BAD_BLOCKS_TREE_NODE_TYPE: u32 = 6;

/// How many bad blocks a report names.
pub const REPORTED_BLOCKS: usize = 16;

/// Which block is bad.
#[derive(Debug, Clone, Copy, PartialEq, Eq, PartialOrd, Ord, Structural)]
pub struct BadBlockKey {
    /// The block.
    pub physical_block: u64,
}

/// What is known of a bad block.
#[derive(Debug, Clone, Copy)]
pub struct BadBlockValue {
    /// When it was found, in seconds since the epoch.
    pub timestamp: u64,
    /// The object that was stored there.
    pub object_id: u64,
    /// Unused, zero.
    pub padding: [u8; 16],
}

impl PartialEq for BadBlockValue {
    fn eq(&self, other: &Self) -> (r: bool) {
        self.timestamp == other.timestamp && self.object_id == other.object_id
    }
}

impl vstd::std_specs::cmp::PartialEqSpecImpl for BadBlockValue {
    open spec fn obeys_eq_spec() -> bool {
        true
    }

    open spec fn eq_spec(&self, other: &Self) -> bool {
        self.timestamp == other.timestamp && self.object_id == other.object_id
    }
}

impl Eq for BadBlockValue {

}

/// The line of one bad block in a report.
pub open spec fn block_line(block: u64, val: BadBlockValue) -> Seq<char> {
    "  block "@ + text::dec_text(block as nat) + " (first seen by object "@ + text::dec_text(
        val.object_id as nat,
    ) + ", at epoch "@ + text::dec_text(val.timestamp as nat) + ")\n"@
}

/// The lines of the first `n` bad blocks.
pub open spec fn block_lines(entries: Seq<(u64, BadBlockValue)>, n: nat) -> Seq<char>
    decreases n,
{
    if n == 0 {
        Seq::empty()
    } else {
        block_lines(entries, (n - 1) as nat) + block_line(
            entries[n - 1].0,
            entries[n - 1].1,
        )
    }
}

/// The head of a report.
pub open spec fn report_head() -> Seq<char> {
    "LionFS Integrity Health Report\n"@ + "------------------------------\n"@
}

/// The health report of a ledger.
pub open spec fn report_text(root_block: u64, entries: Seq<(u64, BadBlockValue)>) -> Seq<char> {
    let head = report_head();
    if root_block == 0 {
        head + "Bad Blocks Tree: not initialized.\n"@ + "Status: HEALTHY\n"@
    } else if entries.len() == 0 {
        head + "Bad Blocks Tree initialized.\n"@ + "Status: HEALTHY (no bad blocks recorded)\n"@
    } else {
        let named = if entries.len() > REPORTED_BLOCKS {
            REPORTED_BLOCKS as nat
        } else {
            entries.len()
        };
        let body = head + "Bad blocks recorded: "@ + text::dec_text(entries.len()) + "\n"@
            + block_lines(entries, named);
        if entries.len() > REPORTED_BLOCKS {
            body + "  ... and "@ + text::dec_text((entries.len() - REPORTED_BLOCKS) as nat)
                + " more\n"@ + "Status: DEGRADED\n"@
        } else {
            body + "Status: DEGRADED\n"@
        }
    }
}

/// The ledger of bad blocks.
pub struct BadBlockManager {
    /// The records.
    pub btree: BTree<BadBlockValue>,
}

impl BadBlockManager {
    /// The records are in order.
    pub open spec fn wf(&self) -> bool {
        self.btree.wf()
    }

    /// The records, by block.
    pub open spec fn view(&self) -> Map<u64, BadBlockValue> {
        self.btree@
    }

    /// An empty ledger rooted at `root_block`.
    pub fn new(root_block: u64) -> (r: Self)
        ensures
            r.wf(),
            r@ == Map::<u64, BadBlockValue>::empty(),
            r.btree.root_block == root_block,
    {
        BadBlockManager { btree: BTree::new(root_block, BAD_BLOCKS_TREE_NODE_TYPE) }
    }

    /// Makes the ledger an empty one rooted at `root_block`.
    pub fn init_empty(&mut self, root_block: u64)
        ensures
            final(self).wf(),
            final(self)@ == Map::<u64, BadBlockValue>::empty(),
            final(self).btree.root_block == root_block,
    {
        self.btree = BTree::new(root_block, BAD_BLOCKS_TREE_NODE_TYPE);
    }

    /// The health report: whether the ledger is there, how many blocks are
    /// bad, and which the first of them are.
    pub fn get_health_report(&self) -> (r: String)
        ensures
            r@ == report_text(self.btree.root_block, self.btree.entries()),
    {
        let mut report = String::from_str("LionFS Integrity Health Report\n");
        report.append("------------------------------\n");
        if self.btree.root_block == 0 {
            report.append("Bad Blocks Tree: not initialized.\n");
            report.append("Status: HEALTHY\n");
            return report;
        }
        let n: usize = self.btree.len();
        if n == 0 {
            report.append("Bad Blocks Tree initialized.\n");
            report.append("Status: HEALTHY (no bad blocks recorded)\n");
            return report;
        }
        report.append("Bad blocks recorded: ");
        report.append(text::dec(n as u64).as_str());
        report.append("\n");
        let named: usize = if n > REPORTED_BLOCKS {
            REPORTED_BLOCKS
        } else {
            n
        };
        let ghost before = report@;
        let mut i: usize = 0;
        assert(before + block_lines(self.btree.entries(), 0) =~= before);
        while i < named
            invariant
                i <= named <= n,
                n == self.btree.entries().len(),
                report@ == before + block_lines(self.btree.entries(), i as nat),
            decreases named - i,
        {
            let (block, val) = self.btree.entry(i);
            report.append("  block ");
            report.append(text::dec(*block).as_str());
            report.append(" (first seen by object ");
            report.append(text::dec(val.object_id).as_str());
            report.append(", at epoch ");
            report.append(text::dec(val.timestamp).as_str());
            report.append(")\n");
            i = i + 1;
            assert(report@ =~= before + block_lines(self.btree.entries(), i as nat));
        }
        if n > REPORTED_BLOCKS {
            report.append("  ... and ");
            report.append(text::dec((n - REPORTED_BLOCKS) as u64).as_str());
            report.append(" more\n");
        }
        report.append("Status: DEGRADED\n");
        assert(report@ =~= report_text(self.btree.root_block, self.btree.entries()));
        report
    }

    /// Every record, in the order of the blocks.
    pub fn list(&self) -> (r: Vec<(BadBlockKey, BadBlockValue)>)
        ensures
            r@ == self.btree.entries().map_values(
                |e: (u64, BadBlockValue)| (BadBlockKey { physical_block: e.0 }, e.1),
            ),
    {
        let ghost f = |e: (u64, BadBlockValue)| (BadBlockKey { physical_block: e.0 }, e.1);
        let mut out: Vec<(BadBlockKey, BadBlockValue)> = Vec::new();
        let mut i: usize = 0;
        assert(out@ =~= self.btree.entries().take(0).map_values(f));
        while i < self.btree.len()
            invariant
                f == (|e: (u64, BadBlockValue)| (BadBlockKey { physical_block: e.0 }, e.1)),
                i <= self.btree.entries().len(),
                out@ == self.btree.entries().take(i as int).map_values(f),
            decreases self.btree.entries().len() - i,
        {
            let (block, val) = self.btree.entry(i);
            out.push((BadBlockKey { physical_block: *block }, *val));
            i = i + 1;
            assert(out@ =~= self.btree.entries().take(i as int).map_values(f));
        }
        assert(self.btree.entries().take(i as int) =~= self.btree.entries());
        out
    }

    /// How many blocks are bad. A ledger without a root has none.
    pub fn count(&self) -> (r: u64)
        ensures
            r == (if self.btree.root_block == 0 {
                0
            } else {
                self.btree.entries().len()
            }),
    {
        if self.btree.root_block == 0 {
            return 0;
        }
        self.btree.len() as u64
    }

    /// Takes a block out of the ledger; whether it was there. A ledger without
    /// a root holds none.
    pub fn clear_bad_block(&mut self, physical_block: u64) -> (existed: bool)
        requires
            old(self).wf(),
        ensures
            final(self).wf(),
            final(self).btree.root_block == old(self).btree.root_block,
            existed == (old(self).btree.root_block != 0 && old(self)@.contains_key(physical_block)),
            final(self)@ == (if existed {
                old(self)@.remove(physical_block)
            } else {
                old(self)@
            }),
    {
        if self.btree.root_block == 0 {
            return false;
        }
        let existed = self.btree.remove(physical_block);
        proof {
            if !existed {
                assert(self@ =~= old(self)@);
            }
        }
        existed
    }

    /// Records a bad block as found at `timestamp`.
    pub fn mark_bad_block_at(&mut self, physical_block: u64, object_id: u64, timestamp: u64)
        requires
            old(self).wf(),
        ensures
            final(self).wf(),
            final(self).btree.root_block == old(self).btree.root_block,
            final(self)@ == old(self)@.insert(
                physical_block,
                final(self)@[physical_block],
            ),
            final(self)@[physical_block].timestamp == timestamp,
            final(self)@[physical_block].object_id == object_id,
            final(self)@[physical_block].padding@ == Seq::new(16, |i: int| 0u8),
    {
        let padding = [0u8;16];
        assert(padding@ =~= Seq::new(16, |i: int| 0u8));
        self.btree.insert(physical_block, BadBlockValue { timestamp, object_id, padding });
        assert(self@ =~= old(self)@.insert(physical_block, self@[physical_block]));
    }

    /// Records a bad block as found now.
    pub fn mark_bad_block(&mut self, physical_block: u64, object_id: u64)
        requires
            old(self).wf(),
        ensures
            final(self).wf(),
            final(self).btree.root_block == old(self).btree.root_block,
            final(self)@ == old(self)@.insert(
                physical_block,
                final(self)@[physical_block],
            ),
            exists|t: SystemTime|
                final(self)@[physical_block].timestamp == #[trigger] timestamps::signed_secs(
                    t,
                ) as u64,
            final(self)@[physical_block].object_id == object_id,
            final(self)@[physical_block].padding@ == Seq::new(16, |i: int| 0u8),
    {
        self.mark_bad_block_at(physical_block, object_id, timestamps::now_secs() as u64)
    }
}

/// A block that is recorded and then cleared leaves the ledger as it was, if
/// it was not there before.
pub proof fn mark_then_clear_restores(
    before: Map<u64, BadBlockValue>,
    block: u64,
    val: BadBlockValue,
)
    requires
        !before.contains_key(block),
    ensures
        before.insert(block, val).contains_key(block),
        before.insert(block, val).remove(block) == before,
{
    assert(before.insert(block, val).remove(block) =~= before);
}

/// The status that a report ends with: degraded if and only if there is a ledger
/// that has a bad block in it.
pub proof fn report_ends_with_the_status(root_block: u64, entries: Seq<(u64, BadBlockValue)>)
    ensures
        ({
            let r = report_text(root_block, entries);
            &&& root_block != 0 && entries.len() > 0 ==> "Status: DEGRADED\n"@.is_suffix_of(r)
            &&& root_block == 0 ==> "Status: HEALTHY\n"@.is_suffix_of(r)
            &&& root_block != 0 && entries.len() == 0
                ==> "Status: HEALTHY (no bad blocks recorded)\n"@.is_suffix_of(r)
        }),
{
    let r = report_text(root_block, entries);
    if root_block == 0 {
        lemma_suffix(report_head() + "Bad Blocks Tree: not initialized.\n"@, "Status: HEALTHY\n"@);
    } else if entries.len() == 0 {
        lemma_suffix(
            report_head() + "Bad Blocks Tree initialized.\n"@,
            "Status: HEALTHY (no bad blocks recorded)\n"@,
        );
    } else {
        let tail = "Status: DEGRADED\n"@;
        let n = (r.len() - tail.len()) as int;
        assert(r.subrange(n, r.len() as int) =~= tail);
    }
}

proof fn lemma_suffix(head: Seq<char>, tail: Seq<char>)
    ensures
        tail.is_suffix_of(head + tail),
{
    let r = head + tail;
    assert(r.subrange((r.len() - tail.len()) as int, r.len() as int) =~= tail);
}

} // verus!
