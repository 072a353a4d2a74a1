//! The index of block contents: which block holds data with a given hash.
//!
//! The index is a hint. A block is shared only if it holds the very bytes that
//! are to be written.

use crate::bytes;
use crate::integrity::algorithms;
use vstd::prelude::*;

verus! {

/// A block, and the hash of what it held when it was recorded.
#[derive(Debug, Clone, Copy)]
pub struct DedupeEntry {
    /// Hash of the contents.
    pub hash: [u8; 32],
    /// Block.
    pub block: u64,
}

/// The index.
pub struct DedupeTree {
    /// Block that the index is rooted at.
    pub root_block: u64,
    /// Entries.
    pub entries: Vec<DedupeEntry>,
}

/// Hashes the contents of blocks.
pub struct DeduplicationManager {}

/// The block of the first entry that has the hash.
pub open spec fn block_of(s: Seq<DedupeEntry>, hash: Seq<u8>) -> Option<u64>
    decreases s.len(),
{
    if s.len() == 0 {
        None
    } else if s[0].hash@ == hash {
        Some(s[0].block)
    } else {
        block_of(s.drop_first(), hash)
    }
}

/// Putting an entry in place of the first one that has its hash.
proof fn lemma_replaced(s: Seq<DedupeEntry>, i: int, e: DedupeEntry, hash: Seq<u8>)
    requires
        0 <= i < s.len(),
        s[i].hash@ == e.hash@,
        forall|k: int| 0 <= k < i ==> (#[trigger] s[k]).hash@ != e.hash@,
    ensures
        block_of(s.update(i, e), hash) == (if hash == e.hash@ {
            Some(e.block)
        } else {
            block_of(s, hash)
        }),
    decreases s.len(),
{
    let t = s.update(i, e);
    if i == 0 {
        assert(t.drop_first() =~= s.drop_first());
    } else {
        assert(t.drop_first() =~= s.drop_first().update(i - 1, e));
        assert(s[0].hash@ != e.hash@);
        assert forall|k: int| 0 <= k < i - 1 implies (#[trigger] s.drop_first()[k]).hash@
            != e.hash@ by {
            assert(s[k + 1].hash@ != e.hash@);
        }
        lemma_replaced(s.drop_first(), i - 1, e, hash);
    }
}

/// Putting an entry behind others that do not have its hash.
proof fn lemma_appended(s: Seq<DedupeEntry>, e: DedupeEntry, hash: Seq<u8>)
    requires
        forall|k: int| 0 <= k < s.len() ==> (#[trigger] s[k]).hash@ != e.hash@,
    ensures
        block_of(s.push(e), hash) == (if hash == e.hash@ {
            Some(e.block)
        } else {
            block_of(s, hash)
        }),
    decreases s.len(),
{
    let t = s.push(e);
    if s.len() == 0 {
        assert(t.drop_first() =~= s);
    } else {
        assert(t.drop_first() =~= s.drop_first().push(e));
        assert(s[0].hash@ != e.hash@);
        assert forall|k: int| 0 <= k < s.drop_first().len() implies (
        #[trigger] s.drop_first()[k]).hash@ != e.hash@ by {
            assert(s[k + 1].hash@ != e.hash@);
        }
        lemma_appended(s.drop_first(), e, hash);
    }
}

impl DeduplicationManager {
    /// The hash of a block.
    pub fn hash_block(data: &[u8]) -> (r: [u8; 32])
        ensures
            r@ == algorithms::blake3_of(data@),
    {
        algorithms::blake3_hash(data)
    }
}

impl DedupeTree {
    /// The block that is recorded for the hash.
    pub open spec fn at(&self, hash: Seq<u8>) -> Option<u64> {
        block_of(self.entries@, hash)
    }

    /// An empty index.
    pub fn new(root_block: u64) -> (r: Self)
        ensures
            r.root_block == root_block,
            r.entries@ == Seq::<DedupeEntry>::empty(),
            forall|h: Seq<u8>| (#[trigger] r.at(h)) is None,
    {
        DedupeTree { root_block, entries: Vec::new() }
    }

    /// The block that is recorded for the hash.
    pub fn lookup(&self, hash: &[u8; 32]) -> (r: Option<u64>)
        ensures
            r == self.at(hash@),
    {
        let mut i: usize = 0;
        assert(self.entries@.skip(0) =~= self.entries@);
        while i < self.entries.len()
            invariant
                i <= self.entries@.len(),
                self.at(hash@) == block_of(self.entries@.skip(i as int), hash@),
            decreases self.entries@.len() - i,
        {
            let e: DedupeEntry = self.entries[i];
            if bytes::same(e.hash.as_slice(), hash.as_slice()) {
                return Some(e.block);
            }
            assert(self.entries@.skip(i as int).drop_first() =~= self.entries@.skip(i + 1));
            i = i + 1;
        }
        None
    }

    /// Records the block for the hash, in place of what was recorded before.
    pub fn insert_new(&mut self, hash: [u8; 32], block: u64)
        ensures
            final(self).root_block == old(self).root_block,
            forall|h: Seq<u8>|
                (#[trigger] final(self).at(h)) == (if h == hash@ {
                    Some(block)
                } else {
                    old(self).at(h)
                }),
    {
        let e = DedupeEntry { hash, block };
        let mut i: usize = 0;
        while i < self.entries.len()
            invariant
                *self == *old(self),
                e.hash == hash,
                e.block == block,
                i <= self.entries@.len(),
                forall|k: int| 0 <= k < i ==> (#[trigger] self.entries@[k]).hash@ != hash@,
            decreases self.entries@.len() - i,
        {
            if bytes::same(self.entries[i].hash.as_slice(), hash.as_slice()) {
                proof {
                    assert forall|h: Seq<u8>|
                        (#[trigger] block_of(self.entries@.update(i as int, e), h)) == (if h
                            == hash@ {
                            Some(block)
                        } else {
                            old(self).at(h)
                        }) by {
                        lemma_replaced(self.entries@, i as int, e, h);
                    }
                }
                self.entries.set(i, e);
                return;
            }
            i = i + 1;
        }
        proof {
            assert forall|h: Seq<u8>|
                (#[trigger] block_of(self.entries@.push(e), h)) == (if h == hash@ {
                    Some(block)
                } else {
                    old(self).at(h)
                }) by {
                lemma_appended(self.entries@, e, h);
            }
        }
        self.entries.push(e);
    }
}

/// The index gives the block of the first entry with the hash, and none if no
/// entry has it.
pub proof fn first_entry_of_a_hash_counts(tree: DedupeTree, hash: Seq<u8>, i: int)
    ensures
        0 <= i < tree.entries@.len() && tree.entries@[i].hash@ == hash && (forall|k: int|
            0 <= k < i ==> (#[trigger] tree.entries@[k]).hash@ != hash) ==> tree.at(hash) == Some(
            tree.entries@[i].block,
        ),
        (forall|k: int|
            0 <= k < tree.entries@.len() ==> (#[trigger] tree.entries@[k]).hash@ != hash)
            ==> tree.at(hash) is None,
{
    lemma_first_entry(tree.entries@, hash, i);
}

proof fn lemma_first_entry(s: Seq<DedupeEntry>, hash: Seq<u8>, i: int)
    ensures
        0 <= i < s.len() && s[i].hash@ == hash && (forall|k: int|
            0 <= k < i ==> (#[trigger] s[k]).hash@ != hash) ==> block_of(s, hash) == Some(
            s[i].block,
        ),
        (forall|k: int| 0 <= k < s.len() ==> (#[trigger] s[k]).hash@ != hash) ==> block_of(s, hash)
            is None,
    decreases s.len(),
{
    if s.len() > 0 {
        let rest = s.drop_first();
        lemma_first_entry(rest, hash, i - 1);
        assert(forall|k: int| 0 <= k < rest.len() ==> #[trigger] rest[k] == s[k + 1]);
        if s[0].hash@ != hash && 0 < i < s.len() {
            assert(rest[i - 1] == s[i]);
        }
    }
}

} // verus!
