//! The data blocks of an image: which are in use, what they hold, and when
//! each block of a file was written.

use crate::bytes;
use crate::fs::snapshots;
use crate::fs::snapshots::BlockChecksum;
use crate::integrity::refcount::RefCountManager;
use crate::ondisk::serialization::BLOCK_SIZE;
use crate::ordmap::OrdMap;
use vstd::prelude::*;

verus! {

/// The data blocks of an image.
pub struct DataArea {
    /// Which blocks are in use.
    pub used: Vec<bool>,
    /// What the blocks hold that were written.
    pub blocks: OrdMap<Vec<u8>>,
    /// When the blocks of files were written, if checksums are kept.
    pub births: Vec<BlockChecksum>,
    /// Checksums are kept.
    pub checked: bool,
    /// Blocks born at this stamp or before belong to a snapshot too.
    pub barrier: u64,
    /// Stamp that writes get.
    pub stamp: u64,
}

/// The number of blocks that are not in use.
pub open spec fn free_in(used: Seq<bool>) -> nat
    decreases used.len(),
{
    if used.len() == 0 {
        0
    } else {
        free_in(used.drop_last()) + (if used.last() {
            0nat
        } else {
            1
        })
    }
}

/// Taking or giving back one block changes the number of free ones by one.
proof fn lemma_free_update(used: Seq<bool>, i: int, taken: bool)
    requires
        0 <= i < used.len(),
    ensures
        free_in(used.update(i, taken)) == free_in(used) + (if used[i] {
            1int
        } else {
            0
        }) - (if taken {
            1int
        } else {
            0
        }),
    decreases used.len(),
{
    let after = used.update(i, taken);
    if i == used.len() - 1 {
        assert(after.drop_last() =~= used.drop_last());
    } else {
        lemma_free_update(used.drop_last(), i, taken);
        assert(after.drop_last() =~= used.drop_last().update(i, taken));
    }
}

/// Where every block is in use none is free.
proof fn lemma_none_free(used: Seq<bool>)
    requires
        forall|i: int| 0 <= i < used.len() ==> #[trigger] used[i],
    ensures
        free_in(used) == 0,
    decreases used.len(),
{
    if used.len() > 0 {
        assert forall|i: int| 0 <= i < used.drop_last().len() implies #[trigger] used.drop_last()[i] by {
            assert(used[i]);
        }
        lemma_none_free(used.drop_last());
    }
}

/// No more blocks are free than there are.
proof fn lemma_free_bound(used: Seq<bool>)
    ensures
        free_in(used) <= used.len(),
    decreases used.len(),
{
    if used.len() > 0 {
        lemma_free_bound(used.drop_last());
    }
}

/// The records are of the same block of the same file.
pub open spec fn same_block(a: BlockChecksum, b: BlockChecksum) -> bool {
    a.object_id == b.object_id && a.logical_block == b.logical_block
}

/// No block of a file has two records.
pub open spec fn one_each(s: Seq<BlockChecksum>) -> bool {
    forall|i: int, j: int|
        0 <= i < j < s.len() ==> !same_block(#[trigger] s[i], #[trigger] s[j])
}

/// What the record of a block is, and when it has none.
proof fn lemma_record_of(s: Seq<BlockChecksum>, ino: u64, l: u64)
    requires
        one_each(s),
    ensures
        snapshots::csum_of_block(s, ino, l) matches Some(rec) ==> rec.object_id == ino
            && rec.logical_block == l && exists|k: int| 0 <= k < s.len() && #[trigger] s[k] == rec,
        forall|k: int|
            0 <= k < s.len() && (#[trigger] s[k]).object_id == ino && s[k].logical_block == l
                ==> snapshots::csum_of_block(s, ino, l) == Some(s[k]),
    decreases s.len(),
{
    if s.len() > 0 {
        let t = s.drop_first();
        assert forall|i: int, j: int| 0 <= i < j < t.len() implies !same_block(
            #[trigger] t[i],
            #[trigger] t[j],
        ) by {
            assert(!same_block(s[i + 1], s[j + 1]));
        }
        lemma_record_of(t, ino, l);
        if s[0].object_id == ino && s[0].logical_block == l {
            assert(snapshots::csum_of_block(s, ino, l) == Some(s[0]));
            assert forall|k: int|
                0 <= k < s.len() && (#[trigger] s[k]).object_id == ino && s[k].logical_block
                    == l implies snapshots::csum_of_block(s, ino, l) == Some(s[k]) by {
                if k > 0 {
                    assert(!same_block(s[0], s[k]));
                }
            }
        } else {
            assert forall|k: int|
                0 <= k < s.len() && (#[trigger] s[k]).object_id == ino && s[k].logical_block
                    == l implies snapshots::csum_of_block(s, ino, l) == Some(s[k]) by {
                assert(t[k - 1] == s[k]);
            }
            if let Some(rec) = snapshots::csum_of_block(t, ino, l) {
                let k = choose|k: int| 0 <= k < t.len() && #[trigger] t[k] == rec;
                assert(s[k + 1] == rec);
            }
        }
    }
}

/// One block of zeros.
pub open spec fn zero_block() -> Seq<u8> {
    Seq::new(4096, |i: int| 0u8)
}

impl DataArea {
    /// What is stored of a block is a whole block, and no block of a file has
    /// two records.
    pub open spec fn wf(&self) -> bool {
        &&& self.blocks.wf()
        &&& one_each(self.births@)
        &&& forall|b: u64| #[trigger]
            self.blocks@.contains_key(b) ==> self.blocks@[b]@.len() == BLOCK_SIZE
    }

    /// The block is in use.
    pub open spec fn in_use(&self, b: int) -> bool {
        0 <= b < self.used@.len() && self.used@[b]
    }

    /// What the block holds.
    pub open spec fn bytes(&self, b: u64) -> Seq<u8> {
        if self.blocks@.contains_key(b) {
            self.blocks@[b]@
        } else {
            zero_block()
        }
    }

    /// The record of when block `l` of the file was written.
    pub open spec fn birth(&self, ino: u64, l: u64) -> Option<BlockChecksum> {
        snapshots::csum_of_block(self.births@, ino, l)
    }

    /// Block `l` of the file, which is at `p`, may not be changed there: it is
    /// pinned, or it was born at the barrier or before.
    pub open spec fn protects(&self, rc: RefCountManager, ino: u64, l: u64, p: u64) -> bool {
        ||| rc.pin_count(p as int) > 0
        ||| self.checked && (self.birth(ino, l) matches Some(rec) && rec.generation <= self.barrier)
    }

    /// An area of `blocks` zero blocks, the first `reserved` of them in use.
    pub fn new(blocks: usize, reserved: usize, checked: bool) -> (r: Self)
        ensures
            r.wf(),
            r.used@ == Seq::new(blocks as nat, |i: int| i < reserved),
            r.blocks@ == Map::<u64, Vec<u8>>::empty(),
            r.births@ == Seq::<BlockChecksum>::empty(),
            r.checked == checked,
            r.barrier == 0,
            r.stamp == 1,
    {
        let mut used: Vec<bool> = Vec::new();
        let mut i: usize = 0;
        while i < blocks
            invariant
                i <= blocks,
                used@ == Seq::new(i as nat, |k: int| k < reserved),
            decreases blocks - i,
        {
            used.push(i < reserved);
            i = i + 1;
            assert(used@ =~= Seq::new(i as nat, |k: int| k < reserved));
        }
        DataArea { used, blocks: OrdMap::new(), births: Vec::new(), checked, barrier: 0, stamp: 1 }
    }

    /// The number of blocks in use.
    pub fn used_blocks(&self) -> (r: usize)
        ensures
            r == self.used@.len() - free_in(self.used@),
    {
        let mut n: usize = 0;
        let mut i: usize = 0;
        proof {
            lemma_free_bound(self.used@);
        }
        while i < self.used.len()
            invariant
                i <= self.used@.len(),
                n <= i,
                n == i - free_in(self.used@.take(i as int)),
            decreases self.used@.len() - i,
        {
            assert(self.used@.take(i + 1).drop_last() =~= self.used@.take(i as int));
            if self.used[i] {
                n = n + 1;
            }
            i = i + 1;
        }
        assert(self.used@.take(i as int) =~= self.used@);
        n
    }

    /// What the block holds.
    pub fn read_block(&self, b: u64) -> (r: Vec<u8>)
        requires
            self.wf(),
        ensures
            r@ == self.bytes(b),
            r@.len() == 4096,
    {
        match self.blocks.get(b) {
            Some(v) => bytes::copy_range(v.as_slice(), 0, v.len()),
            None => {
                let z = bytes::zeros(4096);
                assert(z@ =~= zero_block());
                z
            },
        }
    }

    /// Writes a whole block.
    pub fn write_block(&mut self, b: u64, data: Vec<u8>)
        requires
            old(self).wf(),
            data@.len() == 4096,
        ensures
            final(self).wf(),
            final(self).bytes(b) == data@,
            forall|q: u64| q != b ==> #[trigger] final(self).bytes(q) == old(self).bytes(q),
            *final(self) == (DataArea { blocks: final(self).blocks, ..*old(self) }),
    {
        self.blocks.insert(b, data);
        assert forall|q: u64| #[trigger] self.blocks@.contains_key(q) implies self.blocks@[q]@.len()
            == BLOCK_SIZE by {
            if q != b {
                assert(old(self).blocks@.contains_key(q));
            }
        }
    }

    /// Takes the first block that is not in use.
    pub fn allocate(&mut self) -> (r: Option<u64>)
        ensures
            match r {
                Some(b) => {
                    &&& b < old(self).used@.len()
                    &&& !old(self).used@[b as int]
                    &&& forall|i: int| 0 <= i < b ==> #[trigger] old(self).used@[i]
                    &&& final(self).used@ == old(self).used@.update(b as int, true)
                    &&& free_in(final(self).used@) == free_in(old(self).used@) - 1
                    &&& *final(self) == (DataArea { used: final(self).used, ..*old(self) })
                },
                None => free_in(old(self).used@) == 0 && *final(self) == *old(self),
            },
    {
        let mut i: usize = 0;
        while i < self.used.len()
            invariant
                i <= self.used@.len(),
                *self == *old(self),
                forall|k: int| 0 <= k < i ==> #[trigger] self.used@[k],
            decreases self.used@.len() - i,
        {
            if !self.used[i] {
                proof {
                    lemma_free_update(self.used@, i as int, true);
                }
                self.used.set(i, true);
                return Some(i as u64);
            }
            i = i + 1;
        }
        proof {
            lemma_none_free(self.used@);
        }
        None
    }

    /// Gives a block back.
    pub fn release(&mut self, b: u64)
        requires
            b < old(self).used@.len(),
        ensures
            final(self).used@ == old(self).used@.update(b as int, false),
            *final(self) == (DataArea { used: final(self).used, ..*old(self) }),
    {
        assert(b < self.used.len());
        self.used.set(b as usize, false);
    }

    /// The record of when block `l` of the file was written.
    pub fn find_birth(&self, ino: u64, l: u64) -> (r: Option<BlockChecksum>)
        ensures
            r == self.birth(ino, l),
    {
        snapshots::find_csum(&self.births, ino, l)
    }

    /// Block `l` of the file, which is at `p`, may not be changed there.
    pub fn is_protected(&self, rc: &RefCountManager, ino: u64, l: u64, p: u64) -> (r: bool)
        requires
            rc.wf(),
        ensures
            r == self.protects(*rc, ino, l, p),
    {
        if rc.is_pinned(p) {
            return true;
        }
        if self.checked {
            if let Some(rec) = self.find_birth(ino, l) {
                return rec.generation <= self.barrier;
            }
        }
        false
    }

    /// Records when a block of a file was written, in place of what was
    /// recorded of it before.
    pub fn note_birth(&mut self, rec: BlockChecksum)
        requires
            old(self).wf(),
        ensures
            final(self).wf(),
            forall|ino: u64, l: u64|
                (#[trigger] final(self).birth(ino, l)) == (if ino == rec.object_id && l
                    == rec.logical_block {
                    Some(rec)
                } else {
                    old(self).birth(ino, l)
                }),
            *final(self) == (DataArea { births: final(self).births, ..*old(self) }),
    {
        let ghost before = self.births@;
        let mut i: usize = 0;
        while i < self.births.len()
            invariant
                before == self.births@,
                *self == *old(self),
                old(self).wf(),
                one_each(before),
                i <= before.len(),
                forall|k: int| 0 <= k < i ==> !same_block(#[trigger] before[k], rec),
            decreases before.len() - i,
        {
            let known: BlockChecksum = self.births[i];
            if known.object_id == rec.object_id && known.logical_block == rec.logical_block {
                self.births.set(i, rec);
                proof {
                    let after = self.births@;
                    assert forall|a: int, b: int| 0 <= a < b < after.len() implies !same_block(
                        #[trigger] after[a],
                        #[trigger] after[b],
                    ) by {
                        assert(!same_block(before[a], before[b]));
                    }
                    assert forall|ino: u64, l: u64| (#[trigger] self.birth(ino, l)) == (if ino
                        == rec.object_id && l == rec.logical_block {
                        Some(rec)
                    } else {
                        old(self).birth(ino, l)
                    }) by {
                        lemma_record_of(before, ino, l);
                        lemma_record_of(after, ino, l);
                        assert(after[i as int] == rec);
                        assert(forall|k: int|
                            0 <= k < before.len() && k != i ==> #[trigger] after[k] == before[k]);
                        if old(self).birth(ino, l) is Some {
                            let k = choose|k: int|
                                0 <= k < before.len() && #[trigger] before[k]
                                    == old(self).birth(ino, l)->0;
                            assert(k != i ==> after[k] == before[k]);
                        }
                    }
                }
                return;
            }
            i = i + 1;
        }
        self.births.push(rec);
        proof {
            let after = self.births@;
            assert forall|a: int, b: int| 0 <= a < b < after.len() implies !same_block(
                #[trigger] after[a],
                #[trigger] after[b],
            ) by {
                if b < before.len() {
                    assert(!same_block(before[a], before[b]));
                } else {
                    assert(!same_block(before[a], rec));
                }
            }
            assert forall|ino: u64, l: u64| (#[trigger] self.birth(ino, l)) == (if ino
                == rec.object_id && l == rec.logical_block {
                Some(rec)
            } else {
                old(self).birth(ino, l)
            }) by {
                lemma_record_of(before, ino, l);
                lemma_record_of(after, ino, l);
                assert(after[before.len() as int] == rec);
                if old(self).birth(ino, l) is Some {
                    let k = choose|k: int|
                        0 <= k < before.len() && #[trigger] before[k] == old(self).birth(
                            ino,
                            l,
                        )->0;
                    assert(after[k] == before[k]);
                }
            }
        }
    }

    /// Forgets when the blocks of the file from `end` on were written.
    pub fn forget_births(&mut self, ino: u64, end: u64)
        requires
            old(self).wf(),
        ensures
            final(self).wf(),
            forall|o: u64, l: u64|
                (#[trigger] final(self).birth(o, l)) == (if o == ino && l >= end {
                    None
                } else {
                    old(self).birth(o, l)
                }),
            *final(self) == (DataArea { births: final(self).births, ..*old(self) }),
    {
        let ghost before = self.births@;
        let mut kept: Vec<BlockChecksum> = Vec::new();
        let mut i: usize = 0;
        while i < self.births.len()
            invariant
                before == self.births@,
                *self == *old(self),
                one_each(before),
                i <= before.len(),
                one_each(kept@),
                forall|k: int|
                    0 <= k < kept@.len() ==> before.take(i as int).contains(#[trigger] kept@[k])
                        && !(kept@[k].object_id == ino && kept@[k].logical_block >= end),
                forall|k: int|
                    0 <= k < i && !((#[trigger] before[k]).object_id == ino
                        && before[k].logical_block >= end) ==> kept@.contains(before[k]),
            decreases before.len() - i,
        {
            let rec: BlockChecksum = self.births[i];
            let ghost held = kept@;
            proof {
                assert(before.take(i + 1)[i as int] == rec);
                assert forall|x: BlockChecksum| before.take(i as int).contains(x) implies #[trigger] before.take(
                    i + 1,
                ).contains(x) by {
                    let k = choose|k: int| 0 <= k < i && before.take(i as int)[k] == x;
                    assert(before.take(i + 1)[k] == x);
                }
            }
            if !(rec.object_id == ino && rec.logical_block >= end) {
                kept.push(rec);
                proof {
                    assert(kept@[held.len() as int] == rec);
                    assert forall|a: int, b: int| 0 <= a < b < kept@.len() implies !same_block(
                        #[trigger] kept@[a],
                        #[trigger] kept@[b],
                    ) by {
                        if b == held.len() {
                            assert(before.take(i as int).contains(held[a]));
                            let k = choose|k: int| 0 <= k < i && before.take(i as int)[k] == held[a];
                            assert(!same_block(before[k], before[i as int]));
                        } else {
                            assert(!same_block(held[a], held[b]));
                        }
                    }
                    assert forall|x: BlockChecksum| held.contains(x) implies #[trigger] kept@.contains(
                        x,
                    ) by {
                        let k = choose|k: int| 0 <= k < held.len() && held[k] == x;
                        assert(kept@[k] == x);
                    }
                }
            }
            i = i + 1;
        }
        proof {
            assert(before.take(i as int) =~= before);
            assert forall|o: u64, l: u64|
                (#[trigger] snapshots::csum_of_block(kept@, o, l)) == (if o == ino && l >= end {
                    None
                } else {
                    old(self).birth(o, l)
                }) by {
                lemma_record_of(before, o, l);
                lemma_record_of(kept@, o, l);
                if let Some(rec) = snapshots::csum_of_block(kept@, o, l) {
                    let k = choose|k: int| 0 <= k < kept@.len() && #[trigger] kept@[k] == rec;
                    assert(before.contains(kept@[k]));
                }
                if let Some(rec) = snapshots::csum_of_block(before, o, l) {
                    let k = choose|k: int| 0 <= k < before.len() && #[trigger] before[k] == rec;
                    assert(before[k] == rec);
                }
            }
        }
        self.births = kept;
    }
}

/// The birth of a block is the record that names its file and its place in the
/// file; a block without such a record has none.
pub proof fn births_are_found_by_file_and_place(area: DataArea, ino: u64, l: u64, k: int)
    requires
        area.wf(),
    ensures
        0 <= k < area.births@.len() && area.births@[k].object_id == ino
            && area.births@[k].logical_block == l ==> area.birth(ino, l) == Some(area.births@[k]),
        (forall|i: int|
            0 <= i < area.births@.len() ==> (#[trigger] area.births@[i]).object_id != ino
                || area.births@[i].logical_block != l) ==> area.birth(ino, l) is None,
{
    lemma_record_of(area.births@, ino, l);
}

/// The free blocks are those not in use, each counted once.
pub proof fn free_blocks_are_counted(used: Seq<bool>, i: int)
    requires
        0 <= i < used.len(),
    ensures
        used[i] ==> free_in(used.update(i, false)) == free_in(used) + 1,
        !used[i] ==> free_in(used.update(i, true)) == free_in(used) - 1,
        (forall|k: int| 0 <= k < used.len() ==> #[trigger] used[k]) ==> free_in(used) == 0,
{
    lemma_free_update(used, i, !used[i]);
    if forall|k: int| 0 <= k < used.len() ==> #[trigger] used[k] {
        lemma_none_free(used);
    }
}

} // verus!
