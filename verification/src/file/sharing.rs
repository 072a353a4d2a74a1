//! Writing blocks that share what another block holds already.

use crate::bytes;
use crate::error::{Error, ErrorKind};
use crate::file::area;
use crate::file::area::DataArea;
use crate::file::runs;
use crate::file::writer;
use crate::file::writer::{FileManager, OpenFile};
use crate::fs::dedupe::{DedupeTree, DeduplicationManager};
use crate::fs::snapshots::BlockChecksum;
use crate::integrity::algorithms;
use crate::integrity::refcount;
use crate::integrity::refcount::RefCountManager;
use vstd::prelude::*;

verus! {

/// The index knows a block in use, other than the one that block `l` of the
/// file is at, which holds the data and can be pinned once more.
pub open spec fn shareable(
    area: DataArea,
    rc: RefCountManager,
    index: DedupeTree,
    file: OpenFile,
    l: int,
    hash: Seq<u8>,
    data: Seq<u8>,
) -> bool {
    index.at(hash) matches Some(p) && {
        &&& area.in_use(p as int)
        &&& area.bytes(p) == data
        &&& rc.pin_count(p as int) < u32::MAX
        &&& file.at(l) != Some(p)
    }
}

/// Block `l` of the file is at `p` from now on. Nothing was written.
pub open spec fn shared(
    a: DataArea,
    b: DataArea,
    fa: OpenFile,
    fb: OpenFile,
    l: u64,
    p: u64,
) -> bool {
    &&& fb.ino == fa.ino
    &&& b == (DataArea { births: b.births, ..a })
    &&& forall|m: int|
        (#[trigger] fb.at(m)) == (if m == l {
            Some(p)
        } else {
            fa.at(m)
        })
    &&& forall|ino: u64, m: u64|
        (#[trigger] b.birth(ino, m)) == (if a.checked && ino == fa.ino && m == l {
            Some(
                BlockChecksum {
                    object_id: ino,
                    logical_block: m,
                    physical_block: p,
                    generation: a.stamp,
                },
            )
        } else {
            a.birth(ino, m)
        })
}

/// The size of a file once block `l` is written whole.
pub open spec fn size_with_block(size: u64, l: u64) -> int {
    if size < (l + 1) * 4096 {
        (l + 1) * 4096
    } else {
        size as int
    }
}

/// `b` is what the area, the pins, the index and the file are once `data`,
/// which has this hash, is written to block `l`.
pub open spec fn block_written(
    a: (DataArea, RefCountManager, DedupeTree, OpenFile),
    b: (DataArea, RefCountManager, DedupeTree, OpenFile),
    l: u64,
    data: Seq<u8>,
    hash: Seq<u8>,
) -> bool {
    &&& writer::bytes_written(a.0, b.0, a.3, b.3, l * 4096, data)
    &&& b.3.size == size_with_block(a.3.size, l)
    &&& if !writer::keeps_place(a.0, a.1, a.3, l as int) && shareable(
        a.0,
        a.1,
        a.2,
        a.3,
        l as int,
        hash,
        data,
    ) {
        let p = a.2.at(hash)->0;
        &&& shared(a.0, b.0, a.3, b.3, l, p)
        &&& refcount::pinned_once_more(a.1, b.1, p as int, 1)
        &&& b.2 == a.2
    } else {
        &&& writer::blocks_written(a.0, b.0, a.3, b.3, a.1, l as int, l + 1)
        &&& b.1 == a.1
        &&& forall|h: Seq<u8>|
            (#[trigger] b.2.at(h)) == (if h == hash {
                b.3.at(l as int)
            } else {
                a.2.at(h)
            })
    }
}

/// There is no block to write block `l` of the file to: it may not be changed
/// in place, no block can be shared, and none is free.
pub open spec fn no_block(
    area: DataArea,
    rc: RefCountManager,
    index: DedupeTree,
    file: OpenFile,
    l: u64,
    data: Seq<u8>,
    hash: Seq<u8>,
) -> bool {
    &&& !writer::keeps_place(area, rc, file, l as int)
    &&& !shareable(area, rc, index, file, l as int, hash, data)
    &&& area::free_in(area.used@) == 0
}

impl FileManager {
    /// The block that block `l` of the file can share.
    fn find_share(
        area: &DataArea,
        rc: &RefCountManager,
        index: &DedupeTree,
        file: &OpenFile,
        l: u64,
        data: &[u8],
        hash: &[u8; 32],
    ) -> (r: Option<u64>)
        requires
            area.wf(),
            rc.wf(),
            runs::runs_ok(file.runs@),
        ensures
            r is Some <==> shareable(*area, *rc, *index, *file, l as int, hash@, data@),
            r is Some ==> r == index.at(hash@),
    {
        let p: u64 = match index.lookup(hash) {
            Some(p) => p,
            None => {
                return None;
            },
        };
        if p >= area.used.len() as u64 {
            return None;
        }
        if !area.used[p as usize] || rc.coverage_at(p) == u32::MAX {
            return None;
        }
        if let Some(q) = Self::resolve_physical_block(file, l) {
            if q == p {
                return None;
            }
        }
        let held = area.read_block(p);
        if bytes::same(held.as_slice(), data) {
            Some(p)
        } else {
            None
        }
    }

    /// Writes a whole block whose hash is known. If the index knows a block
    /// that holds the data, and the block of the file cannot be written in
    /// place, that block is pinned and shared. Otherwise the block is written,
    /// and recorded under the hash.
    pub fn write_hashed_block(
        area: &mut DataArea,
        rc: &mut RefCountManager,
        index: &mut DedupeTree,
        file: &mut OpenFile,
        l: u64,
        data: &[u8],
        hash: [u8; 32],
    ) -> (r: Result<(), Error>)
        requires
            old(area).wf(),
            old(rc).wf(),
            old(file).wf_in(*old(area), *old(rc)),
            data@.len() == 4096,
            (l + 1) * 4096 <= u64::MAX,
        ensures
            final(area).wf(),
            final(rc).wf(),
            final(file).wf_in(*final(area), *final(rc)),
            ({
                let a = (*old(area), *old(rc), *old(index), *old(file));
                let b = (*final(area), *final(rc), *final(index), *final(file));
                if no_block(a.0, a.1, a.2, a.3, l, data@, hash@) {
                    &&& r matches Err(e) && e.kind == ErrorKind::StorageFull
                    &&& b == a
                } else {
                    &&& r is Ok
                    &&& block_written(a, b, l, data@, hash@)
                }
            }),
    {
        let ghost a = *area;
        let ghost fa = *file;
        let ghost ra = *rc;
        let stays: bool = match Self::resolve_physical_block(file, l) {
            Some(p) => !area.is_protected(rc, file.ino, l, p),
            None => false,
        };
        if !stays {
            if let Some(p) = Self::find_share(area, rc, index, file, l, data, &hash) {
                assert(p < area.used.len());
                rc.pin_range(p, 1);
                let moved = runs::place_block(file.runs.as_slice(), l, p);
                proof {
                    runs::lemma_moved(file.runs@, moved@, l as int, p as int);
                }
                file.runs = moved;
                if area.checked {
                    area.note_birth(
                        BlockChecksum {
                            object_id: file.ino,
                            logical_block: l,
                            physical_block: p,
                            generation: area.stamp,
                        },
                    );
                }
                if file.size < (l + 1) * 4096 {
                    file.size = (l + 1) * 4096;
                }
                proof {
                    assert(file.at(l as int) == Some(p));
                    assert forall|m: int| m != l implies #[trigger] file.at(m) == fa.at(m) by {
                        assert(runs::place(moved@, m) == runs::place(fa.runs@, m));
                    }
                    assert(rc.pin_count(p as int) == ra.pin_count(p as int) + 1);
                    refcount::lemma_pins_nonneg(ra, p as int);
                    assert forall|m: int, k: int|
                        m != k && (#[trigger] file.at(m)) is Some && file.at(m)
                            == #[trigger] file.at(k) implies rc.pin_count(file.at(m)->0 as int)
                        > 0 by {
                        let q = file.at(m)->0;
                        assert(rc.pin_count(q as int) >= ra.pin_count(q as int));
                        if m != l && k != l {
                            assert(fa.at(m) == fa.at(k));
                        }
                    }
                    assert forall|x: int| 0 <= x implies (#[trigger] file.byte(*area, x)) == (if l
                        * 4096 <= x < l * 4096 + data@.len() {
                        data@[x - l * 4096]
                    } else {
                        fa.byte(a, x)
                    }) by {
                        let m = x / 4096;
                        if m == l {
                            assert(area.bytes(p) == a.bytes(p));
                            assert(x % 4096 == x - l * 4096);
                        } else {
                            assert(file.at(m) == fa.at(m));
                            if let Some(q) = fa.at(m) {
                                assert(area.bytes(q) == a.bytes(q));
                            }
                        }
                    }
                }
                return Ok(());
            }
        }
        proof {
            reveal_with_fuel(writer::fresh_needed, 2);
            assert(l * 4096 / 4096 == l);
            assert(writer::end_block(l * 4096, 4096) == l + 1);
        }
        match Self::write_file(area, rc, file, l * 4096, data) {
            Ok(()) => {
                if let Some(p) = Self::resolve_physical_block(file, l) {
                    index.insert_new(hash, p);
                }
                Ok(())
            },
            Err(e) => Err(e),
        }
    }

    /// Writes a whole block, shared with another one that holds the same data
    /// where the index knows one.
    pub fn write_deduped_block(
        area: &mut DataArea,
        rc: &mut RefCountManager,
        index: &mut DedupeTree,
        file: &mut OpenFile,
        l: u64,
        data: &[u8],
    ) -> (r: Result<(), Error>)
        requires
            old(area).wf(),
            old(rc).wf(),
            old(file).wf_in(*old(area), *old(rc)),
            data@.len() == 4096,
            (l + 1) * 4096 <= u64::MAX,
        ensures
            final(area).wf(),
            final(rc).wf(),
            final(file).wf_in(*final(area), *final(rc)),
            ({
                let a = (*old(area), *old(rc), *old(index), *old(file));
                let b = (*final(area), *final(rc), *final(index), *final(file));
                let hash = algorithms::blake3_of(data@);
                if no_block(a.0, a.1, a.2, a.3, l, data@, hash) {
                    &&& r matches Err(e) && e.kind == ErrorKind::StorageFull
                    &&& b == a
                } else {
                    &&& r is Ok
                    &&& block_written(a, b, l, data@, hash)
                }
            }),
    {
        let hash = DeduplicationManager::hash_block(data);
        Self::write_hashed_block(area, rc, index, file, l, data, hash)
    }
}

/// A block whose data is stored already, under its hash, is stored no second
/// time: the file takes the block that is there, with one pin more, and nothing
/// is allocated. Other data is written for the file alone and found under its
/// hash from then on.
pub proof fn known_data_is_stored_once(
    a: (DataArea, RefCountManager, DedupeTree, OpenFile),
    b: (DataArea, RefCountManager, DedupeTree, OpenFile),
    l: u64,
    data: Seq<u8>,
    hash: Seq<u8>,
)
    requires
        block_written(a, b, l, data, hash),
    ensures
        ({
            let held = match a.3.at(l as int) {
                Some(p) => a.1.pin_count(p as int) > 0 || (a.0.checked && (a.0.birth(
                    a.3.ino,
                    l,
                ) matches Some(rec) && rec.generation <= a.0.barrier)),
                None => true,
            };
            let known = a.2.at(hash) matches Some(p) && a.0.in_use(p as int) && a.0.bytes(p)
                == data && a.1.pin_count(p as int) < u32::MAX && a.3.at(l as int) != Some(p);
            let p = a.2.at(hash)->0;
            &&& held && known ==> {
                &&& b.3.at(l as int) == Some(p)
                &&& b.0.used == a.0.used
                &&& b.0.blocks == a.0.blocks
                &&& b.1.pin_count(p as int) == a.1.pin_count(p as int) + 1
                &&& forall|q: int| q != p ==> #[trigger] b.1.pin_count(q) == a.1.pin_count(q)
            }
            &&& !(held && known) ==> {
                &&& b.1 == a.1
                &&& b.2.at(hash) == b.3.at(l as int)
                &&& forall|h: Seq<u8>| h != hash ==> #[trigger] b.2.at(h) == a.2.at(h)
            }
            &&& b.3.size >= a.3.size
            &&& b.3.size >= (l + 1) * 4096
            &&& b.3.size == a.3.size || b.3.size == (l + 1) * 4096
        }),
{
}

/// A write of a block fails only where it needs a free block and there is none:
/// the old one is held, or there is none, and no stored block can be shared.
pub proof fn block_is_refused_for_want_of_space(
    area: DataArea,
    rc: RefCountManager,
    index: DedupeTree,
    file: OpenFile,
    l: u64,
    data: Seq<u8>,
    hash: Seq<u8>,
)
    ensures
        area::free_in(area.used@) > 0 ==> !no_block(area, rc, index, file, l, data, hash),
        file.at(l as int) matches Some(p) ==> rc.pin_count(p as int) == 0 && !area.checked
            ==> !no_block(area, rc, index, file, l, data, hash),
        area::free_in(area.used@) == 0 && file.at(l as int) is None && index.at(hash) is None
            ==> no_block(area, rc, index, file, l, data, hash),
{
}

} // verus!
