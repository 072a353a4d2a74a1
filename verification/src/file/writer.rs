//! Reading, writing and truncating files.
//!
//! A block that is pinned, or that was born before the last snapshot, is not
//! written again: what is written to it goes to a fresh block, and the file
//! points there from then on. Every other block is written in place.

use crate::bytes;
use crate::error::{Error, ErrorKind};
use crate::file::area;
use crate::file::area::DataArea;
use crate::file::runs;
use crate::fs::extents;
use crate::fs::snapshots::BlockChecksum;
use crate::integrity::refcount::RefCountManager;
use crate::ondisk::serialization::Extent;
use vstd::prelude::*;

verus! {

/// A file whose blocks are known.
pub struct OpenFile {
    /// Inode.
    pub ino: u64,
    /// Size in bytes.
    pub size: u64,
    /// Where its blocks are.
    pub runs: Vec<Extent>,
}

/// Reads and writes files.
pub struct FileManager {}

impl OpenFile {
    /// Where block `l` is.
    pub open spec fn at(&self, l: int) -> Option<u64> {
        runs::place(self.runs@, l)
    }

    /// The runs are in order, every block is in use, and a block that the file
    /// has twice is pinned.
    pub open spec fn wf_in(&self, area: DataArea, rc: RefCountManager) -> bool {
        &&& runs::runs_ok(self.runs@)
        &&& forall|l: int|
            (#[trigger] self.at(l)) matches Some(p) ==> area.in_use(p as int)
        &&& forall|l: int, m: int|
            l != m && (#[trigger] self.at(l)) is Some && self.at(l) == #[trigger] self.at(m)
                ==> rc.pin_count(self.at(l)->0 as int) > 0
    }

    /// The byte at `x`, 0 where the file has no block.
    pub open spec fn byte(&self, area: DataArea, x: int) -> u8 {
        match self.at(x / 4096) {
            Some(p) => area.bytes(p)[x % 4096],
            None => 0,
        }
    }
}

/// Block `l` of the file is somewhere, and may be written there.
pub open spec fn keeps_place(area: DataArea, rc: RefCountManager, file: OpenFile, l: int) -> bool {
    file.at(l) matches Some(p) && !area.protects(rc, file.ino, l as u64, p)
}

/// The number of fresh blocks that writing blocks `from` to `end` takes.
pub open spec fn fresh_needed(
    area: DataArea,
    rc: RefCountManager,
    file: OpenFile,
    from: int,
    end: int,
) -> nat
    decreases end - from,
{
    if from >= end {
        0
    } else {
        fresh_needed(area, rc, file, from + 1, end) + (if keeps_place(area, rc, file, from) {
            0nat
        } else {
            1
        })
    }
}

/// One of the blocks `first` to `end` of the file is at `q`.
pub open spec fn one_is_at(file: OpenFile, first: int, end: int, q: u64) -> bool {
    exists|l: int| first <= l < end && #[trigger] file.at(l) == Some(q)
}

/// Blocks `first` to `end` of the file were written: those that may be changed
/// in place, the others to blocks that were free. Nothing else was written.
pub open spec fn blocks_written(
    a: DataArea,
    b: DataArea,
    fa: OpenFile,
    fb: OpenFile,
    rc: RefCountManager,
    first: int,
    end: int,
) -> bool {
    &&& fb.ino == fa.ino
    &&& b.checked == a.checked
    &&& b.barrier == a.barrier
    &&& b.stamp == a.stamp
    &&& b.used@.len() == a.used@.len()
    &&& forall|l: int|
        !(first <= l < end) || keeps_place(a, rc, fa, l) ==> #[trigger] fb.at(l) == fa.at(l)
    &&& forall|l: int|
        first <= l < end && !keeps_place(a, rc, fa, l) ==> ((#[trigger] fb.at(l)) matches Some(p)
            && !a.in_use(p as int))
    &&& forall|q: u64|
        (#[trigger] b.in_use(q as int)) <==> a.in_use(q as int) || one_is_at(fb, first, end, q)
    &&& forall|q: u64|
        !one_is_at(fb, first, end, q) ==> (#[trigger] b.bytes(q)) == a.bytes(q)
    &&& forall|ino: u64, l: u64|
        (#[trigger] b.birth(ino, l)) == (if a.checked && ino == fa.ino && first <= l < end {
            Some(
                BlockChecksum {
                    object_id: ino,
                    logical_block: l,
                    physical_block: fb.at(l as int)->0,
                    generation: a.stamp,
                },
            )
        } else {
            a.birth(ino, l)
        })
}

/// The bytes of the file are as before but for `data`, which is at `at`.
pub open spec fn bytes_written(
    a: DataArea,
    b: DataArea,
    fa: OpenFile,
    fb: OpenFile,
    at: int,
    data: Seq<u8>,
) -> bool {
    forall|x: int|
        0 <= x ==> (#[trigger] fb.byte(b, x)) == (if at <= x < at + data.len() {
            data[x - at]
        } else {
            fa.byte(a, x)
        })
}

/// The block behind the last byte of `len` bytes at `offset`.
pub open spec fn end_block(offset: int, len: int) -> int {
    if len == 0 {
        offset / 4096
    } else {
        (offset + len - 1) / 4096 + 1
    }
}

impl FileManager {
    /// Where a block of the file is.
    pub fn resolve_physical_block(file: &OpenFile, logical: u64) -> (r: Option<u64>)
        requires
            runs::runs_ok(file.runs@),
        ensures
            r == file.at(logical as int),
    {
        runs::find_block(file.runs.as_slice(), logical)
    }

    /// Writes `data[from..from + n]` into block `l` of the file, at `at` in
    /// the block.
    fn write_part(
        area: &mut DataArea,
        rc: &RefCountManager,
        file: &mut OpenFile,
        l: u64,
        at: usize,
        data: &[u8],
        from: usize,
        n: usize,
    )
        requires
            old(area).wf(),
            rc.wf(),
            old(file).wf_in(*old(area), *rc),
            l < u64::MAX,
            at + n <= 4096,
            from + n <= data@.len(),
            !keeps_place(*old(area), *rc, *old(file), l as int) ==> area::free_in(
                old(area).used@,
            ) > 0,
        ensures
            final(area).wf(),
            final(file).wf_in(*final(area), *rc),
            final(file).size == old(file).size,
            final(file).runs@.len() <= old(file).runs@.len() + (if keeps_place(
                *old(area),
                *rc,
                *old(file),
                l as int,
            ) {
                0int
            } else {
                2
            }),
            blocks_written(
                *old(area),
                *final(area),
                *old(file),
                *final(file),
                *rc,
                l as int,
                l + 1,
            ),
            final(file).at(l as int) is Some,
            final(area).bytes(final(file).at(l as int)->0) == bytes::overwritten(
                match old(file).at(l as int) {
                    Some(p) => old(area).bytes(p),
                    None => area::zero_block(),
                },
                at as int,
                data@.subrange(from as int, from + n),
            ),
            area::free_in(final(area).used@) == area::free_in(old(area).used@) - (if keeps_place(
                *old(area),
                *rc,
                *old(file),
                l as int,
            ) {
                0int
            } else {
                1
            }),
    {
        let found: Option<u64> = Self::resolve_physical_block(file, l);
        let stays: bool = match found {
            Some(p) => !area.is_protected(rc, file.ino, l, p),
            None => false,
        };
        let mut buf: Vec<u8> = match found {
            Some(p) => area.read_block(p),
            None => {
                let z = bytes::zeros(4096);
                assert(z@ =~= area::zero_block());
                z
            },
        };
        assert(from + n <= data.len());
        bytes::overwrite(&mut buf, at, data, from, from + n);
        let target: u64 = match found {
            Some(p) if stays => p,
            _ => match area.allocate() {
                Some(p) => p,
                None => {
                    return;
                },
            },
        };
        let ghost mid = *area;
        if !stays {
            assert(target < area.used.len());
            let moved = runs::place_block(file.runs.as_slice(), l, target);
            proof {
                runs::lemma_moved(file.runs@, moved@, l as int, target as int);
            }
            file.runs = moved;
        }
        area.write_block(target, buf);
        let ghost stored = *area;
        if area.checked {
            area.note_birth(
                BlockChecksum {
                    object_id: file.ino,
                    logical_block: l,
                    physical_block: target,
                    generation: area.stamp,
                },
            );
        }
        proof {
            assert(file.at(l as int) == Some(target));
            assert forall|m: int, k: int|
                m != k && (#[trigger] file.at(m)) is Some && file.at(m) == #[trigger] file.at(
                    k,
                ) implies rc.pin_count(file.at(m)->0 as int) > 0 by {
                assert(m != l || stays ==> file.at(m) == old(file).at(m));
                assert(k != l || stays ==> file.at(k) == old(file).at(k));
            }
            assert forall|m: int| (#[trigger] file.at(m)) is Some implies area.in_use(
                file.at(m)->0 as int,
            ) by {
                assert(m != l ==> file.at(m) == old(file).at(m));
            }
            assert forall|q: u64|
                (#[trigger] area.in_use(q as int)) <==> old(area).in_use(q as int) || one_is_at(
                    *file,
                    l as int,
                    l + 1,
                    q,
                ) by {
                if q == target {
                    assert(file.at(l as int) == Some(q));
                }
            }
            assert forall|q: u64| !one_is_at(*file, l as int, l + 1, q) implies (
            #[trigger] area.bytes(q)) == old(area).bytes(q) by {
                if q == target {
                    assert(file.at(l as int) == Some(q));
                }
                assert(stored.bytes(q) == mid.bytes(q));
            }
        }
    }
}

/// Blocks that were not written yet may be changed in place if and only if
/// they could be before.
proof fn lemma_same_rule(
    a: DataArea,
    c: DataArea,
    fa: OpenFile,
    fc: OpenFile,
    rc: RefCountManager,
    first: int,
    k: int,
    l: int,
)
    requires
        runs::runs_ok(fa.runs@),
        blocks_written(a, c, fa, fc, rc, first, k),
        l >= k,
    ensures
        fc.at(l) == fa.at(l),
        keeps_place(c, rc, fc, l) == keeps_place(a, rc, fa, l),
{
    assert(fc.at(l) == fa.at(l));
    runs::lemma_place(fa.runs@, l);
    if fa.at(l) is Some {
        assert(c.birth(fa.ino, l as u64) == a.birth(fa.ino, l as u64));
    }
}

/// Where the blocks are once one more is written.
proof fn lemma_targets(fc: OpenFile, fb: OpenFile, first: int, k: int, q: u64)
    requires
        first <= k,
        forall|l: int| l != k ==> #[trigger] fb.at(l) == fc.at(l),
    ensures
        one_is_at(fb, first, k + 1, q) <==> one_is_at(fc, first, k, q) || one_is_at(
            fb,
            k,
            k + 1,
            q,
        ),
{
    if one_is_at(fb, first, k + 1, q) {
        let l = choose|l: int| first <= l < k + 1 && #[trigger] fb.at(l) == Some(q);
        assert(l < k ==> fc.at(l) == Some(q));
        assert(l == k ==> fb.at(k) == Some(q));
    }
    if one_is_at(fc, first, k, q) {
        let l = choose|l: int| first <= l < k && #[trigger] fc.at(l) == Some(q);
        assert(fb.at(l) == Some(q));
    }
    if one_is_at(fb, k, k + 1, q) {
        let l = choose|l: int| k <= l < k + 1 && #[trigger] fb.at(l) == Some(q);
        assert(fb.at(l) == Some(q));
    }
}

/// Writing one more block.
proof fn lemma_next_block(
    a: DataArea,
    c: DataArea,
    b: DataArea,
    fa: OpenFile,
    fc: OpenFile,
    fb: OpenFile,
    rc: RefCountManager,
    first: int,
    k: int,
)
    requires
        fa.wf_in(a, rc),
        fc.wf_in(c, rc),
        fb.wf_in(b, rc),
        first <= k,
        blocks_written(a, c, fa, fc, rc, first, k),
        blocks_written(c, b, fc, fb, rc, k, k + 1),
        fb.at(k) is Some,
    ensures
        blocks_written(a, b, fa, fb, rc, first, k + 1),
{
    assert forall|l: int| !(first <= l < k + 1) || keeps_place(a, rc, fa, l) implies #[trigger] fb.at(
        l,
    ) == fa.at(l) by {
        assert(fc.at(l) == fa.at(l));
        if l >= k {
            lemma_same_rule(a, c, fa, fc, rc, first, k, l);
        }
        assert(fb.at(l) == fc.at(l));
    }
    assert forall|l: int| first <= l < k + 1 && !keeps_place(a, rc, fa, l) implies ((
    #[trigger] fb.at(l)) matches Some(p) && !a.in_use(p as int)) by {
        if l < k {
            assert(fb.at(l) == fc.at(l));
        } else {
            lemma_same_rule(a, c, fa, fc, rc, first, k, l);
            let p = fb.at(k)->0;
            assert(!c.in_use(p as int));
            assert(!a.in_use(p as int));
        }
    }
    assert forall|q: u64|
        (#[trigger] b.in_use(q as int)) <==> a.in_use(q as int) || one_is_at(fb, first, k + 1, q) by {
        assert(c.in_use(q as int) <==> a.in_use(q as int) || one_is_at(fc, first, k, q));
        assert(b.in_use(q as int) <==> c.in_use(q as int) || one_is_at(fb, k, k + 1, q));
        lemma_targets(fc, fb, first, k, q);
    }
    assert forall|q: u64| !one_is_at(fb, first, k + 1, q) implies (#[trigger] b.bytes(q))
        == a.bytes(q) by {
        lemma_targets(fc, fb, first, k, q);
        assert(c.bytes(q) == a.bytes(q));
    }
    assert forall|ino: u64, l: u64|
        (#[trigger] b.birth(ino, l)) == (if a.checked && ino == fa.ino && first <= l < k + 1 {
            Some(
                BlockChecksum {
                    object_id: ino,
                    logical_block: l,
                    physical_block: fb.at(l as int)->0,
                    generation: a.stamp,
                },
            )
        } else {
            a.birth(ino, l)
        }) by {
        assert(c.birth(ino, l) == c.birth(ino, l));
        if l != k {
            assert(fb.at(l as int) == fc.at(l as int));
        }
    }
}

/// The bytes of the file once one more block is written.
proof fn lemma_next_bytes(
    a: DataArea,
    c: DataArea,
    b: DataArea,
    fa: OpenFile,
    fc: OpenFile,
    fb: OpenFile,
    rc: RefCountManager,
    offset: int,
    data: Seq<u8>,
    done: int,
    n: int,
    k: int,
)
    requires
        fc.wf_in(c, rc),
        fb.wf_in(b, rc),
        blocks_written(c, b, fc, fb, rc, k, k + 1),
        bytes_written(a, c, fa, fc, offset, data.take(done)),
        0 <= offset,
        0 <= done,
        0 < n,
        done + n <= data.len(),
        k == (offset + done) / 4096,
        (offset + done) % 4096 + n <= 4096,
        fb.at(k) is Some,
        forall|p: u64| (#[trigger] c.bytes(p)).len() == 4096,
        b.bytes(fb.at(k)->0) == bytes::overwritten(
            match fc.at(k) {
                Some(p) => c.bytes(p),
                None => area::zero_block(),
            },
            (offset + done) % 4096,
            data.subrange(done, done + n),
        ),
    ensures
        bytes_written(a, b, fa, fb, offset, data.take(done + n)),
{
    let at = (offset + done) % 4096;
    let part = data.subrange(done, done + n);
    assert forall|x: int| 0 <= x implies (#[trigger] fb.byte(b, x)) == (if offset <= x < offset
        + data.take(done + n).len() {
        data.take(done + n)[x - offset]
    } else {
        fa.byte(a, x)
    }) by {
        assert(fc.byte(c, x) == (if offset <= x < offset + data.take(done).len() {
            data.take(done)[x - offset]
        } else {
            fa.byte(a, x)
        }));
        let l = x / 4096;
        if l == k {
            let base = match fc.at(k) {
                Some(p) => c.bytes(p),
                None => area::zero_block(),
            };
            assert(base.len() == 4096);
            assert(fc.byte(c, x) == base[x % 4096]);
            assert(fb.byte(b, x) == bytes::overwritten(base, at, part)[x % 4096]);
            if at <= x % 4096 < at + n {
                assert(x - offset == done + (x % 4096 - at));
                assert(part[x % 4096 - at] == data[x - offset]);
            }
        } else {
            assert(fb.at(l) == fc.at(l));
            if let Some(q) = fb.at(l) {
                assert(!one_is_at(fb, k, k + 1, q)) by {
                    if one_is_at(fb, k, k + 1, q) {
                        let m = choose|m: int| k <= m < k + 1 && #[trigger] fb.at(m) == Some(q);
                        assert(fb.at(m) == fb.at(l));
                        assert(rc.pin_count(q as int) > 0);
                        assert(fc.at(l) == Some(q));
                        assert(c.in_use(q as int));
                    }
                }
                assert(b.bytes(q) == c.bytes(q));
            }
            assert(fb.byte(b, x) == fc.byte(c, x));
        }
    }
}

/// A file has the same blocks and bytes whatever its size.
proof fn lemma_size_apart(
    a: DataArea,
    b: DataArea,
    fa: OpenFile,
    f: OpenFile,
    g: OpenFile,
    rc: RefCountManager,
    first: int,
    end: int,
    at: int,
    data: Seq<u8>,
)
    requires
        f.wf_in(b, rc),
        blocks_written(a, b, fa, f, rc, first, end),
        bytes_written(a, b, fa, f, at, data),
        g.runs@ == f.runs@,
        g.ino == f.ino,
    ensures
        g.wf_in(b, rc),
        blocks_written(a, b, fa, g, rc, first, end),
        bytes_written(a, b, fa, g, at, data),
{
    assert forall|l: int| #[trigger] g.at(l) == f.at(l) by {}
    assert forall|q: u64| one_is_at(g, first, end, q) == #[trigger] one_is_at(f, first, end, q) by {
        if one_is_at(g, first, end, q) {
            let l = choose|l: int| first <= l < end && #[trigger] g.at(l) == Some(q);
            assert(f.at(l) == Some(q));
        }
        if one_is_at(f, first, end, q) {
            let l = choose|l: int| first <= l < end && #[trigger] f.at(l) == Some(q);
            assert(g.at(l) == Some(q));
        }
    }
    assert forall|q: u64|
        (#[trigger] b.in_use(q as int)) <==> a.in_use(q as int) || one_is_at(g, first, end, q) by {
        assert(one_is_at(g, first, end, q) == one_is_at(f, first, end, q));
    }
    assert forall|q: u64| !one_is_at(g, first, end, q) implies (#[trigger] b.bytes(q)) == a.bytes(
        q,
    ) by {
        assert(one_is_at(g, first, end, q) == one_is_at(f, first, end, q));
    }
    assert forall|x: int| 0 <= x implies (#[trigger] g.byte(b, x)) == (if at <= x < at + data.len() {
        data[x - at]
    } else {
        fa.byte(a, x)
    }) by {
        assert(g.byte(b, x) == f.byte(b, x));
    }
}

impl FileManager {
    /// The number of fresh blocks that writing blocks `first` to `end` takes.
    pub fn count_fresh(area: &DataArea, rc: &RefCountManager, file: &OpenFile, first: u64, end: u64) -> (r:
        u64)
        requires
            rc.wf(),
            runs::runs_ok(file.runs@),
            first <= end,
        ensures
            r == fresh_needed(*area, *rc, *file, first as int, end as int),
            r <= end - first,
    {
        let mut n: u64 = 0;
        let mut l: u64 = end;
        while l > first
            invariant
                rc.wf(),
                runs::runs_ok(file.runs@),
                first <= l <= end,
                n == fresh_needed(*area, *rc, *file, l as int, end as int),
                n <= end - l,
            decreases l,
        {
            l = l - 1;
            let stays: bool = match Self::resolve_physical_block(file, l) {
                Some(p) => !area.is_protected(rc, file.ino, l, p),
                None => false,
            };
            if !stays {
                n = n + 1;
            }
        }
        n
    }

    /// Writes `data` at `offset` and leaves the size as it is.
    fn write_range(
        area: &mut DataArea,
        rc: &RefCountManager,
        file: &mut OpenFile,
        offset: u64,
        data: &[u8],
    ) -> (r: Result<(), Error>)
        requires
            old(area).wf(),
            rc.wf(),
            old(file).wf_in(*old(area), *rc),
            offset + data@.len() <= u64::MAX,
        ensures
            final(area).wf(),
            final(file).wf_in(*final(area), *rc),
            final(file).size == old(file).size,
            ({
                let first = offset as int / 4096;
                let end = end_block(offset as int, data@.len() as int);
                if fresh_needed(*old(area), *rc, *old(file), first, end) > area::free_in(
                    old(area).used@,
                ) {
                    &&& r matches Err(e) && e.kind == ErrorKind::StorageFull
                    &&& *final(area) == *old(area)
                    &&& *final(file) == *old(file)
                } else {
                    &&& r is Ok
                    &&& area::free_in(final(area).used@) == area::free_in(old(area).used@)
                        - fresh_needed(*old(area), *rc, *old(file), first, end)
                    &&& final(file).runs@.len() <= old(file).runs@.len() + 2 * fresh_needed(
                        *old(area),
                        *rc,
                        *old(file),
                        first,
                        end,
                    )
                    &&& blocks_written(
                        *old(area),
                        *final(area),
                        *old(file),
                        *final(file),
                        *rc,
                        first,
                        end,
                    )
                    &&& bytes_written(
                        *old(area),
                        *final(area),
                        *old(file),
                        *final(file),
                        offset as int,
                        data@,
                    )
                }
            }),
    {
        let len: usize = data.len();
        let first: u64 = offset / 4096;
        let end: u64 = if len == 0 {
            first
        } else {
            (offset + (len - 1) as u64) / 4096 + 1
        };
        let ghost a = *area;
        let ghost fa = *file;
        let needed: u64 = Self::count_fresh(area, rc, file, first, end);
        let free: usize = area.used.len() - area.used_blocks();
        if needed > free as u64 {
            return Err(Error::new(ErrorKind::StorageFull, "no free block"));
        }
        let mut done: usize = 0;
        let mut l: u64 = first;
        proof {
            assert(data@.take(0) =~= Seq::<u8>::empty());
        }
        while done < len
            invariant
                len == data@.len(),
                area.wf(),
                rc.wf(),
                fa.wf_in(a, *rc),
                file.wf_in(*area, *rc),
                file.size == fa.size,
                offset + len <= u64::MAX,
                done <= len,
                first == offset / 4096,
                len > 0 ==> end == (offset + len - 1) / 4096 + 1,
                len == 0 ==> end == first,
                first <= l <= end,
                done < len ==> l == (offset + done) / 4096,
                done == len ==> l == end,
                0 < done < len ==> (offset + done) % 4096 == 0,
                blocks_written(a, *area, fa, *file, *rc, first as int, l as int),
                bytes_written(a, *area, fa, *file, offset as int, data@.take(done as int)),
                fresh_needed(a, *rc, fa, l as int, end as int) <= area::free_in(area.used@),
                fresh_needed(a, *rc, fa, first as int, end as int) <= area::free_in(a.used@),
                area::free_in(area.used@) - fresh_needed(a, *rc, fa, l as int, end as int)
                    == area::free_in(a.used@) - fresh_needed(
                    a,
                    *rc,
                    fa,
                    first as int,
                    end as int,
                ),
                file.runs@.len() <= fa.runs@.len() + 2 * (area::free_in(a.used@) - area::free_in(
                    area.used@,
                )),
            decreases len - done,
        {
            let at: usize = ((offset + done as u64) % 4096) as usize;
            let room: usize = 4096 - at;
            let n: usize = if len - done < room {
                len - done
            } else {
                room
            };
            let ghost c = *area;
            let ghost fc = *file;
            proof {
                lemma_same_rule(a, c, fa, fc, *rc, first as int, l as int, l as int);
                assert(l < end);
            }
            Self::write_part(area, rc, file, l, at, data, done, n);
            proof {
                lemma_next_block(a, c, *area, fa, fc, *file, *rc, first as int, l as int);
                lemma_next_bytes(
                    a,
                    c,
                    *area,
                    fa,
                    fc,
                    *file,
                    *rc,
                    offset as int,
                    data@,
                    done as int,
                    n as int,
                    l as int,
                );
            }
            done = done + n;
            l = l + 1;
        }
        assert(data@.take(len as int) =~= data@);
        Ok(())
    }

    /// Writes `data` at `offset`. A block that a snapshot still needs is not
    /// touched: the file gets a fresh block in its place. If there are too few
    /// free blocks nothing is written.
    pub fn write_file(
        area: &mut DataArea,
        rc: &RefCountManager,
        file: &mut OpenFile,
        offset: u64,
        data: &[u8],
    ) -> (r: Result<(), Error>)
        requires
            old(area).wf(),
            rc.wf(),
            old(file).wf_in(*old(area), *rc),
            offset + data@.len() <= u64::MAX,
        ensures
            final(area).wf(),
            final(file).wf_in(*final(area), *rc),
            ({
                let first = offset as int / 4096;
                let end = end_block(offset as int, data@.len() as int);
                if fresh_needed(*old(area), *rc, *old(file), first, end) > area::free_in(
                    old(area).used@,
                ) {
                    &&& r matches Err(e) && e.kind == ErrorKind::StorageFull
                    &&& *final(area) == *old(area)
                    &&& *final(file) == *old(file)
                } else {
                    &&& r is Ok
                    &&& area::free_in(final(area).used@) == area::free_in(old(area).used@)
                        - fresh_needed(*old(area), *rc, *old(file), first, end)
                    &&& final(file).runs@.len() <= old(file).runs@.len() + 2 * fresh_needed(
                        *old(area),
                        *rc,
                        *old(file),
                        first,
                        end,
                    )
                    &&& blocks_written(
                        *old(area),
                        *final(area),
                        *old(file),
                        *final(file),
                        *rc,
                        first,
                        end,
                    )
                    &&& bytes_written(
                        *old(area),
                        *final(area),
                        *old(file),
                        *final(file),
                        offset as int,
                        data@,
                    )
                    &&& final(file).size == (if data@.len() > 0 && old(file).size < offset
                        + data@.len() {
                        offset + data@.len()
                    } else {
                        old(file).size as int
                    })
                }
            }),
    {
        match Self::write_range(area, rc, file, offset, data) {
            Ok(()) => {
                let end: u64 = offset + data.len() as u64;
                let ghost f = *file;
                if data.len() > 0 && end > file.size {
                    file.size = end;
                }
                proof {
                    lemma_size_apart(
                        *old(area),
                        *area,
                        *old(file),
                        f,
                        *file,
                        *rc,
                        offset as int / 4096,
                        end_block(offset as int, data@.len() as int),
                        offset as int,
                        data@,
                    );
                }
                Ok(())
            },
            Err(e) => Err(e),
        }
    }
}

/// A block of the file from `end` on, in front of `lim`, is at `q` and may be
/// given back.
pub open spec fn given_back(
    a: DataArea,
    rc: RefCountManager,
    f: OpenFile,
    end: int,
    lim: int,
    q: u64,
) -> bool {
    exists|l: int|
        end <= l < lim && #[trigger] f.at(l) == Some(q) && !a.protects(rc, f.ino, l as u64, q)
}

/// The file lost its blocks from `end` on: those that nothing protects are
/// free again, the others stay as they are.
pub open spec fn blocks_dropped(
    a: DataArea,
    b: DataArea,
    fa: OpenFile,
    fb: OpenFile,
    rc: RefCountManager,
    end: int,
) -> bool {
    &&& fb.ino == fa.ino
    &&& b.checked == a.checked
    &&& b.barrier == a.barrier
    &&& b.stamp == a.stamp
    &&& b.used@.len() == a.used@.len()
    &&& forall|l: int|
        (#[trigger] fb.at(l)) == (if l < end {
            fa.at(l)
        } else {
            None
        })
    &&& forall|q: u64|
        (#[trigger] b.in_use(q as int)) <==> a.in_use(q as int) && !given_back(
            a,
            rc,
            fa,
            end,
            0x1_0000_0000_0000_0000,
            q,
        )
    &&& forall|q: u64| (#[trigger] b.bytes(q)) == a.bytes(q)
    &&& forall|ino: u64, l: u64|
        (#[trigger] b.birth(ino, l)) == (if a.checked && ino == fa.ino && l >= end {
            None
        } else {
            a.birth(ino, l)
        })
}

/// The number of bytes behind a new end of the file, in its last block, that
/// are to be zero.
pub open spec fn tail_bytes(f: OpenFile, new_size: u64) -> int {
    if new_size < f.size && new_size % 4096 != 0 && f.at(new_size as int / 4096) is Some {
        4096 - new_size % 4096
    } else {
        0
    }
}

/// What is given back grows with the block that was looked at.
proof fn lemma_given_back_step(
    a: DataArea,
    rc: RefCountManager,
    f: OpenFile,
    end: int,
    l: int,
    q: u64,
)
    ensures
        given_back(a, rc, f, end, l + 1, q) <==> given_back(a, rc, f, end, l, q) || (end <= l
            && f.at(l) == Some(q) && !a.protects(rc, f.ino, l as u64, q)),
{
    if given_back(a, rc, f, end, l + 1, q) {
        let m = choose|m: int|
            end <= m < l + 1 && #[trigger] f.at(m) == Some(q) && !a.protects(
                rc,
                f.ino,
                m as u64,
                q,
            );
        assert(m < l ==> given_back(a, rc, f, end, l, q));
    }
    if given_back(a, rc, f, end, l, q) {
        let m = choose|m: int|
            end <= m < l && #[trigger] f.at(m) == Some(q) && !a.protects(rc, f.ino, m as u64, q);
        assert(f.at(m) == Some(q));
    }
}

/// Between two runs, and in front of and behind all, nothing is given back.
proof fn lemma_given_back_gap(
    a: DataArea,
    rc: RefCountManager,
    f: OpenFile,
    end: int,
    from: int,
    to: int,
    q: u64,
)
    requires
        from <= to,
        forall|l: int| from <= l < to ==> #[trigger] f.at(l) is None,
    ensures
        given_back(a, rc, f, end, from, q) == given_back(a, rc, f, end, to, q),
{
    if given_back(a, rc, f, end, to, q) {
        let m = choose|m: int|
            end <= m < to && #[trigger] f.at(m) == Some(q) && !a.protects(rc, f.ino, m as u64, q);
        assert(m < from);
    }
    if given_back(a, rc, f, end, from, q) {
        let m = choose|m: int|
            end <= m < from && #[trigger] f.at(m) == Some(q) && !a.protects(
                rc,
                f.ino,
                m as u64,
                q,
            );
        assert(m < to);
    }
}

/// Between two runs, and in front of and behind all, the file has no block.
proof fn lemma_gap(s: Seq<Extent>, i: int, l: int)
    requires
        runs::runs_ok(s),
        0 <= i <= s.len(),
        i > 0 ==> runs::logical_end(s[i - 1]) <= l,
        i < s.len() ==> l < s[i].logical_start,
    ensures
        runs::place(s, l) is None,
{
    runs::lemma_place(s, l);
    if let Some(p) = runs::place(s, l) {
        let k = choose|k: int|
            0 <= k < s.len() && extents::extent_maps(#[trigger] s[k], l, p as int);
        assert(runs::run_ok(s[k]));
        if k < i - 1 {
            assert(runs::logical_end(s[k]) <= s[i - 1].logical_start);
            assert(runs::run_ok(s[i - 1]));
        }
        if k > i {
            assert(runs::logical_end(s[i]) <= s[k].logical_start);
            assert(runs::run_ok(s[i]));
        }
    }
}

impl FileManager {
    /// Gives the blocks of the file from `end` on back that nothing protects.
    fn give_back(area: &mut DataArea, rc: &RefCountManager, file: &OpenFile, end: u64)
        requires
            old(area).wf(),
            rc.wf(),
            file.wf_in(*old(area), *rc),
        ensures
            final(area).wf(),
            final(area).used@.len() == old(area).used@.len(),
            *final(area) == (DataArea { used: final(area).used, ..*old(area) }),
            forall|q: u64|
                (#[trigger] final(area).in_use(q as int)) <==> old(area).in_use(q as int)
                    && !given_back(
                    *old(area),
                    *rc,
                    *file,
                    end as int,
                    0x1_0000_0000_0000_0000,
                    q,
                ),
    {
        let ghost a = *area;
        let ghost s = file.runs@;
        let mut pos: u64 = 0;
        let mut i: usize = 0;
        proof {
            assert forall|q: u64| !given_back(a, *rc, *file, end as int, 0, q) by {}
        }
        while i < file.runs.len()
            invariant
                s == file.runs@,
                a.wf(),
                rc.wf(),
                file.wf_in(a, *rc),
                area.used@.len() == a.used@.len(),
                *area == (DataArea { used: area.used, ..a }),
                i <= s.len(),
                i == 0 ==> pos == 0,
                i > 0 ==> pos == runs::logical_end(s[i - 1]),
                forall|q: u64|
                    (#[trigger] area.in_use(q as int)) <==> a.in_use(q as int) && !given_back(
                        a,
                        *rc,
                        *file,
                        end as int,
                        pos as int,
                        q,
                    ),
            decreases s.len() - i,
        {
            let e: Extent = file.runs[i];
            let stop: u64 = e.logical_start + e.length;
            let mut l: u64 = e.logical_start;
            proof {
                assert(runs::run_ok(s[i as int]));
                assert(i > 0 ==> runs::logical_end(s[i - 1]) <= s[i as int].logical_start);
                assert forall|q: u64|
                    (#[trigger] area.in_use(q as int)) <==> a.in_use(q as int) && !given_back(
                        a,
                        *rc,
                        *file,
                        end as int,
                        l as int,
                        q,
                    ) by {
                    assert forall|m: int| pos <= m < l implies #[trigger] file.at(m) is None by {
                        lemma_gap(s, i as int, m);
                    }
                    lemma_given_back_gap(a, *rc, *file, end as int, pos as int, l as int, q);
                }
            }
            while l < stop
                invariant
                    s == file.runs@,
                    a.wf(),
                    rc.wf(),
                    file.wf_in(a, *rc),
                    area.used@.len() == a.used@.len(),
                    *area == (DataArea { used: area.used, ..a }),
                    i < s.len(),
                    e == s[i as int],
                    runs::run_ok(e),
                    stop == runs::logical_end(e),
                    e.logical_start <= l <= stop,
                    forall|q: u64|
                        (#[trigger] area.in_use(q as int)) <==> a.in_use(q as int) && !given_back(
                            a,
                            *rc,
                            *file,
                            end as int,
                            l as int,
                            q,
                        ),
                decreases stop - l,
            {
                let p: u64 = e.physical_start + (l - e.logical_start);
                let ghost before = *area;
                proof {
                    assert(extents::extent_maps(s[i as int], l as int, p as int));
                    runs::lemma_one_place(s, l as int, p as int);
                    assert(file.at(l as int) == Some(p));
                    assert(a.in_use(p as int));
                }
                let kept: bool = area.is_protected(rc, file.ino, l, p);
                if l >= end && !kept {
                    area.release(p);
                }
                proof {
                    assert(area.protects(*rc, file.ino, l, p) == a.protects(*rc, file.ino, l, p));
                    assert forall|q: u64|
                        (#[trigger] area.in_use(q as int)) <==> a.in_use(q as int) && !given_back(
                            a,
                            *rc,
                            *file,
                            end as int,
                            l + 1,
                            q,
                        ) by {
                        lemma_given_back_step(a, *rc, *file, end as int, l as int, q);
                        assert(before.in_use(q as int) <==> a.in_use(q as int) && !given_back(
                            a,
                            *rc,
                            *file,
                            end as int,
                            l as int,
                            q,
                        ));
                    }
                }
                l = l + 1;
            }
            pos = stop;
            i = i + 1;
        }
        proof {
            assert forall|q: u64|
                (#[trigger] area.in_use(q as int)) <==> a.in_use(q as int) && !given_back(
                    a,
                    *rc,
                    *file,
                    end as int,
                    0x1_0000_0000_0000_0000,
                    q,
                ) by {
                assert forall|m: int|
                    pos <= m < 0x1_0000_0000_0000_0000 implies #[trigger] file.at(m) is None by {
                    lemma_gap(s, s.len() as int, m);
                }
                lemma_given_back_gap(
                    a,
                    *rc,
                    *file,
                    end as int,
                    pos as int,
                    0x1_0000_0000_0000_0000,
                    q,
                );
            }
        }
    }

    /// Takes the blocks from `end` on away from the file.
    fn drop_blocks(area: &mut DataArea, rc: &RefCountManager, file: &mut OpenFile, end: u64)
        requires
            old(area).wf(),
            rc.wf(),
            old(file).wf_in(*old(area), *rc),
        ensures
            final(area).wf(),
            final(file).wf_in(*final(area), *rc),
            final(file).size == old(file).size,
            final(file).runs@.len() <= old(file).runs@.len(),
            blocks_dropped(
                *old(area),
                *final(area),
                *old(file),
                *final(file),
                *rc,
                end as int,
            ),
    {
        Self::give_back(area, rc, file, end);
        let ghost mid = *area;
        let kept = runs::cut_runs(file.runs.as_slice(), end);
        proof {
            runs::lemma_cut(file.runs@, kept@, end as int);
        }
        file.runs = kept;
        if area.checked {
            area.forget_births(file.ino, end);
        }
        proof {
            assert forall|q: u64| (#[trigger] area.bytes(q)) == old(area).bytes(q) by {}
            assert forall|q: u64| (#[trigger] area.in_use(q as int)) == mid.in_use(q as int) by {}
            assert forall|m: int, k: int|
                m != k && (#[trigger] file.at(m)) is Some && file.at(m) == #[trigger] file.at(
                    k,
                ) implies rc.pin_count(file.at(m)->0 as int) > 0 by {
                assert(old(file).at(m) == old(file).at(k));
            }
            assert forall|m: int| (#[trigger] file.at(m)) is Some implies area.in_use(
                file.at(m)->0 as int,
            ) by {
                let q = file.at(m)->0;
                assert(old(file).at(m) == Some(q));
                if given_back(
                    *old(area),
                    *rc,
                    *old(file),
                    end as int,
                    0x1_0000_0000_0000_0000,
                    q,
                ) {
                    let k = choose|k: int|
                        end <= k < 0x1_0000_0000_0000_0000 && #[trigger] old(file).at(k) == Some(q)
                            && !old(area).protects(*rc, old(file).ino, k as u64, q);
                    assert(old(file).at(m) == old(file).at(k));
                    assert(rc.pin_count(q as int) > 0);
                }
                assert(mid.in_use(q as int));
                assert(area.in_use(q as int));
            }
        }
    }
}

/// `fb` in `b` is `fa` in `a` cut to `new_size`: what is behind the new end in
/// its last block is zero, and the blocks behind that one are dropped.
pub open spec fn shrunk(
    a: DataArea,
    b: DataArea,
    fa: OpenFile,
    fb: OpenFile,
    rc: RefCountManager,
    new_size: u64,
) -> bool {
    exists|m: DataArea, fm: OpenFile|
        {
            &&& #[trigger] fm.wf_in(m, rc)
            &&& blocks_written(
                a,
                m,
                fa,
                fm,
                rc,
                new_size as int / 4096,
                end_block(new_size as int, tail_bytes(fa, new_size)),
            )
            &&& blocks_dropped(m, b, fm, fb, rc, end_block(0, new_size as int))
        }
}

impl FileManager {
    /// Sets the size of the file. Bytes behind a smaller size are gone: they
    /// read as zero should the file grow again. If a block for the zeros in
    /// the last block is needed and none is free nothing is changed.
    pub fn truncate_file(
        area: &mut DataArea,
        rc: &RefCountManager,
        file: &mut OpenFile,
        new_size: u64,
    ) -> (r: Result<(), Error>)
        requires
            old(area).wf(),
            rc.wf(),
            old(file).wf_in(*old(area), *rc),
            old(file).size + 4096 <= u64::MAX,
        ensures
            final(area).wf(),
            final(file).wf_in(*final(area), *rc),
            ({
                let tail = new_size as int / 4096;
                let zeros = tail_bytes(*old(file), new_size);
                if zeros > 0 && !keeps_place(*old(area), *rc, *old(file), tail) && area::free_in(
                    old(area).used@,
                ) == 0 {
                    &&& r matches Err(e) && e.kind == ErrorKind::StorageFull
                    &&& *final(area) == *old(area)
                    &&& *final(file) == *old(file)
                } else {
                    &&& r is Ok
                    &&& final(file).size == new_size
                    &&& final(file).ino == old(file).ino
                    &&& final(file).runs@.len() <= old(file).runs@.len() + (if zeros > 0
                        && !keeps_place(*old(area), *rc, *old(file), tail) {
                        2int
                    } else {
                        0
                    })
                    &&& forall|x: int|
                        0 <= x ==> (#[trigger] final(file).byte(*final(area), x)) == (if new_size
                            < old(file).size && x >= new_size {
                            0
                        } else {
                            old(file).byte(*old(area), x)
                        })
                    &&& new_size < old(file).size ==> shrunk(
                        *old(area),
                        *final(area),
                        *old(file),
                        *final(file),
                        *rc,
                        new_size,
                    )
                    &&& new_size >= old(file).size ==> {
                        &&& *final(area) == *old(area)
                        &&& final(file).runs == old(file).runs
                    }
                }
            }),
    {
        if new_size >= file.size {
            file.size = new_size;
            proof {
                assert forall|l: int| #[trigger] file.at(l) == old(file).at(l) by {}
                assert forall|x: int| #[trigger] file.byte(*area, x) == old(file).byte(*area, x) by {}
            }
            return Ok(());
        }
        let ghost a = *area;
        let ghost fa = *file;
        let tail: u64 = new_size / 4096;
        let rem: usize = (new_size % 4096) as usize;
        let ghost zeros = tail_bytes(fa, new_size);
        proof {
            reveal_with_fuel(fresh_needed, 2);
            assert(end_block(0, new_size as int) == (if rem == 0 {
                tail as int
            } else {
                tail + 1
            }));
        }
        if rem != 0 {
            if Self::resolve_physical_block(file, tail).is_some() {
                let z = bytes::zeros(4096 - rem);
                proof {
                    assert(zeros == 4096 - rem);
                    assert((new_size + zeros - 1) / 4096 == tail);
                    assert(end_block(new_size as int, zeros) == tail + 1);
                }
                match Self::write_range(area, rc, file, new_size, z.as_slice()) {
                    Ok(()) => {},
                    Err(e) => {
                        return Err(e);
                    },
                }
            }
        }
        let ghost m = *area;
        let ghost fm = *file;
        proof {
            if zeros == 0 {
                assert forall|q: u64| !one_is_at(fa, tail as int, tail as int, q) by {}
                assert(blocks_written(a, m, fa, fm, *rc, tail as int, tail as int));
            }
            assert forall|x: int| 0 <= x implies (#[trigger] fm.byte(m, x)) == (if zeros > 0
                && new_size <= x < new_size + zeros {
                0
            } else {
                fa.byte(a, x)
            }) by {}
        }
        let end: u64 = if rem == 0 {
            tail
        } else {
            tail + 1
        };
        Self::drop_blocks(area, rc, file, end);
        let ghost fd = *file;
        file.size = new_size;
        proof {
            assert forall|l: int| #[trigger] file.at(l) == fd.at(l) by {}
            assert(blocks_dropped(m, *area, fm, *file, *rc, end as int));
            assert(shrunk(a, *area, fa, *file, *rc, new_size)) by {
                assert(fm.wf_in(m, *rc));
            }
            assert forall|x: int| 0 <= x implies (#[trigger] file.byte(*area, x)) == (if x
                >= new_size {
                0
            } else {
                fa.byte(a, x)
            }) by {
                let l = x / 4096;
                assert(fm.byte(m, x) == (if zeros > 0 && new_size <= x < new_size + zeros {
                    0
                } else {
                    fa.byte(a, x)
                }));
                if l < end {
                    assert(file.at(l) == fm.at(l));
                    if let Some(p) = fm.at(l) {
                        assert(area.bytes(p) == m.bytes(p));
                    }
                    assert(file.byte(*area, x) == fm.byte(m, x));
                    if x >= new_size {
                        assert(l == tail && rem != 0);
                        if zeros == 0 {
                            assert(fa.at(tail as int) is None);
                        }
                    }
                } else {
                    assert(file.at(l) is None);
                }
            }
        }
        Ok(())
    }

    /// Reads up to `len` bytes at `offset`, as far as the file goes.
    pub fn read_file(area: &DataArea, file: &OpenFile, offset: u64, len: u64) -> (r: Vec<u8>)
        requires
            area.wf(),
            runs::runs_ok(file.runs@),
            len <= usize::MAX,
        ensures
            r@ == Seq::new(
                if offset >= file.size {
                    0
                } else if len < file.size - offset {
                    len as nat
                } else {
                    (file.size - offset) as nat
                },
                |i: int| file.byte(*area, offset + i),
            ),
    {
        let mut out: Vec<u8> = Vec::new();
        if offset >= file.size {
            assert(out@ =~= Seq::new(0, |i: int| file.byte(*area, offset + i)));
            return out;
        }
        let total: u64 = if len < file.size - offset {
            len
        } else {
            file.size - offset
        };
        let mut done: u64 = 0;
        while done < total
            invariant
                area.wf(),
                runs::runs_ok(file.runs@),
                offset + total <= file.size,
                total <= usize::MAX,
                done <= total,
                out@ == Seq::new(done as nat, |i: int| file.byte(*area, offset + i)),
            decreases total - done,
        {
            let x: u64 = offset + done;
            let l: u64 = x / 4096;
            let at: usize = (x % 4096) as usize;
            let room: u64 = 4096 - at as u64;
            let n: u64 = if total - done < room {
                total - done
            } else {
                room
            };
            let block: Vec<u8> = match Self::resolve_physical_block(file, l) {
                Some(p) => area.read_block(p),
                None => {
                    let z = bytes::zeros(4096);
                    assert(z@ =~= area::zero_block());
                    z
                },
            };
            let part = bytes::copy_range(block.as_slice(), at, at + n as usize);
            let ghost before = out@;
            bytes::append(&mut out, part.as_slice());
            proof {
                assert forall|i: int| 0 <= i < done + n implies #[trigger] out@[i] == file.byte(
                    *area,
                    offset + i,
                ) by {
                    if i >= done {
                        let y = offset + i;
                        assert(y / 4096 == l && y % 4096 == at + (i - done));
                        assert(out@[i] == part@[i - done]);
                    } else {
                        assert(out@[i] == before[i]);
                    }
                }
            }
            done = done + n;
            assert(out@ =~= Seq::new(done as nat, |i: int| file.byte(*area, offset + i)));
        }
        out
    }
}

} // verus!
