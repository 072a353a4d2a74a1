//! Where the blocks of the files of an image are.
//!
//! A file has its first runs in its inode and the others in a list of its own.
//! Two files have a block in common only if it is pinned, so that a write to
//! one goes around what the other reads.

use crate::file::area::DataArea;
use crate::file::runs;
use crate::file::writer;
use crate::file::writer::OpenFile;
use crate::fs::extents;
use crate::fs::filesystem;
use crate::fs::snapshots::BlockChecksum;
use crate::fs::volume;
use crate::integrity::refcount::RefCountManager;
use crate::ondisk::serialization::{Extent, Inode};
use vstd::prelude::*;

verus! {

/// The runs that are kept under a root.
pub open spec fn spilled_at(spills: Map<u64, Seq<Extent>>, root: u64) -> Seq<Extent> {
    if root != 0 && spills.contains_key(root) {
        spills[root]
    } else {
        Seq::empty()
    }
}

/// The runs of a file.
pub open spec fn runs_of(inode: Inode, spills: Map<u64, Seq<Extent>>) -> Seq<Extent> {
    extents::inline_runs(inode) + spilled_at(spills, inode.spill_extent_root).filter(
        |e: Extent| extents::nonempty(e),
    )
}

/// The runs of all files.
pub open spec fn all_runs(
    inodes: Map<u64, Inode>,
    spills: Map<u64, Seq<Extent>>,
) -> Map<u64, Seq<Extent>> {
    Map::new(|k: u64| inodes.contains_key(k), |k: u64| runs_of(inodes[k], spills))
}

/// The byte at `x` of a file with these runs.
pub open spec fn byte_in(area: DataArea, r: Seq<Extent>, x: int) -> u8 {
    match runs::place(r, x / 4096) {
        Some(p) => area.bytes(p)[x % 4096],
        None => 0,
    }
}

/// The runs are in order, their blocks are in use, and hold the bytes.
pub open spec fn file_ok(r: Seq<Extent>, area: DataArea, stored: Seq<u8>) -> bool {
    &&& runs::runs_ok(r)
    &&& forall|l: int|
        (#[trigger] runs::place(r, l)) matches Some(p) ==> p != 0 && area.in_use(p as int)
    &&& forall|x: int|
        0 <= x ==> #[trigger] byte_in(area, r, x) == filesystem::stored_byte(stored, x)
}

/// Every file has its bytes in its blocks. Block 0 is never given out.
#[verifier::opaque]
pub open spec fn blocks_ok(
    all: Map<u64, Seq<Extent>>,
    area: DataArea,
    data: Map<u64, Seq<u8>>,
) -> bool {
    &&& forall|k: u64| #[trigger]
        all.contains_key(k) ==> file_ok(all[k], area, volume::stored_in(data, k))
    &&& area.used@.len() > 0 ==> area.used@[0]
}

/// A block that two files have, or one has twice, is pinned.
#[verifier::opaque]
pub open spec fn shares_pinned(all: Map<u64, Seq<Extent>>, rc: RefCountManager) -> bool {
    forall|i: u64, j: u64, l: int, m: int|
        all.contains_key(i) && all.contains_key(j) && (i != j || l != m) && (
        #[trigger] runs::place(all[i], l)) is Some && runs::place(all[i], l)
            == #[trigger] runs::place(all[j], m) ==> rc.pin_count(
            runs::place(all[i], l)->0 as int,
        ) > 0
}

/// Every file has its list of runs under a root of its own, and the blocks that
/// the allocator gives next hold none.
#[verifier::opaque]
pub open spec fn layout_ok(
    inodes: Map<u64, Inode>,
    spills: Map<u64, Seq<Extent>>,
    fresh: Seq<u64>,
) -> bool {
    &&& forall|k: u64| #[trigger]
        inodes.contains_key(k) && inodes[k].spill_extent_root != 0 ==> spills.contains_key(
            inodes[k].spill_extent_root,
        )
    &&& forall|i: u64, j: u64|
        #[trigger] inodes.contains_key(i) && #[trigger] inodes.contains_key(j) && i != j
            && inodes[i].spill_extent_root != 0 ==> inodes[i].spill_extent_root
            != inodes[j].spill_extent_root
    &&& forall|i: int|
        0 <= i < fresh.len() ==> #[trigger] fresh[i] != 0 && !spills.contains_key(fresh[i])
    &&& forall|i: int, j: int|
        0 <= i < j < fresh.len() ==> #[trigger] fresh[i] != #[trigger] fresh[j]
}

/// The inodes have the same blocks.
pub open spec fn same_blocks(a: Inode, b: Inode) -> bool {
    &&& b.extent_count == a.extent_count
    &&& b.extents == a.extents
    &&& b.spill_extent_root == a.spill_extent_root
}

/// The inode has no blocks.
pub open spec fn no_blocks(inode: Inode) -> bool {
    inode.extent_count == 0 && inode.spill_extent_root == 0
}

/// Files stay where they are when no block changes.
pub proof fn lemma_same_bytes(
    all: Map<u64, Seq<Extent>>,
    a: DataArea,
    b: DataArea,
    data: Map<u64, Seq<u8>>,
)
    requires
        blocks_ok(all, a, data),
        b.used == a.used,
        b.blocks == a.blocks,
    ensures
        blocks_ok(all, b, data),
{
    reveal(blocks_ok);
    assert forall|k: u64| #[trigger] all.contains_key(k) implies file_ok(
        all[k],
        b,
        volume::stored_in(data, k),
    ) by {
        let r = all[k];
        assert(file_ok(r, a, volume::stored_in(data, k)));
        assert forall|l: int| (#[trigger] runs::place(r, l)) is Some implies runs::place(r, l)->0
            != 0 && b.in_use(runs::place(r, l)->0 as int) by {
            assert(a.in_use(runs::place(r, l)->0 as int));
        }
        assert forall|x: int| 0 <= x implies #[trigger] byte_in(b, r, x)
            == filesystem::stored_byte(volume::stored_in(data, k), x) by {
            assert(byte_in(a, r, x) == filesystem::stored_byte(volume::stored_in(data, k), x));
        }
    }
}

/// An inode that has no blocks has no runs.
pub proof fn lemma_no_runs(inode: Inode, spills: Map<u64, Seq<Extent>>)
    requires
        no_blocks(inode),
    ensures
        runs_of(inode, spills) == Seq::<Extent>::empty(),
        runs::runs_ok(Seq::<Extent>::empty()),
        forall|l: int| #[trigger] runs::place(Seq::<Extent>::empty(), l) is None,
{
    reveal(Seq::filter);
    assert(inode.extents@.take(0) =~= Seq::<Extent>::empty());
    assert(runs_of(inode, spills) =~= Seq::<Extent>::empty());
    assert forall|l: int| #[trigger] runs::place(Seq::<Extent>::empty(), l) is None by {
        runs::lemma_place(Seq::<Extent>::empty(), l);
        assert forall|p: int| !(#[trigger] extents::maps_to(Seq::<Extent>::empty(), l, p)) by {}
    }
}

/// Writing an inode that keeps its blocks, or a new one that has none, changes
/// nothing of where blocks are.
pub proof fn lemma_inode_kept(
    inodes: Map<u64, Inode>,
    spills: Map<u64, Seq<Extent>>,
    fresh: Seq<u64>,
    area: DataArea,
    data: Map<u64, Seq<u8>>,
    inode: Inode,
)
    requires
        blocks_ok(all_runs(inodes, spills), area, data),
        layout_ok(inodes, spills, fresh),
        if inodes.contains_key(inode.ino) {
            same_blocks(inodes[inode.ino], inode)
        } else {
            no_blocks(inode) && volume::stored_in(data, inode.ino).len() == 0
        },
    ensures
        blocks_ok(all_runs(inodes.insert(inode.ino, inode), spills), area, data),
        layout_ok(inodes.insert(inode.ino, inode), spills, fresh),
        forall|rc: RefCountManager|
            shares_pinned(all_runs(inodes, spills), rc) ==> #[trigger] shares_pinned(
                all_runs(inodes.insert(inode.ino, inode), spills),
                rc,
            ),
{
    reveal(layout_ok);
    let all = all_runs(inodes, spills);
    let after = inodes.insert(inode.ino, inode);
    let all2 = all_runs(after, spills);
    if inodes.contains_key(inode.ino) {
        assert(runs_of(inode, spills) == runs_of(inodes[inode.ino], spills));
        assert(all2 =~= all);
    } else {
        lemma_no_runs(inode, spills);
        assert(all2 =~= all.insert(inode.ino, Seq::empty()));
        assert(blocks_ok(all2, area, data)) by {
            reveal(blocks_ok);
            assert forall|k: u64| #[trigger] all2.contains_key(k) implies file_ok(
                all2[k],
                area,
                volume::stored_in(data, k),
            ) by {
                if k != inode.ino {
                    assert(all.contains_key(k));
                }
            }
        }
        assert forall|rc: RefCountManager| shares_pinned(all, rc) implies #[trigger] shares_pinned(
            all2,
            rc,
        ) by {
            lemma_shares_with_empty(all, inode.ino, rc);
        }
    }
    assert(layout_ok(after, spills, fresh)) by {
        assert forall|k: u64| #[trigger]
            after.contains_key(k) && after[k].spill_extent_root != 0 implies spills.contains_key(
            after[k].spill_extent_root,
        ) by {
            assert(inodes.contains_key(k));
        }
        assert forall|i: u64, j: u64|
            #[trigger] after.contains_key(i) && #[trigger] after.contains_key(j) && i != j
                && after[i].spill_extent_root != 0 implies after[i].spill_extent_root
            != after[j].spill_extent_root by {
            assert(inodes.contains_key(i));
            if inodes.contains_key(j) {
                assert(inodes[i].spill_extent_root != inodes[j].spill_extent_root);
            }
        }
    }
}

proof fn lemma_shares_with_empty(all: Map<u64, Seq<Extent>>, ino: u64, rc: RefCountManager)
    requires
        shares_pinned(all, rc),
        forall|l: int| #[trigger] runs::place(Seq::<Extent>::empty(), l) is None,
    ensures
        shares_pinned(all.insert(ino, Seq::empty()), rc),
{
    reveal(shares_pinned);
    let all2 = all.insert(ino, Seq::<Extent>::empty());
    assert forall|i: u64, j: u64, l: int, m: int|
        all2.contains_key(i) && all2.contains_key(j) && (i != j || l != m) && (
        #[trigger] runs::place(all2[i], l)) is Some && runs::place(all2[i], l)
            == #[trigger] runs::place(all2[j], m) implies rc.pin_count(
        runs::place(all2[i], l)->0 as int,
    ) > 0 by {
        assert(i != ino && j != ino);
        assert(runs::place(all[i], l) == runs::place(all[j], m));
    }
}

/// More pins keep what is shared pinned.
pub proof fn lemma_more_pins(
    all: Map<u64, Seq<Extent>>,
    rc: RefCountManager,
    more: RefCountManager,
)
    requires
        shares_pinned(all, rc),
        forall|b: int| rc.pin_count(b) <= #[trigger] more.pin_count(b),
    ensures
        shares_pinned(all, more),
{
    reveal(shares_pinned);
    assert forall|i: u64, j: u64, l: int, m: int|
        all.contains_key(i) && all.contains_key(j) && (i != j || l != m) && (
        #[trigger] runs::place(all[i], l)) is Some && runs::place(all[i], l)
            == #[trigger] runs::place(all[j], m) implies more.pin_count(
        runs::place(all[i], l)->0 as int,
    ) > 0 by {
        assert(rc.pin_count(runs::place(all[i], l)->0 as int) > 0);
    }
}

/// Block `l` of a file is somewhere, and may be written there.
pub open spec fn keeps(
    area: DataArea,
    rc: RefCountManager,
    ino: u64,
    r: Seq<Extent>,
    l: int,
) -> bool {
    runs::place(r, l) matches Some(p) && !area.protects(rc, ino, l as u64, p)
}

/// How many of the numbers from `from` on, before `end`, are as `p` says.
pub open spec fn count(p: spec_fn(int) -> bool, from: int, end: int) -> nat
    decreases end - from,
{
    if from >= end {
        0
    } else {
        count(p, from + 1, end) + (if p(from) {
            1nat
        } else {
            0
        })
    }
}

/// Counting can stop and go on.
pub proof fn lemma_count_split(p: spec_fn(int) -> bool, from: int, mid: int, end: int)
    requires
        from <= mid <= end,
    ensures
        count(p, from, end) == count(p, from, mid) + count(p, mid, end),
    decreases mid - from,
{
    if from < mid {
        lemma_count_split(p, from + 1, mid, end);
    }
}

/// What agrees counts alike.
pub proof fn lemma_count_same(
    p: spec_fn(int) -> bool,
    q: spec_fn(int) -> bool,
    from: int,
    end: int,
)
    requires
        forall|l: int| from <= l < end ==> #[trigger] p(l) == q(l),
    ensures
        count(p, from, end) == count(q, from, end),
    decreases end - from,
{
    if from < end {
        assert(p(from) == q(from));
        lemma_count_same(p, q, from + 1, end);
    }
}

/// No more are counted than there are.
pub proof fn lemma_count_bound(p: spec_fn(int) -> bool, from: int, end: int)
    ensures
        count(p, from, end) <= (if from < end {
            end - from
        } else {
            0
        }),
        (forall|l: int| from <= l < end ==> !#[trigger] p(l)) ==> count(p, from, end) == 0,
        (forall|l: int| from <= l < end ==> #[trigger] p(l)) && from <= end ==> count(p, from, end)
            == end - from,
    decreases end - from,
{
    if from < end {
        lemma_count_bound(p, from + 1, end);
        assert(p(from) || !p(from));
    }
}

/// The number of fresh blocks that it takes to write the blocks from `from` on,
/// before `end`, that are to be written.
pub open spec fn needed(
    area: DataArea,
    rc: RefCountManager,
    ino: u64,
    r: Seq<Extent>,
    written: spec_fn(int) -> bool,
    from: int,
    end: int,
) -> nat {
    count(|l: int| written(l) && !keeps(area, rc, ino, r, l), from, end)
}

/// One of the blocks that were written is at `q`.
pub open spec fn one_at(r: Seq<Extent>, written: spec_fn(int) -> bool, q: u64) -> bool {
    exists|l: int| written(l) && #[trigger] runs::place(r, l) == Some(q)
}

/// Some blocks of a file were written: those that may be changed in place, the
/// others to blocks that were free. Nothing else was written, and no other
/// block of the file moved.
pub open spec fn placed(
    a: DataArea,
    b: DataArea,
    rc: RefCountManager,
    ino: u64,
    ra: Seq<Extent>,
    rb: Seq<Extent>,
    written: spec_fn(int) -> bool,
) -> bool {
    &&& b.checked == a.checked
    &&& b.barrier == a.barrier
    &&& b.stamp == a.stamp
    &&& b.used@.len() == a.used@.len()
    &&& forall|l: int|
        !written(l) || keeps(a, rc, ino, ra, l) ==> #[trigger] runs::place(rb, l) == runs::place(
            ra,
            l,
        )
    &&& forall|l: int|
        written(l) && !keeps(a, rc, ino, ra, l) ==> ((#[trigger] runs::place(rb, l)) matches Some(
            p,
        ) && !a.in_use(p as int))
    &&& forall|q: u64|
        (#[trigger] b.in_use(q as int)) <==> a.in_use(q as int) || one_at(rb, written, q)
    &&& forall|q: u64| !one_at(rb, written, q) ==> (#[trigger] b.bytes(q)) == a.bytes(q)
    &&& forall|o: u64, l: u64|
        (#[trigger] b.birth(o, l)) == (if a.checked && o == ino && written(l as int) {
            Some(
                BlockChecksum {
                    object_id: o,
                    logical_block: l,
                    physical_block: runs::place(rb, l as int)->0,
                    generation: a.stamp,
                },
            )
        } else {
            a.birth(o, l)
        })
}

/// What the writer needs of free blocks.
pub proof fn lemma_needed(
    area: DataArea,
    rc: RefCountManager,
    f: OpenFile,
    written: spec_fn(int) -> bool,
    from: int,
    end: int,
)
    requires
        forall|l: int| from <= l < end ==> #[trigger] written(l),
    ensures
        needed(area, rc, f.ino, f.runs@, written, from, end) == writer::fresh_needed(
            area,
            rc,
            f,
            from,
            end,
        ),
    decreases end - from,
{
    if from < end {
        assert(written(from));
        lemma_needed(area, rc, f, written, from + 1, end);
    }
}

/// What the writer writes.
pub proof fn lemma_placed(
    a: DataArea,
    b: DataArea,
    fa: OpenFile,
    fb: OpenFile,
    rc: RefCountManager,
    first: int,
    end: int,
)
    requires
        writer::blocks_written(a, b, fa, fb, rc, first, end),
    ensures
        placed(a, b, rc, fa.ino, fa.runs@, fb.runs@, |l: int| first <= l < end),
{
    let w = |l: int| first <= l < end;
    assert forall|q: u64| #[trigger]
        one_at(fb.runs@, w, q) == writer::one_is_at(fb, first, end, q) by {
        if one_at(fb.runs@, w, q) {
            let l = choose|l: int| w(l) && #[trigger] runs::place(fb.runs@, l) == Some(q);
            assert(fb.at(l) == Some(q));
        }
        if writer::one_is_at(fb, first, end, q) {
            let l = choose|l: int| first <= l < end && #[trigger] fb.at(l) == Some(q);
            assert(runs::place(fb.runs@, l) == Some(q));
        }
    }
    assert forall|l: int|
        !w(l) || keeps(a, rc, fa.ino, fa.runs@, l) implies #[trigger] runs::place(fb.runs@, l)
        == runs::place(fa.runs@, l) by {
        assert(fb.at(l) == fa.at(l));
    }
    assert forall|l: int| w(l) && !keeps(a, rc, fa.ino, fa.runs@, l) implies ((
    #[trigger] runs::place(fb.runs@, l)) matches Some(p) && !a.in_use(p as int)) by {
        assert(fb.at(l) is Some);
    }
    assert forall|q: u64| (#[trigger] b.in_use(q as int)) <==> a.in_use(q as int) || one_at(
        fb.runs@,
        w,
        q,
    ) by {
        assert(one_at(fb.runs@, w, q) == writer::one_is_at(fb, first, end, q));
    }
    assert forall|q: u64| !one_at(fb.runs@, w, q) implies (#[trigger] b.bytes(q)) == a.bytes(q) by {
        assert(one_at(fb.runs@, w, q) == writer::one_is_at(fb, first, end, q));
    }
}

/// The file that is written has what the writer asks for.
pub proof fn lemma_open(
    all: Map<u64, Seq<Extent>>,
    area: DataArea,
    data: Map<u64, Seq<u8>>,
    rc: RefCountManager,
    f: OpenFile,
)
    requires
        blocks_ok(all, area, data),
        shares_pinned(all, rc),
        all.contains_key(f.ino),
        all[f.ino] == f.runs@,
    ensures
        f.wf_in(area, rc),
        forall|x: int|
            0 <= x ==> #[trigger] f.byte(area, x) == filesystem::stored_byte(
                volume::stored_in(data, f.ino),
                x,
            ),
{
    reveal(blocks_ok);
    reveal(shares_pinned);
    assert(file_ok(all[f.ino], area, volume::stored_in(data, f.ino)));
    assert forall|l: int, m: int|
        l != m && (#[trigger] f.at(l)) is Some && f.at(l) == #[trigger] f.at(
            m,
        ) implies rc.pin_count(f.at(l)->0 as int) > 0 by {
        assert(runs::place(all[f.ino], l) == runs::place(all[f.ino], m));
    }
    assert forall|x: int| 0 <= x implies #[trigger] f.byte(area, x) == filesystem::stored_byte(
        volume::stored_in(data, f.ino),
        x,
    ) by {
        assert(byte_in(area, all[f.ino], x) == f.byte(area, x));
    }
}

/// Writing a file keeps every file's bytes in its blocks, and what is shared
/// pinned.
pub proof fn lemma_file_placed(
    all: Map<u64, Seq<Extent>>,
    a: DataArea,
    b: DataArea,
    data: Map<u64, Seq<u8>>,
    rc: RefCountManager,
    ino: u64,
    rb: Seq<Extent>,
    written: spec_fn(int) -> bool,
    stored: Seq<u8>,
)
    requires
        blocks_ok(all, a, data),
        shares_pinned(all, rc),
        all.contains_key(ino),
        runs::runs_ok(rb),
        placed(a, b, rc, ino, all[ino], rb, written),
        forall|l: int, m: int|
            l != m && (#[trigger] runs::place(rb, l)) is Some && runs::place(rb, l)
                == #[trigger] runs::place(rb, m) ==> rc.pin_count(runs::place(rb, l)->0 as int) > 0,
        forall|x: int| 0 <= x ==> #[trigger] byte_in(b, rb, x) == filesystem::stored_byte(stored, x),
    ensures
        blocks_ok(all.insert(ino, rb), b, data.insert(ino, stored)),
        shares_pinned(all.insert(ino, rb), rc),
{
    reveal(blocks_ok);
    reveal(shares_pinned);
    let all2 = all.insert(ino, rb);
    let data2 = data.insert(ino, stored);
    assert(file_ok(all[ino], a, volume::stored_in(data, ino)));
    assert(b.used@.len() > 0 ==> b.used@[0]) by {
        assert(a.used@.len() > 0 ==> a.in_use(0u64 as int));
        assert(a.in_use(0u64 as int) ==> b.in_use(0u64 as int));
    }
    assert forall|k: u64, l: int|
        all2.contains_key(k) && (#[trigger] runs::place(all2[k], l)) is Some implies (
    runs::place(all2[k], l)->0 != 0 && b.in_use(runs::place(all2[k], l)->0 as int)) by {
        let p = runs::place(all2[k], l)->0;
        if k == ino {
            if written(l) && !keeps(a, rc, ino, all[ino], l) {
                assert(!a.in_use(p as int));
                assert(one_at(rb, written, p));
                assert(b.in_use(p as int));
            } else {
                assert(runs::place(rb, l) == runs::place(all[ino], l));
                assert(a.in_use(p as int));
            }
        } else {
            assert(file_ok(all[k], a, volume::stored_in(data, k)));
            assert(a.in_use(p as int));
        }
    }
    assert forall|k: u64| #[trigger] all2.contains_key(k) implies file_ok(
        all2[k],
        b,
        volume::stored_in(data2, k),
    ) by {
        if k != ino {
            assert(all.contains_key(k));
            assert(file_ok(all[k], a, volume::stored_in(data, k)));
            assert(volume::stored_in(data2, k) == volume::stored_in(data, k));
            assert forall|x: int| 0 <= x implies #[trigger] byte_in(b, all2[k], x)
                == filesystem::stored_byte(volume::stored_in(data2, k), x) by {
                assert(byte_in(a, all[k], x) == filesystem::stored_byte(
                    volume::stored_in(data, k),
                    x,
                ));
                if let Some(q) = runs::place(all[k], x / 4096) {
                    assert(a.in_use(q as int));
                    if one_at(rb, written, q) {
                        let l = choose|l: int| written(l) && #[trigger] runs::place(rb, l) == Some(q);
                        if keeps(a, rc, ino, all[ino], l) {
                            assert(runs::place(all[ino], l) == runs::place(all[k], x / 4096));
                            assert(rc.pin_count(q as int) > 0);
                        }
                    }
                    assert(b.bytes(q) == a.bytes(q));
                }
            }
        }
    }
    assert forall|i: u64, j: u64, l: int, m: int|
        all2.contains_key(i) && all2.contains_key(j) && (i != j || l != m) && (
        #[trigger] runs::place(all2[i], l)) is Some && runs::place(all2[i], l)
            == #[trigger] runs::place(all2[j], m) implies rc.pin_count(
        runs::place(all2[i], l)->0 as int,
    ) > 0 by {
        let p = runs::place(all2[i], l)->0;
        let fresh_i = i == ino && written(l) && !keeps(a, rc, ino, all[ino], l);
        let fresh_j = j == ino && written(m) && !keeps(a, rc, ino, all[ino], m);
        if i == ino && !fresh_i {
            assert(runs::place(rb, l) == runs::place(all[ino], l));
        }
        if j == ino && !fresh_j {
            assert(runs::place(rb, m) == runs::place(all[ino], m));
        }
        if !fresh_i && !fresh_j {
            assert(runs::place(all[i], l) == runs::place(all[j], m));
        } else if !fresh_i {
            assert(file_ok(all[i], a, volume::stored_in(data, i)));
            assert(runs::place(all[i], l) == Some(p));
            assert(a.in_use(p as int));
        } else if !fresh_j {
            assert(file_ok(all[j], a, volume::stored_in(data, j)));
            assert(runs::place(all[j], m) == Some(p));
            assert(a.in_use(p as int));
        }
    }
}

/// Dropping the blocks of a file from `end` on keeps every file's bytes in its
/// blocks, and what is shared pinned.
pub proof fn lemma_file_dropped(
    all: Map<u64, Seq<Extent>>,
    a: DataArea,
    b: DataArea,
    data: Map<u64, Seq<u8>>,
    rc: RefCountManager,
    fa: OpenFile,
    fb: OpenFile,
    end: int,
    stored: Seq<u8>,
)
    requires
        blocks_ok(all, a, data),
        shares_pinned(all, rc),
        all.contains_key(fa.ino),
        all[fa.ino] == fa.runs@,
        fb.wf_in(b, rc),
        writer::blocks_dropped(a, b, fa, fb, rc, end),
        forall|x: int|
            0 <= x ==> #[trigger] fb.byte(b, x) == filesystem::stored_byte(stored, x),
    ensures
        blocks_ok(all.insert(fa.ino, fb.runs@), b, data.insert(fa.ino, stored)),
        shares_pinned(all.insert(fa.ino, fb.runs@), rc),
{
    reveal(blocks_ok);
    reveal(shares_pinned);
    let ino = fa.ino;
    let lim = 0x1_0000_0000_0000_0000;
    let all2 = all.insert(ino, fb.runs@);
    let data2 = data.insert(ino, stored);
    assert(file_ok(all[ino], a, volume::stored_in(data, ino)));
    assert forall|k: u64, l: int|
        all2.contains_key(k) && (#[trigger] runs::place(all2[k], l)) is Some implies (
    runs::place(all2[k], l)->0 != 0 && b.in_use(runs::place(all2[k], l)->0 as int)) by {
        let p = runs::place(all2[k], l)->0;
        if k == ino {
            assert(fb.at(l) == Some(p));
            assert(fa.at(l) == Some(p));
            assert(runs::place(all[ino], l) == Some(p));
        } else {
            assert(file_ok(all[k], a, volume::stored_in(data, k)));
            assert(runs::place(all[k], l) == Some(p));
            if writer::given_back(a, rc, fa, end, lim, p) {
                let m = choose|m: int|
                    end <= m < lim && #[trigger] fa.at(m) == Some(p) && !a.protects(
                        rc,
                        ino,
                        m as u64,
                        p,
                    );
                assert(runs::place(all[ino], m) == runs::place(all[k], l));
            }
            assert(b.in_use(p as int));
        }
    }
    assert(b.used@.len() > 0 ==> b.used@[0]) by {
        assert(a.used@.len() > 0 ==> a.in_use(0u64 as int));
        if writer::given_back(a, rc, fa, end, lim, 0u64) {
            let m = choose|m: int|
                end <= m < lim && #[trigger] fa.at(m) == Some(0u64) && !a.protects(
                    rc,
                    ino,
                    m as u64,
                    0u64,
                );
            assert(runs::place(all[ino], m) == Some(0u64));
        }
        assert(a.in_use(0u64 as int) ==> b.in_use(0u64 as int));
    }
    assert forall|k: u64| #[trigger] all2.contains_key(k) implies file_ok(
        all2[k],
        b,
        volume::stored_in(data2, k),
    ) by {
        if k != ino {
            assert(file_ok(all[k], a, volume::stored_in(data, k)));
            assert(volume::stored_in(data2, k) == volume::stored_in(data, k));
            assert forall|x: int| 0 <= x implies #[trigger] byte_in(b, all2[k], x)
                == filesystem::stored_byte(volume::stored_in(data2, k), x) by {
                assert(byte_in(a, all[k], x) == filesystem::stored_byte(
                    volume::stored_in(data, k),
                    x,
                ));
                if let Some(q) = runs::place(all[k], x / 4096) {
                    assert(b.bytes(q) == a.bytes(q));
                }
            }
        } else {
            assert forall|x: int| 0 <= x implies #[trigger] byte_in(b, all2[k], x)
                == filesystem::stored_byte(volume::stored_in(data2, k), x) by {
                assert(fb.byte(b, x) == byte_in(b, fb.runs@, x));
            }
        }
    }
    assert forall|i: u64, j: u64, l: int, m: int|
        all2.contains_key(i) && all2.contains_key(j) && (i != j || l != m) && (
        #[trigger] runs::place(all2[i], l)) is Some && runs::place(all2[i], l)
            == #[trigger] runs::place(all2[j], m) implies rc.pin_count(
        runs::place(all2[i], l)->0 as int,
    ) > 0 by {
        if i == ino {
            assert(fb.at(l) == fa.at(l));
        }
        if j == ino {
            assert(fb.at(m) == fa.at(m));
        }
        assert(runs::place(all[i], l) == runs::place(all[j], m));
    }
}

/// Giving an empty file the runs of another, which are pinned, keeps every
/// file's bytes in its blocks, and what is shared pinned.
pub proof fn lemma_file_shared(
    all: Map<u64, Seq<Extent>>,
    area: DataArea,
    data: Map<u64, Seq<u8>>,
    rc: RefCountManager,
    src: u64,
    dst: u64,
)
    requires
        blocks_ok(all, area, data),
        shares_pinned(all, rc),
        all.contains_key(src),
        all.contains_key(dst),
        src != dst,
        forall|l: int|
            (#[trigger] runs::place(all[src], l)) matches Some(p) ==> rc.pin_count(p as int) > 0,
    ensures
        blocks_ok(
            all.insert(dst, all[src]),
            area,
            data.insert(dst, volume::stored_in(data, src)),
        ),
        shares_pinned(all.insert(dst, all[src]), rc),
{
    reveal(blocks_ok);
    reveal(shares_pinned);
    let all2 = all.insert(dst, all[src]);
    let data2 = data.insert(dst, volume::stored_in(data, src));
    assert forall|k: u64| #[trigger] all2.contains_key(k) implies file_ok(
        all2[k],
        area,
        volume::stored_in(data2, k),
    ) by {
        if k == dst {
            assert(file_ok(all[src], area, volume::stored_in(data, src)));
        } else {
            assert(all.contains_key(k));
            assert(file_ok(all[k], area, volume::stored_in(data, k)));
        }
    }
    assert forall|i: u64, j: u64, l: int, m: int|
        all2.contains_key(i) && all2.contains_key(j) && (i != j || l != m) && (
        #[trigger] runs::place(all2[i], l)) is Some && runs::place(all2[i], l)
            == #[trigger] runs::place(all2[j], m) implies rc.pin_count(
        runs::place(all2[i], l)->0 as int,
    ) > 0 by {
        if i == dst {
            assert(runs::place(all[src], l) is Some);
        } else if j == dst {
            assert(runs::place(all[src], m) is Some);
        } else {
            assert(runs::place(all[i], l) == runs::place(all[j], m));
        }
    }
}

/// The writes of two sets of blocks, one after the other, are a write of all of
/// them.
pub proof fn lemma_placed_both(
    a: DataArea,
    m: DataArea,
    b: DataArea,
    rc: RefCountManager,
    ino: u64,
    ra: Seq<Extent>,
    rm: Seq<Extent>,
    rb: Seq<Extent>,
    first: spec_fn(int) -> bool,
    second: spec_fn(int) -> bool,
    both: spec_fn(int) -> bool,
)
    requires
        runs::runs_ok(ra),
        placed(a, m, rc, ino, ra, rm, first),
        placed(m, b, rc, ino, rm, rb, second),
        forall|l: int| #[trigger] both(l) == (first(l) || second(l)),
        forall|l: int| #[trigger] first(l) ==> !second(l),
    ensures
        placed(a, b, rc, ino, ra, rb, both),
{
    assert forall|l: int| !first(l) implies #[trigger] keeps(m, rc, ino, rm, l) == keeps(
        a,
        rc,
        ino,
        ra,
        l,
    ) by {
        assert(runs::place(rm, l) == runs::place(ra, l));
        runs::lemma_place(ra, l);
        if runs::place(ra, l) is Some {
            assert(m.birth(ino, l as u64) == a.birth(ino, l as u64));
        }
    }
    assert forall|q: u64| #[trigger]
        one_at(rb, both, q) == (one_at(rm, first, q) || one_at(rb, second, q)) by {
        if one_at(rb, both, q) {
            let l = choose|l: int| both(l) && #[trigger] runs::place(rb, l) == Some(q);
            if first(l) {
                assert(!second(l));
                assert(runs::place(rb, l) == runs::place(rm, l));
                assert(one_at(rm, first, q));
            } else {
                assert(one_at(rb, second, q));
            }
        }
        if one_at(rm, first, q) {
            let l = choose|l: int| first(l) && #[trigger] runs::place(rm, l) == Some(q);
            assert(runs::place(rb, l) == runs::place(rm, l));
            assert(both(l));
        }
        if one_at(rb, second, q) {
            let l = choose|l: int| second(l) && #[trigger] runs::place(rb, l) == Some(q);
            assert(both(l));
        }
    }
    assert forall|l: int|
        !both(l) || keeps(a, rc, ino, ra, l) implies #[trigger] runs::place(rb, l) == runs::place(
        ra,
        l,
    ) by {
        assert(runs::place(rm, l) == runs::place(ra, l));
        if first(l) {
            assert(!second(l));
        } else {
            assert(keeps(m, rc, ino, rm, l) == keeps(a, rc, ino, ra, l));
        }
    }
    assert forall|l: int| both(l) && !keeps(a, rc, ino, ra, l) implies ((
    #[trigger] runs::place(rb, l)) matches Some(p) && !a.in_use(p as int)) by {
        if first(l) {
            assert(!second(l));
            assert(runs::place(rb, l) == runs::place(rm, l));
        } else {
            assert(keeps(m, rc, ino, rm, l) == keeps(a, rc, ino, ra, l));
            let p = runs::place(rb, l)->0;
            assert(!m.in_use(p as int));
            assert(!a.in_use(p as int));
        }
    }
    assert forall|q: u64| (#[trigger] b.in_use(q as int)) <==> a.in_use(q as int) || one_at(
        rb,
        both,
        q,
    ) by {
        assert(m.in_use(q as int) <==> a.in_use(q as int) || one_at(rm, first, q));
        assert(one_at(rb, both, q) == (one_at(rm, first, q) || one_at(rb, second, q)));
    }
    assert forall|q: u64| !one_at(rb, both, q) implies (#[trigger] b.bytes(q)) == a.bytes(q) by {
        assert(one_at(rb, both, q) == (one_at(rm, first, q) || one_at(rb, second, q)));
        assert(m.bytes(q) == a.bytes(q));
    }
    assert forall|o: u64, l: u64|
        (#[trigger] b.birth(o, l)) == (if a.checked && o == ino && both(l as int) {
            Some(
                BlockChecksum {
                    object_id: o,
                    logical_block: l,
                    physical_block: runs::place(rb, l as int)->0,
                    generation: a.stamp,
                },
            )
        } else {
            a.birth(o, l)
        }) by {
        assert(m.birth(o, l) == (if a.checked && o == ino && first(l as int) {
            Some(
                BlockChecksum {
                    object_id: o,
                    logical_block: l,
                    physical_block: runs::place(rm, l as int)->0,
                    generation: a.stamp,
                },
            )
        } else {
            a.birth(o, l)
        }));
        assert(both(l as int) == (first(l as int) || second(l as int)));
        if first(l as int) {
            assert(runs::place(rb, l as int) == runs::place(rm, l as int));
        }
    }
}

/// Blocks that were not written need what they needed.
pub proof fn lemma_needed_kept(
    a: DataArea,
    b: DataArea,
    rc: RefCountManager,
    ino: u64,
    ra: Seq<Extent>,
    rb: Seq<Extent>,
    done: spec_fn(int) -> bool,
    written: spec_fn(int) -> bool,
    from: int,
    end: int,
)
    requires
        runs::runs_ok(ra),
        placed(a, b, rc, ino, ra, rb, done),
        forall|l: int| from <= l < end ==> !#[trigger] done(l),
    ensures
        needed(b, rc, ino, rb, written, from, end) == needed(a, rc, ino, ra, written, from, end),
{
    let p = |l: int| written(l) && !keeps(b, rc, ino, rb, l);
    let q = |l: int| written(l) && !keeps(a, rc, ino, ra, l);
    assert forall|l: int| from <= l < end implies #[trigger] p(l) == q(l) by {
        assert(!done(l));
        assert(runs::place(rb, l) == runs::place(ra, l));
        runs::lemma_place(ra, l);
        if runs::place(ra, l) is Some {
            assert(b.birth(ino, l as u64) == a.birth(ino, l as u64));
        }
    }
    lemma_count_same(p, q, from, end);
}

/// What is placed does not depend on how the written blocks are told.
pub proof fn lemma_placed_same(
    a: DataArea,
    b: DataArea,
    rc: RefCountManager,
    ino: u64,
    ra: Seq<Extent>,
    rb: Seq<Extent>,
    w: spec_fn(int) -> bool,
    v: spec_fn(int) -> bool,
)
    requires
        placed(a, b, rc, ino, ra, rb, w),
        forall|l: int| #[trigger] w(l) == v(l),
    ensures
        placed(a, b, rc, ino, ra, rb, v),
{
    assert forall|q: u64| #[trigger] one_at(rb, v, q) == one_at(rb, w, q) by {
        if one_at(rb, v, q) {
            let l = choose|l: int| v(l) && #[trigger] runs::place(rb, l) == Some(q);
            assert(w(l));
        }
        if one_at(rb, w, q) {
            let l = choose|l: int| w(l) && #[trigger] runs::place(rb, l) == Some(q);
            assert(v(l));
        }
    }
    assert forall|l: int|
        !v(l) || keeps(a, rc, ino, ra, l) implies #[trigger] runs::place(rb, l) == runs::place(
        ra,
        l,
    ) by {
        assert(w(l) == v(l));
    }
    assert forall|l: int| v(l) && !keeps(a, rc, ino, ra, l) implies ((
    #[trigger] runs::place(rb, l)) matches Some(p) && !a.in_use(p as int)) by {
        assert(w(l) == v(l));
    }
    assert forall|q: u64| (#[trigger] b.in_use(q as int)) <==> a.in_use(q as int) || one_at(
        rb,
        v,
        q,
    ) by {
        assert(one_at(rb, v, q) == one_at(rb, w, q));
    }
    assert forall|q: u64| !one_at(rb, v, q) implies (#[trigger] b.bytes(q)) == a.bytes(q) by {
        assert(one_at(rb, v, q) == one_at(rb, w, q));
    }
    assert forall|o: u64, l: u64|
        (#[trigger] b.birth(o, l)) == (if a.checked && o == ino && v(l as int) {
            Some(
                BlockChecksum {
                    object_id: o,
                    logical_block: l,
                    physical_block: runs::place(rb, l as int)->0,
                    generation: a.stamp,
                },
            )
        } else {
            a.birth(o, l)
        }) by {
        assert(w(l as int) == v(l as int));
    }
}

/// Writing nothing leaves everything where it is.
pub proof fn lemma_placed_none(
    a: DataArea,
    rc: RefCountManager,
    ino: u64,
    r: Seq<Extent>,
    w: spec_fn(int) -> bool,
)
    requires
        forall|l: int| !#[trigger] w(l),
    ensures
        placed(a, a, rc, ino, r, r, w),
{
    assert forall|q: u64| !#[trigger] one_at(r, w, q) by {
        if one_at(r, w, q) {
            let l = choose|l: int| w(l) && #[trigger] runs::place(r, l) == Some(q);
            assert(!w(l));
        }
    }
}

/// The runs of a file as the tree of runs holds them.
pub proof fn lemma_runs_of(inode: Inode, spills: Map<u64, Vec<Extent>>)
    ensures
        extents::file_runs(inode, spills) == runs_of(
            inode,
            spills.map_values(|v: Vec<Extent>| v@),
        ),
{
    reveal(Seq::filter);
    let s = spills.map_values(|v: Vec<Extent>| v@);
    assert(s.contains_key(inode.spill_extent_root) == spills.contains_key(
        inode.spill_extent_root,
    ));
    assert(extents::file_runs(inode, spills) =~= runs_of(inode, s));
}

/// A block that the allocator gives next holds no list of runs, and is given
/// once.
pub proof fn lemma_fresh_taken(
    inodes: Map<u64, Inode>,
    spills: Map<u64, Seq<Extent>>,
    fresh: Seq<u64>,
)
    requires
        layout_ok(inodes, spills, fresh),
        fresh.len() > 0,
    ensures
        layout_ok(inodes, spills, fresh.drop_last()),
        fresh.last() != 0,
        !spills.contains_key(fresh.last()),
        !fresh.drop_last().contains(fresh.last()),
{
    reveal(layout_ok);
    let f = fresh.drop_last();
    assert(fresh[fresh.len() - 1] == fresh.last());
    assert forall|i: int| 0 <= i < f.len() implies #[trigger] f[i] != 0 && !spills.contains_key(
        f[i],
    ) by {
        assert(f[i] == fresh[i]);
    }
    assert forall|i: int, j: int| 0 <= i < j < f.len() implies #[trigger] f[i] != #[trigger] f[j] by {
        assert(f[i] == fresh[i] && f[j] == fresh[j]);
    }
    if f.contains(fresh.last()) {
        let i = choose|i: int| 0 <= i < f.len() && f[i] == fresh.last();
        assert(fresh[i] != fresh[fresh.len() - 1]);
    }
}

/// A list of runs under a root that no file has changes no file's runs.
pub proof fn lemma_list_added(
    inodes: Map<u64, Inode>,
    spills: Map<u64, Seq<Extent>>,
    fresh: Seq<u64>,
    root: u64,
    list: Seq<Extent>,
)
    requires
        layout_ok(inodes, spills, fresh),
        !spills.contains_key(root),
        !fresh.contains(root),
    ensures
        layout_ok(inodes, spills.insert(root, list), fresh),
        all_runs(inodes, spills.insert(root, list)) == all_runs(inodes, spills),
{
    reveal(layout_ok);
    let after = spills.insert(root, list);
    assert forall|k: u64| inodes.contains_key(k) implies runs_of(#[trigger] inodes[k], after)
        == runs_of(inodes[k], spills) by {}
    assert(all_runs(inodes, after) =~= all_runs(inodes, spills));
    assert forall|i: int| 0 <= i < fresh.len() implies #[trigger] fresh[i] != 0
        && !after.contains_key(fresh[i]) by {
        assert(fresh.contains(fresh[i]));
    }
}

/// Giving a file other runs, which it keeps under a root of its own, changes no
/// other file's runs.
pub proof fn lemma_laid_out(
    inodes: Map<u64, Inode>,
    spills: Map<u64, Seq<Extent>>,
    fresh: Seq<u64>,
    made: Inode,
    list: Seq<Extent>,
)
    requires
        layout_ok(inodes, spills, fresh),
        inodes.contains_key(made.ino),
        inodes[made.ino].spill_extent_root != 0 ==> made.spill_extent_root
            == inodes[made.ino].spill_extent_root,
        made.spill_extent_root != 0 && inodes[made.ino].spill_extent_root == 0
            ==> !spills.contains_key(made.spill_extent_root) && !fresh.contains(
            made.spill_extent_root,
        ),
    ensures
        ({
            let after = if made.spill_extent_root != 0 {
                spills.insert(made.spill_extent_root, list)
            } else {
                spills
            };
            &&& layout_ok(inodes.insert(made.ino, made), after, fresh)
            &&& all_runs(inodes.insert(made.ino, made), after) == all_runs(inodes, spills).insert(
                made.ino,
                runs_of(made, after),
            )
        }),
{
    reveal(layout_ok);
    let root = made.spill_extent_root;
    let after = if root != 0 {
        spills.insert(root, list)
    } else {
        spills
    };
    let inodes2 = inodes.insert(made.ino, made);
    assert forall|k: u64| inodes.contains_key(k) && k != made.ino implies runs_of(
        #[trigger] inodes[k],
        after,
    ) == runs_of(inodes[k], spills) by {
        if root != 0 && inodes[k].spill_extent_root == root {
            if inodes[made.ino].spill_extent_root != 0 {
                assert(inodes.contains_key(made.ino));
                assert(inodes[k].spill_extent_root != inodes[made.ino].spill_extent_root);
            }
        }
    }
    assert(all_runs(inodes2, after) =~= all_runs(inodes, spills).insert(
        made.ino,
        runs_of(made, after),
    ));
    assert forall|i: int| 0 <= i < fresh.len() implies #[trigger] fresh[i] != 0
        && !after.contains_key(fresh[i]) by {
        assert(fresh.contains(fresh[i]));
        if root != 0 && inodes[made.ino].spill_extent_root != 0 {
            assert(spills.contains_key(root));
        }
    }
    assert forall|i: u64, j: u64|
        #[trigger] inodes2.contains_key(i) && #[trigger] inodes2.contains_key(j) && i != j
            && inodes2[i].spill_extent_root != 0 implies inodes2[i].spill_extent_root
        != inodes2[j].spill_extent_root by {
        assert(inodes.contains_key(i) && inodes.contains_key(j));
        if i == made.ino && inodes[i].spill_extent_root == 0 && inodes[j].spill_extent_root != 0 {
            assert(spills.contains_key(inodes[j].spill_extent_root));
        }
        if j == made.ino && inodes[j].spill_extent_root == 0 {
            assert(spills.contains_key(inodes[i].spill_extent_root));
        }
    }
    assert forall|k: u64| #[trigger]
        inodes2.contains_key(k) && inodes2[k].spill_extent_root != 0 implies after.contains_key(
        inodes2[k].spill_extent_root,
    ) by {
        assert(inodes.contains_key(k));
    }
}

/// A list of runs that no file has can be given to one.
pub proof fn lemma_list_given(
    inodes: Map<u64, Inode>,
    spills: Map<u64, Seq<Extent>>,
    fresh: Seq<u64>,
    made: Inode,
)
    requires
        layout_ok(inodes, spills, fresh),
        made.spill_extent_root != 0 ==> spills.contains_key(made.spill_extent_root),
        forall|k: u64| #[trigger]
            inodes.contains_key(k) && made.spill_extent_root != 0 ==> inodes[k].spill_extent_root
                != made.spill_extent_root,
    ensures
        layout_ok(inodes.insert(made.ino, made), spills, fresh),
        all_runs(inodes.insert(made.ino, made), spills) == all_runs(inodes, spills).insert(
            made.ino,
            runs_of(made, spills),
        ),
{
    reveal(layout_ok);
    let inodes2 = inodes.insert(made.ino, made);
    assert(all_runs(inodes2, spills) =~= all_runs(inodes, spills).insert(
        made.ino,
        runs_of(made, spills),
    ));
    assert forall|i: u64, j: u64|
        #[trigger] inodes2.contains_key(i) && #[trigger] inodes2.contains_key(j) && i != j
            && inodes2[i].spill_extent_root != 0 implies inodes2[i].spill_extent_root
        != inodes2[j].spill_extent_root by {
        if i == made.ino {
            assert(inodes.contains_key(j));
        } else if j == made.ino {
            assert(inodes.contains_key(i));
        } else {
            assert(inodes.contains_key(i) && inodes.contains_key(j));
        }
    }
    assert forall|k: u64| #[trigger]
        inodes2.contains_key(k) && inodes2[k].spill_extent_root != 0 implies spills.contains_key(
        inodes2[k].spill_extent_root,
    ) by {
        if k != made.ino {
            assert(inodes.contains_key(k));
        }
    }
}

/// What the blocks of a file hold, as far as blocks can be told.
pub proof fn lemma_bytes_end(f: OpenFile, area: DataArea, x: int)
    requires
        runs::runs_ok(f.runs@),
        x >= 0x1000_0000_0000_0000_0000,
    ensures
        f.byte(area, x) == 0,
{
    runs::lemma_place(f.runs@, x / 4096);
}

} // verus!
