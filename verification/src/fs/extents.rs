//! The runs of physical blocks that files map, and pinning them as a whole.

use crate::error::{Error, ErrorKind};
use crate::integrity::refcount;
use crate::integrity::refcount::RefCountManager;
use crate::ondisk::serialization::{Extent, Inode};
use crate::ordmap::OrdMap;
use vstd::prelude::*;

verus! {

/// The extent holds at least one block.
pub open spec fn nonempty(e: Extent) -> bool {
    e.length > 0
}

/// The extents of `inode` that are in the inode itself.
pub open spec fn inline_runs(inode: Inode) -> Seq<Extent> {
    inode.extents@.take(inode.extent_count as int).filter(|e: Extent| nonempty(e))
}

/// The extents of `inode` that are in its spill tree.
pub open spec fn spilled_runs(inode: Inode, spills: Map<u64, Vec<Extent>>) -> Seq<Extent> {
    if inode.spill_extent_root != 0 && spills.contains_key(inode.spill_extent_root) {
        spills[inode.spill_extent_root]@.filter(|e: Extent| nonempty(e))
    } else {
        Seq::empty()
    }
}

/// All extents of `inode`.
pub open spec fn file_runs(inode: Inode, spills: Map<u64, Vec<Extent>>) -> Seq<Extent> {
    inline_runs(inode) + spilled_runs(inode, spills)
}

/// The inode has no more extents than it has slots for.
pub open spec fn inode_ok(inode: Inode) -> bool {
    inode.extent_count <= 7
}

/// A walk over the inodes pins the blocks of this one.
pub open spec fn walked(e: (u64, Inode), next_ino: u64) -> bool {
    1 <= e.0 < next_ino && e.1.compression_algo == 0
}

/// The extents of the uncompressed files with numbers below `next_ino`.
pub open spec fn walk_runs(
    entries: Seq<(u64, Inode)>,
    spills: Map<u64, Vec<Extent>>,
    next_ino: u64,
) -> Seq<Extent>
    decreases entries.len(),
{
    if entries.len() == 0 {
        Seq::empty()
    } else {
        walk_runs(entries.drop_last(), spills, next_ino) + (if walked(entries.last(), next_ino) {
            file_runs(entries.last().1, spills)
        } else {
            Seq::empty()
        })
    }
}

/// The extent holds the physical block `b`.
pub open spec fn holds(e: Extent, b: int) -> bool {
    e.physical_start <= b < e.physical_start + e.length
}

/// How many of the extents hold the physical block `b`.
pub open spec fn cover_count(runs: Seq<Extent>, b: int) -> int
    decreases runs.len(),
{
    if runs.len() == 0 {
        0
    } else {
        cover_count(runs.drop_last(), b) + (if holds(runs.last(), b) {
            1int
        } else {
            0
        })
    }
}

/// The extents lie in the block address space.
pub open spec fn runs_in_space(runs: Seq<Extent>) -> bool {
    forall|i: int|
        0 <= i < runs.len() ==> (#[trigger] runs[i]).physical_start + runs[i].length <= u64::MAX
}

/// The file maps its block `logical` to the physical block `physical`.
pub open spec fn maps_to(runs: Seq<Extent>, logical: int, physical: int) -> bool {
    exists|i: int|
        0 <= i < runs.len() && extent_maps(#[trigger] runs[i], logical, physical)
}

/// The extent maps `logical` to `physical`.
pub open spec fn extent_maps(e: Extent, logical: int, physical: int) -> bool {
    &&& e.logical_start <= logical < e.logical_start + e.length
    &&& physical == e.physical_start + (logical - e.logical_start)
}

pub proof fn lemma_cover_step(runs: Seq<Extent>, i: int, b: int)
    requires
        0 <= i < runs.len(),
    ensures
        cover_count(runs.take(i + 1), b) == cover_count(runs.take(i), b) + (if holds(runs[i], b) {
            1int
        } else {
            0
        }),
{
    assert(runs.take(i + 1).drop_last() =~= runs.take(i));
}

pub proof fn lemma_cover_mono(runs: Seq<Extent>, i: int, b: int)
    requires
        0 <= i <= runs.len(),
    ensures
        0 <= cover_count(runs.take(i), b) <= cover_count(runs, b),
    decreases runs.len() - i,
{
    if i == runs.len() {
        assert(runs.take(i) =~= runs);
        lemma_cover_nonneg(runs, b);
    } else {
        lemma_cover_step(runs, i, b);
        lemma_cover_mono(runs, i + 1, b);
        lemma_cover_nonneg(runs.take(i), b);
    }
}

/// No block is held less than never.
pub proof fn lemma_cover_nonneg(runs: Seq<Extent>, b: int)
    ensures
        cover_count(runs, b) >= 0,
    decreases runs.len(),
{
    if runs.len() > 0 {
        lemma_cover_nonneg(runs.drop_last(), b);
    }
}

/// Appends the non-empty ones of `src[..n]` to `out`.
fn push_nonempty(out: &mut Vec<Extent>, src: &[Extent], n: usize)
    requires
        n <= src@.len(),
    ensures
        final(out)@ == old(out)@ + src@.take(n as int).filter(|e: Extent| nonempty(e)),
{
    let ghost keep = |e: Extent| nonempty(e);
    let mut i: usize = 0;
    proof {
        reveal(Seq::filter);
        assert(src@.take(0).filter(keep) =~= Seq::<Extent>::empty());
        assert(out@ + Seq::<Extent>::empty() =~= out@);
    }
    while i < n
        invariant
            keep == (|e: Extent| nonempty(e)),
            n <= src@.len(),
            i <= n,
            out@ == old(out)@ + src@.take(i as int).filter(keep),
        decreases n - i,
    {
        let e = src[i];
        let ghost before = out@;
        proof {
            src@.take(i as int).lemma_filter_push(e, keep);
            assert(src@.take(i + 1) =~= src@.take(i as int).push(e));
        }
        if e.length > 0 {
            out.push(e);
            assert(out@ =~= old(out)@ + src@.take(i as int).filter(keep).push(e));
        }
        i = i + 1;
    }
}

/// All extents of `inode`, those of the inode first.
pub fn live_extent_list(inode: &Inode, spills: &OrdMap<Vec<Extent>>) -> (r: Vec<Extent>)
    requires
        inode_ok(*inode),
        spills.wf(),
    ensures
        r@ == file_runs(*inode, spills@),
{
    let mut out: Vec<Extent> = Vec::new();
    push_nonempty(&mut out, inode.extents.as_slice(), inode.extent_count as usize);
    assert(out@ =~= inline_runs(*inode));
    if inode.spill_extent_root != 0 {
        if let Some(spill) = spills.get(inode.spill_extent_root) {
            push_nonempty(&mut out, spill.as_slice(), spill.len());
            assert(spill@.take(spill@.len() as int) =~= spill@);
        }
    }
    assert(out@ =~= file_runs(*inode, spills@));
    out
}

/// The extents of the uncompressed files with numbers below `next_ino`.
pub fn collect_runs(
    inodes: &OrdMap<Inode>,
    spills: &OrdMap<Vec<Extent>>,
    next_ino: u64,
) -> (r: Vec<Extent>)
    requires
        spills.wf(),
        forall|i: int|
            0 <= i < inodes.entries().len() ==> inode_ok((#[trigger] inodes.entries()[i]).1),
    ensures
        r@ == walk_runs(inodes.entries(), spills@, next_ino),
{
    let ghost es = inodes.entries();
    let mut out: Vec<Extent> = Vec::new();
    let mut i: usize = 0;
    assert(es.take(0) =~= Seq::<(u64, Inode)>::empty());
    while i < inodes.len()
        invariant
            es == inodes.entries(),
            spills.wf(),
            forall|j: int| 0 <= j < es.len() ==> inode_ok((#[trigger] es[j]).1),
            i <= es.len(),
            out@ == walk_runs(es.take(i as int), spills@, next_ino),
        decreases es.len() - i,
    {
        let e = inodes.entry(i);
        let ghost before = out@;
        proof {
            assert(es.take(i + 1).drop_last() =~= es.take(i as int));
            assert(inode_ok(es[i as int].1));
        }
        if 1 <= e.0 && e.0 < next_ino && e.1.compression_algo == 0 {
            let mut runs = live_extent_list(&e.1, spills);
            out.append(&mut runs);
        } else {
            assert(before + Seq::<Extent>::empty() =~= before);
        }
        i = i + 1;
    }
    assert(es.take(i as int) =~= es);
    out
}

/// Whether the file maps its block `logical` to `physical`.
pub fn maps_block(runs: &[Extent], logical: u64, physical: u64) -> (r: bool)
    ensures
        r == maps_to(runs@, logical as int, physical as int),
{
    let mut i: usize = 0;
    while i < runs.len()
        invariant
            i <= runs@.len(),
            forall|j: int|
                0 <= j < i ==> !extent_maps(#[trigger] runs@[j], logical as int, physical as int),
        decreases runs@.len() - i,
    {
        let e = runs[i];
        if e.logical_start <= logical && logical - e.logical_start < e.length && physical
            >= e.physical_start && physical - e.physical_start == logical - e.logical_start {
            assert(extent_maps(runs@[i as int], logical as int, physical as int));
            return true;
        }
        i = i + 1;
    }
    false
}

/// `new` pins each block once more for each extent that holds it.
pub open spec fn pinned_runs_more(
    old_rc: RefCountManager,
    new_rc: RefCountManager,
    runs: Seq<Extent>,
) -> bool {
    forall|b: int|
        (#[trigger] new_rc.pin_count(b)) == old_rc.pin_count(b) + cover_count(runs, b)
}

/// Every block is pinned at least as often as extents hold it.
pub open spec fn runs_pinned(rc: RefCountManager, runs: Seq<Extent>) -> bool {
    forall|b: int| cover_count(runs, b) <= #[trigger] rc.pin_count(b)
}

/// Each block can be pinned once more for each extent that holds it.
pub open spec fn can_pin_runs(rc: RefCountManager, runs: Seq<Extent>) -> bool {
    forall|b: int| (#[trigger] rc.pin_count(b)) + cover_count(runs, b) <= u32::MAX
}

/// Pins every extent.
pub fn pin_all(rc: &mut RefCountManager, runs: &[Extent])
    requires
        old(rc).wf(),
        runs_in_space(runs@),
        can_pin_runs(*old(rc), runs@),
    ensures
        final(rc).wf(),
        final(rc).tree.root_block == old(rc).tree.root_block,
        pinned_runs_more(*old(rc), *final(rc), runs@),
{
    let mut i: usize = 0;
    assert(runs@.take(0) =~= Seq::<Extent>::empty());
    while i < runs.len()
        invariant
            i <= runs@.len(),
            rc.wf(),
            rc.tree.root_block == old(rc).tree.root_block,
            runs_in_space(runs@),
            can_pin_runs(*old(rc), runs@),
            pinned_runs_more(*old(rc), *rc, runs@.take(i as int)),
        decreases runs@.len() - i,
    {
        let e = runs[i];
        let ghost before = *rc;
        assert(runs@[i as int].physical_start + runs@[i as int].length <= u64::MAX);
        assert forall|b: int| e.physical_start <= b < e.physical_start + e.length implies (
        #[trigger] rc.pin_count(b)) < u32::MAX by {
            assert(old(rc).pin_count(b) + cover_count(runs@, b) <= u32::MAX);
            lemma_cover_step(runs@, i as int, b);
            lemma_cover_mono(runs@, i + 1, b);
        }
        rc.pin_range(e.physical_start, e.length);
        i = i + 1;
        assert forall|b: int|
            (#[trigger] rc.pin_count(b)) == old(rc).pin_count(b) + cover_count(
                runs@.take(i as int),
                b,
            ) by {
            lemma_cover_step(runs@, i - 1, b);
            assert(before.pin_count(b) == old(rc).pin_count(b) + cover_count(runs@.take(i - 1), b));
        }
    }
    assert(runs@.take(i as int) =~= runs@);
}

/// The first extents were unpinned, up to one that is not pinned throughout
/// when its turn comes.
pub open spec fn unpinned_in_part(
    old_rc: RefCountManager,
    new_rc: RefCountManager,
    runs: Seq<Extent>,
) -> bool {
    exists|k: int|
        {
            &&& 0 <= k < runs.len()
            &&& runs_pinned(old_rc, #[trigger] runs.take(k))
            &&& !runs_pinned(old_rc, runs.take(k + 1))
            &&& pinned_runs_more(new_rc, old_rc, runs.take(k))
        }
}

/// Unpins every extent, in order. If an extent is not pinned throughout when
/// its turn comes, those before it stay unpinned and the walk ends there.
pub fn unpin_all(rc: &mut RefCountManager, runs: &[Extent]) -> (r: Result<(), Error>)
    requires
        old(rc).wf(),
        runs_in_space(runs@),
    ensures
        final(rc).wf(),
        final(rc).tree.root_block == old(rc).tree.root_block,
        r is Ok <==> runs_pinned(*old(rc), runs@),
        r is Ok ==> pinned_runs_more(*final(rc), *old(rc), runs@),
        r matches Err(e) ==> e.kind == ErrorKind::InvalidData && unpinned_in_part(
            *old(rc),
            *final(rc),
            runs@,
        ),
{
    let mut i: usize = 0;
    assert(runs@.take(0) =~= Seq::<Extent>::empty());
    while i < runs.len()
        invariant
            i <= runs@.len(),
            rc.wf(),
            rc.tree.root_block == old(rc).tree.root_block,
            runs_in_space(runs@),
            pinned_runs_more(*rc, *old(rc), runs@.take(i as int)),
        decreases runs@.len() - i,
    {
        let e = runs[i];
        let ghost before = *rc;
        assert(runs@[i as int].physical_start + runs@[i as int].length <= u64::MAX);
        match rc.unpin_range(e.physical_start, e.length) {
            Ok(_) => {},
            Err(err) => {
                proof {
                    let b = choose|b: int|
                        e.physical_start <= b < e.physical_start + e.length && !((
                        #[trigger] before.pin_count(b)) > 0);
                    assert(before.pin_count(b) <= 0);
                    assert(old(rc).pin_count(b) == before.pin_count(b) + cover_count(
                        runs@.take(i as int),
                        b,
                    ));
                    lemma_cover_step(runs@, i as int, b);
                    lemma_cover_mono(runs@, i + 1, b);
                    assert(!(cover_count(runs@, b) <= old(rc).pin_count(b)));
                    assert(holds(runs@[i as int], b));
                    assert(!(cover_count(runs@.take(i + 1), b) <= old(rc).pin_count(b)));
                    assert forall|c: int| cover_count(runs@.take(i as int), c) <= (
                    #[trigger] old(rc).pin_count(c)) by {
                        refcount::lemma_pins_nonneg(before, c);
                        assert(old(rc).pin_count(c) == before.pin_count(c) + cover_count(
                            runs@.take(i as int),
                            c,
                        ));
                    }
                    assert(runs_pinned(*old(rc), runs@.take(i as int)));
                    assert(pinned_runs_more(*rc, *old(rc), runs@.take(i as int)));
                }
                return Err(err);
            },
        }
        i = i + 1;
        assert forall|b: int|
            (#[trigger] old(rc).pin_count(b)) == rc.pin_count(b) + cover_count(
                runs@.take(i as int),
                b,
            ) by {
            lemma_cover_step(runs@, i - 1, b);
            assert(old(rc).pin_count(b) == before.pin_count(b) + cover_count(runs@.take(i - 1), b));
            assert(before.pin_count(b) >= rc.pin_count(b));
        }
    }
    assert(runs@.take(i as int) =~= runs@);
    proof {
        assert forall|b: int| cover_count(runs@, b) <= #[trigger] old(rc).pin_count(b) by {
            assert(old(rc).pin_count(b) == rc.pin_count(b) + cover_count(runs@, b));
        }
    }
    Ok(())
}

/// A block that one of the extents holds counts at least once; one that none of
/// them holds does not count.
pub proof fn covered_block_counts(runs: Seq<Extent>, i: int, b: int)
    ensures
        cover_count(runs, b) >= 0,
        0 <= i < runs.len() && runs[i].physical_start <= b < runs[i].physical_start
            + runs[i].length ==> cover_count(runs, b) >= 1,
        (forall|k: int|
            0 <= k < runs.len() ==> !((#[trigger] runs[k]).physical_start <= b
                < runs[k].physical_start + runs[k].length)) ==> cover_count(runs, b) == 0,
    decreases runs.len(),
{
    if runs.len() > 0 {
        let t = runs.drop_last();
        covered_block_counts(t, i, b);
        if forall|k: int|
            0 <= k < runs.len() ==> !((#[trigger] runs[k]).physical_start <= b
                < runs[k].physical_start + runs[k].length) {
            assert forall|k: int| 0 <= k < t.len() implies !((#[trigger] t[k]).physical_start <= b
                < t[k].physical_start + t[k].length) by {
                assert(t[k] == runs[k]);
            }
            assert(!holds(runs[runs.len() - 1], b));
        }
    }
}

/// A walk over the inodes takes every extent that has blocks of every file that
/// is not compressed and has a number below the next one.
pub proof fn walk_takes_every_file(
    entries: Seq<(u64, Inode)>,
    spills: Map<u64, Vec<Extent>>,
    next_ino: u64,
    i: int,
    k: int,
)
    requires
        0 <= i < entries.len(),
        1 <= entries[i].0 < next_ino,
        entries[i].1.compression_algo == 0,
        0 <= k < entries[i].1.extent_count <= 7,
        entries[i].1.extents@[k].length > 0,
    ensures
        walk_runs(entries, spills, next_ino).contains(entries[i].1.extents@[k]),
    decreases entries.len(),
{
    let inode = entries[i].1;
    let e = inode.extents@[k];
    let rest = walk_runs(entries.drop_last(), spills, next_ino);
    let all = walk_runs(entries, spills, next_ino);
    if i == entries.len() - 1 {
        let head = inode.extents@.take(inode.extent_count as int);
        let keep = |x: Extent| nonempty(x);
        assert(head[k] == e);
        head.lemma_filter_contains(keep, k);
        let inline = inline_runs(inode);
        let j = choose|j: int| 0 <= j < inline.len() && inline[j] == e;
        assert(file_runs(inode, spills)[j] == e);
        assert(all[rest.len() + j] == e);
    } else {
        walk_takes_every_file(entries.drop_last(), spills, next_ino, i, k);
        let j = choose|j: int| 0 <= j < rest.len() && rest[j] == e;
        assert(all[j] == e);
    }
}

} // verus!
