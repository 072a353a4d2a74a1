//! The runs of a file: where each of its blocks is on the image.

use crate::fs::extents;
use crate::ondisk::serialization::{Extent, Inode};
use vstd::prelude::*;

verus! {

/// Number of runs that an inode holds itself.
pub const INLINE_RUNS: usize = 7;

/// The block of the file behind the run.
pub open spec fn logical_end(e: Extent) -> int {
    e.logical_start + e.length
}

/// The block of the image behind the run.
pub open spec fn physical_end(e: Extent) -> int {
    e.physical_start + e.length
}

/// The run is not empty and its blocks have numbers.
pub open spec fn run_ok(e: Extent) -> bool {
    &&& e.length >= 1
    &&& logical_end(e) <= u64::MAX
    &&& physical_end(e) <= u64::MAX
}

/// The runs are in the order of the file and do not overlap there.
pub open spec fn runs_ok(s: Seq<Extent>) -> bool {
    &&& forall|i: int| 0 <= i < s.len() ==> run_ok(#[trigger] s[i])
    &&& forall|i: int, j: int|
        0 <= i < j < s.len() ==> logical_end(#[trigger] s[i]) <= (#[trigger] s[j]).logical_start
}

/// Whether the runs are in the order of the file and do not overlap there.
pub fn in_order(s: &[Extent]) -> (r: bool)
    ensures
        r == runs_ok(s@),
{
    let mut i: usize = 0;
    while i < s.len()
        invariant
            i <= s@.len(),
            forall|a: int| 0 <= a < i ==> run_ok(#[trigger] s@[a]),
            forall|a: int, b: int|
                0 <= a < b < i ==> logical_end(#[trigger] s@[a]) <= (
                #[trigger] s@[b]).logical_start,
        decreases s@.len() - i,
    {
        let e = s[i];
        if e.length == 0 || e.logical_start > u64::MAX - e.length || e.physical_start > u64::MAX
            - e.length {
            assert(!run_ok(s@[i as int]));
            return false;
        }
        if i > 0 {
            let f = s[i - 1];
            assert(run_ok(s@[i - 1]));
            if f.logical_start + f.length > e.logical_start {
                assert(!(logical_end(s@[i - 1]) <= s@[i as int].logical_start));
                return false;
            }
            assert forall|a: int| 0 <= a < i implies logical_end(#[trigger] s@[a])
                <= s@[i as int].logical_start by {
                if a < i - 1 {
                    assert(logical_end(s@[a]) <= s@[i - 1].logical_start);
                }
            }
        }
        i = i + 1;
    }
    true
}

/// Where block `l` of the file is, if it is anywhere.
pub open spec fn place(s: Seq<Extent>, l: int) -> Option<u64> {
    if exists|p: int| #[trigger] extents::maps_to(s, l, p) {
        Some((choose|p: int| #[trigger] extents::maps_to(s, l, p)) as u64)
    } else {
        None
    }
}

/// A block of a file is in one place.
pub proof fn lemma_one_place(s: Seq<Extent>, l: int, p: int)
    requires
        runs_ok(s),
        extents::maps_to(s, l, p),
    ensures
        place(s, l) == Some(p as u64),
        0 <= p < u64::MAX,
        0 <= l < u64::MAX,
{
    let q = choose|q: int| #[trigger] extents::maps_to(s, l, q);
    let i = choose|i: int| 0 <= i < s.len() && extents::extent_maps(#[trigger] s[i], l, p);
    let j = choose|j: int| 0 <= j < s.len() && extents::extent_maps(#[trigger] s[j], l, q);
    assert(run_ok(s[i]) && run_ok(s[j]));
    if i < j {
        assert(logical_end(s[i]) <= s[j].logical_start);
    } else if j < i {
        assert(logical_end(s[j]) <= s[i].logical_start);
    }
}

/// A block has a place if and only if a run maps it there.
pub proof fn lemma_place(s: Seq<Extent>, l: int)
    requires
        runs_ok(s),
    ensures
        place(s, l) is None <==> forall|p: int| !(#[trigger] extents::maps_to(s, l, p)),
        place(s, l) matches Some(p) ==> extents::maps_to(s, l, p as int) && p < u64::MAX && 0 <= l
            < u64::MAX,
{
    if exists|p: int| #[trigger] extents::maps_to(s, l, p) {
        let p = choose|p: int| #[trigger] extents::maps_to(s, l, p);
        lemma_one_place(s, l, p);
    }
}

/// What a run behind the others adds.
proof fn lemma_push(s: Seq<Extent>, e: Extent)
    requires
        runs_ok(s),
        run_ok(e),
        s.len() > 0 ==> logical_end(s.last()) <= e.logical_start,
    ensures
        runs_ok(s.push(e)),
        forall|l: int, p: int| #[trigger]
            extents::maps_to(s.push(e), l, p) <==> extents::maps_to(s, l, p) || extents::extent_maps(
                e,
                l,
                p,
            ),
{
    let t = s.push(e);
    assert forall|i: int, j: int| 0 <= i < j < t.len() implies logical_end(#[trigger] t[i]) <= (
    #[trigger] t[j]).logical_start by {
        if j == s.len() {
            assert(i < s.len());
            assert(t[i] == s[i]);
            if i < s.len() - 1 {
                assert(logical_end(s[i]) <= s[s.len() - 1].logical_start);
                assert(run_ok(s[s.len() - 1]));
            }
        } else {
            assert(t[i] == s[i] && t[j] == s[j]);
        }
    }
    assert forall|l: int, p: int| #[trigger] extents::maps_to(t, l, p) <==> extents::maps_to(
        s,
        l,
        p,
    ) || extents::extent_maps(e, l, p) by {
        if extents::maps_to(t, l, p) {
            let i = choose|i: int| 0 <= i < t.len() && extents::extent_maps(#[trigger] t[i], l, p);
            if i < s.len() {
                assert(s[i] == t[i]);
            }
        }
        if extents::maps_to(s, l, p) {
            let i = choose|i: int| 0 <= i < s.len() && extents::extent_maps(#[trigger] s[i], l, p);
            assert(t[i] == s[i]);
        }
        if extents::extent_maps(e, l, p) {
            assert(t[s.len() as int] == e);
        }
    }
}

/// Puts block `l` of the file behind the runs, at `p`: in the last run where
/// it continues it, else in a run of its own.
fn push_block(out: &mut Vec<Extent>, l: u64, p: u64)
    requires
        runs_ok(old(out)@),
        l < u64::MAX,
        p < u64::MAX,
        old(out)@.len() > 0 ==> logical_end(old(out)@.last()) <= l,
    ensures
        runs_ok(final(out)@),
        0 < final(out)@.len() <= old(out)@.len() + 1,
        logical_end(final(out)@.last()) == l + 1,
        forall|l2: int, p2: int| #[trigger]
            extents::maps_to(final(out)@, l2, p2) <==> extents::maps_to(old(out)@, l2, p2) || (l2
                == l && p2 == p),
{
    let n: usize = out.len();
    let ghost s = out@;
    if n > 0 {
        let last: Extent = out[n - 1];
        assert(run_ok(s[n - 1]));
        if last.logical_start + last.length == l && last.physical_start + last.length == p {
            let longer = Extent {
                logical_start: last.logical_start,
                physical_start: last.physical_start,
                length: last.length + 1,
            };
            out.set(n - 1, longer);
            proof {
                let t = out@;
                assert(run_ok(longer));
                assert forall|i: int, j: int| 0 <= i < j < t.len() implies logical_end(
                    #[trigger] t[i],
                ) <= (#[trigger] t[j]).logical_start by {
                    assert(s[i] == t[i]);
                    assert(logical_end(s[i]) <= s[j].logical_start);
                }
                assert forall|l2: int, p2: int| #[trigger]
                    extents::maps_to(t, l2, p2) <==> extents::maps_to(s, l2, p2) || (l2 == l && p2
                        == p) by {
                    if extents::maps_to(t, l2, p2) {
                        let i = choose|i: int|
                            0 <= i < t.len() && extents::extent_maps(#[trigger] t[i], l2, p2);
                        assert(i < n - 1 ==> s[i] == t[i]);
                        assert(extents::extent_maps(s[i], l2, p2) || (l2 == l && p2 == p));
                    }
                    if extents::maps_to(s, l2, p2) {
                        let i = choose|i: int|
                            0 <= i < s.len() && extents::extent_maps(#[trigger] s[i], l2, p2);
                        assert(extents::extent_maps(t[i], l2, p2));
                    }
                    if l2 == l && p2 == p {
                        assert(extents::extent_maps(t[n - 1], l2, p2));
                    }
                }
            }
            return;
        }
    }
    let e = Extent { logical_start: l, physical_start: p, length: 1 };
    proof {
        lemma_push(s, e);
    }
    out.push(e);
    assert(out@ =~= s.push(e));
    assert forall|l2: int, p2: int| #[trigger]
        extents::maps_to(out@, l2, p2) <==> extents::maps_to(s, l2, p2) || (l2 == l && p2 == p) by {
        assert(extents::extent_maps(e, l2, p2) <==> (l2 == l && p2 == p));
    }
}

/// Puts a run behind the runs.
fn push_run(out: &mut Vec<Extent>, e: Extent)
    requires
        runs_ok(old(out)@),
        run_ok(e),
        old(out)@.len() > 0 ==> logical_end(old(out)@.last()) <= e.logical_start,
    ensures
        runs_ok(final(out)@),
        final(out)@.len() == old(out)@.len() + 1,
        final(out)@.last() == e,
        forall|l: int, p: int| #[trigger]
            extents::maps_to(final(out)@, l, p) <==> extents::maps_to(old(out)@, l, p)
                || extents::extent_maps(e, l, p),
{
    proof {
        lemma_push(out@, e);
    }
    out.push(e);
}

/// The mappings of the first `i + 1` runs are those of the first `i` and of
/// the next.
proof fn lemma_take_step(s: Seq<Extent>, i: int)
    requires
        0 <= i < s.len(),
    ensures
        forall|l: int, p: int| #[trigger]
            extents::maps_to(s.take(i + 1), l, p) <==> extents::maps_to(s.take(i), l, p)
                || extents::extent_maps(s[i], l, p),
{
    let a = s.take(i);
    let b = s.take(i + 1);
    assert forall|l: int, p: int| #[trigger]
        extents::maps_to(b, l, p) <==> extents::maps_to(a, l, p) || extents::extent_maps(s[i], l, p) by {
        if extents::maps_to(b, l, p) {
            let k = choose|k: int| 0 <= k < b.len() && extents::extent_maps(#[trigger] b[k], l, p);
            assert(k < i ==> a[k] == b[k]);
        }
        if extents::maps_to(a, l, p) {
            let k = choose|k: int| 0 <= k < a.len() && extents::extent_maps(#[trigger] a[k], l, p);
            assert(b[k] == a[k]);
        }
        if extents::extent_maps(s[i], l, p) {
            assert(b[i] == s[i]);
        }
    }
}

/// `b` is `a` with block `l` of the file at `p`.
pub open spec fn moved(a: Seq<Extent>, b: Seq<Extent>, l: int, p: int) -> bool {
    forall|l2: int, p2: int| #[trigger]
        extents::maps_to(b, l2, p2) <==> (if l2 == l {
            p2 == p
        } else {
            extents::maps_to(a, l2, p2)
        })
}

/// The runs with block `l` of the file at `p`: the run that held the block is
/// split around it, its neighbours stay where they are.
pub fn place_block(runs: &[Extent], l: u64, p: u64) -> (r: Vec<Extent>)
    requires
        runs_ok(runs@),
        l < u64::MAX,
        p < u64::MAX,
    ensures
        runs_ok(r@),
        r@.len() <= runs@.len() + 2,
        moved(runs@, r@, l as int, p as int),
{
    let mut out: Vec<Extent> = Vec::new();
    let mut placed: bool = false;
    let mut i: usize = 0;
    let ghost s = runs@;
    while i < runs.len()
        invariant
            s == runs@,
            runs_ok(s),
            l < u64::MAX,
            p < u64::MAX,
            i <= s.len(),
            out@.len() <= i + (if placed {
                2int
            } else {
                0
            }),
            runs_ok(out@),
            out@.len() > 0 && i < s.len() ==> logical_end(out@.last()) <= s[i as int].logical_start,
            !placed ==> forall|k: int| 0 <= k < i ==> logical_end(#[trigger] s[k]) <= l,
            !placed && out@.len() > 0 ==> logical_end(out@.last()) <= l,
            placed ==> forall|k: int| i <= k < s.len() ==> l < (#[trigger] s[k]).logical_start,
            forall|l2: int, p2: int| #[trigger]
                extents::maps_to(out@, l2, p2) <==> (if l2 == l {
                    placed && p2 == p
                } else {
                    extents::maps_to(s.take(i as int), l2, p2)
                }),
        decreases s.len() - i,
    {
        let e: Extent = runs[i];
        let ghost before = out@;
        proof {
            assert(run_ok(s[i as int]));
            lemma_take_step(s, i as int);
            assert(i + 1 < s.len() ==> logical_end(s[i as int]) <= s[i + 1].logical_start);
        }
        if placed || e.logical_start + e.length <= l {
            push_run(&mut out, e);
        } else if l < e.logical_start {
            push_block(&mut out, l, p);
            push_run(&mut out, e);
            placed = true;
        } else {
            let left: u64 = l - e.logical_start;
            if left > 0 {
                push_run(
                    &mut out,
                    Extent {
                        logical_start: e.logical_start,
                        physical_start: e.physical_start,
                        length: left,
                    },
                );
            }
            push_block(&mut out, l, p);
            let right: u64 = e.length - left - 1;
            if right > 0 {
                push_run(
                    &mut out,
                    Extent {
                        logical_start: l + 1,
                        physical_start: e.physical_start + left + 1,
                        length: right,
                    },
                );
            }
            placed = true;
        }
        proof {
            if placed {
                assert forall|k: int| i < k < s.len() implies l < (#[trigger] s[k]).logical_start by {
                    assert(logical_end(s[i as int]) <= s[k].logical_start);
                }
            }
        }
        i = i + 1;
    }
    assert(s.take(s.len() as int) =~= s);
    if !placed {
        push_block(&mut out, l, p);
    }
    out
}

/// Where block `l` of the file is.
pub fn find_block(runs: &[Extent], l: u64) -> (r: Option<u64>)
    requires
        runs_ok(runs@),
    ensures
        r == place(runs@, l as int),
{
    let mut i: usize = 0;
    while i < runs.len()
        invariant
            runs_ok(runs@),
            i <= runs@.len(),
            forall|k: int, p: int|
                0 <= k < i ==> !#[trigger] extents::extent_maps(runs@[k], l as int, p),
        decreases runs@.len() - i,
    {
        let e: Extent = runs[i];
        assert(run_ok(runs@[i as int]));
        if e.logical_start <= l && l < e.logical_start + e.length {
            let p: u64 = e.physical_start + (l - e.logical_start);
            proof {
                assert(extents::extent_maps(runs@[i as int], l as int, p as int));
                lemma_one_place(runs@, l as int, p as int);
            }
            return Some(p);
        }
        i = i + 1;
    }
    proof {
        lemma_place(runs@, l as int);
        if let Some(p) = place(runs@, l as int) {
            assert(extents::maps_to(runs@, l as int, p as int));
        }
    }
    None
}

/// `b` holds the blocks of `a` in front of block `end` of the file.
pub open spec fn cut(a: Seq<Extent>, b: Seq<Extent>, end: int) -> bool {
    forall|l: int, p: int| #[trigger]
        extents::maps_to(b, l, p) <==> l < end && extents::maps_to(a, l, p)
}

/// The runs in front of block `end` of the file.
pub fn cut_runs(runs: &[Extent], end: u64) -> (r: Vec<Extent>)
    requires
        runs_ok(runs@),
    ensures
        runs_ok(r@),
        r@.len() <= runs@.len(),
        cut(runs@, r@, end as int),
{
    let mut out: Vec<Extent> = Vec::new();
    let mut i: usize = 0;
    let ghost s = runs@;
    while i < runs.len()
        invariant
            s == runs@,
            runs_ok(s),
            i <= s.len(),
            out@.len() <= i,
            runs_ok(out@),
            out@.len() > 0 && i < s.len() ==> logical_end(out@.last()) <= s[i as int].logical_start,
            cut(s.take(i as int), out@, end as int),
        decreases s.len() - i,
    {
        let e: Extent = runs[i];
        proof {
            assert(run_ok(s[i as int]));
            lemma_take_step(s, i as int);
            assert(i + 1 < s.len() ==> logical_end(s[i as int]) <= s[i + 1].logical_start);
        }
        if e.logical_start < end {
            let room: u64 = end - e.logical_start;
            push_run(
                &mut out,
                Extent {
                    logical_start: e.logical_start,
                    physical_start: e.physical_start,
                    length: if e.length < room {
                        e.length
                    } else {
                        room
                    },
                },
            );
        }
        i = i + 1;
    }
    assert(s.take(s.len() as int) =~= s);
    out
}

/// Runs that are not empty are all kept where empty ones are left out.
proof fn lemma_all_kept(s: Seq<Extent>)
    requires
        forall|i: int| 0 <= i < s.len() ==> (#[trigger] s[i]).length >= 1,
    ensures
        s.filter(|e: Extent| extents::nonempty(e)) == s,
    decreases s.len(),
{
    reveal(Seq::filter);
    if s.len() > 0 {
        assert forall|i: int| 0 <= i < s.drop_last().len() implies (
        #[trigger] s.drop_last()[i]).length >= 1 by {
            assert(s.drop_last()[i] == s[i]);
        }
        lemma_all_kept(s.drop_last());
        assert(s[s.len() - 1].length >= 1);
        assert(s.drop_last().push(s.last()) =~= s);
    }
}

/// Puts the runs into an inode: the first ones into the inode itself, the
/// others, which are returned, under `spill_root`.
pub fn lay_out(inode: &mut Inode, runs: &[Extent], spill_root: u64) -> (r: Vec<Extent>)
    requires
        runs_ok(runs@),
        runs@.len() > 7 ==> spill_root != 0,
    ensures
        extents::inode_ok(*final(inode)),
        final(inode).extent_count == (if runs@.len() < 7 {
            runs@.len()
        } else {
            7
        }),
        final(inode).spill_extent_root == (if runs@.len() > 7 {
            spill_root
        } else {
            0
        }),
        r@ == runs@.skip(final(inode).extent_count as int),
        *final(inode) == (Inode {
            extent_count: final(inode).extent_count,
            extents: final(inode).extents,
            spill_extent_root: final(inode).spill_extent_root,
            ..*old(inode)
        }),
        forall|spills: Map<u64, Vec<Extent>>|
            (runs@.len() > 7 ==> spills.contains_key(spill_root) && spills[spill_root]@ == r@)
                ==> #[trigger] extents::file_runs(*final(inode), spills) == runs@,
{
    let n: usize = if runs.len() < INLINE_RUNS {
        runs.len()
    } else {
        INLINE_RUNS
    };
    let mut i: usize = 0;
    while i < n
        invariant
            n <= runs@.len(),
            n <= 7,
            i <= n,
            forall|k: int| 0 <= k < i ==> #[trigger] inode.extents@[k] == runs@[k],
            *inode == (Inode { extents: inode.extents, ..*old(inode) }),
        decreases n - i,
    {
        let ghost before = inode.extents@;
        inode.extents[i] = runs[i];
        assert(inode.extents@ =~= before.update(i as int, runs@[i as int]));
        i = i + 1;
    }
    inode.extent_count = n as u32;
    let mut rest: Vec<Extent> = Vec::new();
    while i < runs.len()
        invariant
            n <= i <= runs@.len(),
            rest@ == runs@.subrange(n as int, i as int),
        decreases runs@.len() - i,
    {
        rest.push(runs[i]);
        i = i + 1;
        assert(rest@ =~= runs@.subrange(n as int, i as int));
    }
    inode.spill_extent_root = if rest.len() > 0 {
        spill_root
    } else {
        0
    };
    proof {
        assert(rest@ =~= runs@.skip(n as int));
        let head = inode.extents@.take(n as int);
        assert(head =~= runs@.take(n as int));
        assert forall|k: int| 0 <= k < head.len() implies (#[trigger] head[k]).length >= 1 by {
            assert(run_ok(runs@[k]));
        }
        lemma_all_kept(head);
        assert forall|k: int| 0 <= k < rest@.len() implies (#[trigger] rest@[k]).length >= 1 by {
            assert(run_ok(runs@[n + k]));
        }
        lemma_all_kept(rest@);
        assert forall|spills: Map<u64, Vec<Extent>>|
            (runs@.len() > 7 ==> spills.contains_key(spill_root) && spills[spill_root]@
                == rest@) implies #[trigger] extents::file_runs(*inode, spills) == runs@ by {
            assert(extents::inline_runs(*inode) == head);
            assert(extents::spilled_runs(*inode, spills) =~= rest@);
            assert(head + rest@ =~= runs@);
        }
    }
    rest
}

/// Moving one block leaves the others where they are.
pub proof fn lemma_moved(a: Seq<Extent>, b: Seq<Extent>, l: int, p: int)
    requires
        runs_ok(a),
        runs_ok(b),
        moved(a, b, l, p),
    ensures
        place(b, l) == Some(p as u64),
        forall|l2: int| l2 != l ==> #[trigger] place(b, l2) == place(a, l2),
{
    assert(extents::maps_to(b, l, p));
    lemma_one_place(b, l, p);
    assert forall|l2: int| l2 != l implies #[trigger] place(b, l2) == place(a, l2) by {
        lemma_place(a, l2);
        lemma_place(b, l2);
        if let Some(q) = place(a, l2) {
            assert(extents::maps_to(b, l2, q as int));
            lemma_one_place(b, l2, q as int);
        }
    }
}

/// Cutting runs off leaves the blocks in front where they are.
pub proof fn lemma_cut(a: Seq<Extent>, b: Seq<Extent>, end: int)
    requires
        runs_ok(a),
        runs_ok(b),
        cut(a, b, end),
    ensures
        forall|l: int|
            (#[trigger] place(b, l)) == (if l < end {
                place(a, l)
            } else {
                None
            }),
{
    assert forall|l: int|
        (#[trigger] place(b, l)) == (if l < end {
            place(a, l)
        } else {
            None
        }) by {
        lemma_place(a, l);
        lemma_place(b, l);
        if l < end {
            if let Some(q) = place(a, l) {
                assert(extents::maps_to(b, l, q as int));
                lemma_one_place(b, l, q as int);
            }
        }
    }
}

} // verus!
