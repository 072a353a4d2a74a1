//! Pin counts of physical blocks.
//!
//! The coverage tree holds disjoint runs of blocks, each with the number of
//! references, other than the live file's own mapping, that pin every block of
//! the run. A block that no run covers is free to be modified in place; a
//! pinned block is copied before it is written.

use crate::btree::BTree;
use crate::error::{Error, ErrorKind};
use crate::ordmap;
use vstd::prelude::*;

verus! {

/// Node type of the coverage tree.
pub const REFCOUNT_TREE_NODE_TYPE: u32 = 7;

/// One coverage run: every physical block in
/// `[physical_start, physical_start + length)` is pinned `count` times.
#[derive(Debug, Clone, Copy, PartialEq, Eq, Structural)]
pub struct CoverageEntry {
    /// The first block of the run.
    pub physical_start: u64,
    /// How many blocks the run has.
    pub length: u64,
    /// How often each of its blocks is pinned.
    pub count: u32,
    /// Unused, zero.
    pub padding: u32,
}

/// The block after the run's last.
pub open spec fn run_end(e: (u64, CoverageEntry)) -> int {
    e.0 + e.1.length
}

/// The run is not empty, is pinned, and lies in the block address space.
pub open spec fn run_ok(e: (u64, CoverageEntry)) -> bool {
    &&& e.1.physical_start == e.0
    &&& e.1.length >= 1
    &&& e.1.count >= 1
    &&& run_end(e) <= u64::MAX
}

/// The runs are in order and disjoint.
pub open spec fn runs_ok(s: Seq<(u64, CoverageEntry)>) -> bool {
    &&& forall|i: int| 0 <= i < s.len() ==> run_ok(#[trigger] s[i])
    &&& forall|i: int, j: int|
        0 <= i < j < s.len() ==> run_end(#[trigger] s[i]) <= (#[trigger] s[j]).0
}

/// The run holds the block `b`.
pub open spec fn covers(e: (u64, CoverageEntry), b: int) -> bool {
    e.0 <= b < run_end(e)
}

/// Some run of `s` holds the block `b`.
pub open spec fn covered(s: Seq<(u64, CoverageEntry)>, b: int) -> bool {
    exists|i: int| 0 <= i < s.len() && covers(#[trigger] s[i], b)
}

/// How often the runs of `s` pin the block `b`.
pub open spec fn pins(s: Seq<(u64, CoverageEntry)>, b: int) -> int {
    if covered(s, b) {
        s[choose|i: int| 0 <= i < s.len() && covers(#[trigger] s[i], b)].1.count as int
    } else {
        0
    }
}

/// A run of `s` starts at `b`.
pub open spec fn starts_run(s: Seq<(u64, CoverageEntry)>, b: int) -> bool {
    exists|i: int| 0 <= i < s.len() && (#[trigger] s[i]).0 == b
}

/// A run of `s` ends just before `b`.
pub open spec fn ends_run(s: Seq<(u64, CoverageEntry)>, b: int) -> bool {
    exists|i: int| 0 <= i < s.len() && run_end(#[trigger] s[i]) == b
}

/// `new` is `old` cut at the bounds of the window `[lo, hi)` and nowhere
/// else: a block starts a run exactly if it is pinned and is a bound of an old
/// run or of the window.
pub open spec fn cut_at_window(
    old_runs: Seq<(u64, CoverageEntry)>,
    new_runs: Seq<(u64, CoverageEntry)>,
    lo: int,
    hi: int,
) -> bool {
    forall|b: int| #[trigger]
        starts_run(new_runs, b) <==> pins(new_runs, b) > 0 && (starts_run(old_runs, b) || ends_run(
            old_runs,
            b,
        ) || b == lo || b == hi)
}

/// `new` pins each block of `[ps, ps + len)` once more than `old`, and every
/// other block as often.
pub open spec fn pinned_once_more(
    old_rc: RefCountManager,
    new_rc: RefCountManager,
    ps: int,
    len: int,
) -> bool {
    forall|b: int|
        (#[trigger] new_rc.pin_count(b)) == old_rc.pin_count(b) + (if ps <= b < ps + len {
            1int
        } else {
            0
        })
}

/// Every block of `[ps, ps + len)` is pinned.
pub open spec fn all_pinned(rc: RefCountManager, ps: int, len: int) -> bool {
    forall|b: int| ps <= b < ps + len ==> (#[trigger] rc.pin_count(b)) > 0
}

/// The pin count of a block is the count of the run that holds it.
pub proof fn lemma_pins_of_run(s: Seq<(u64, CoverageEntry)>, i: int, b: int)
    requires
        runs_ok(s),
        0 <= i < s.len(),
        covers(s[i], b),
    ensures
        pins(s, b) == s[i].1.count,
        pins(s, b) > 0,
{
    let p = choose|p: int| 0 <= p < s.len() && covers(#[trigger] s[p], b);
    assert(covers(s[p], b));
    if p < i {
        assert(run_end(s[p]) <= s[i].0);
    } else if i < p {
        assert(run_end(s[i]) <= s[p].0);
    }
    assert(run_ok(s[i]));
}

/// What appending a run to a run list does to pins, starts and ends.
proof fn lemma_push(s: Seq<(u64, CoverageEntry)>, e: (u64, CoverageEntry))
    requires
        runs_ok(s),
        run_ok(e),
        forall|i: int| 0 <= i < s.len() ==> run_end(#[trigger] s[i]) <= e.0,
    ensures
        runs_ok(s.push(e)),
        forall|b: int|
            (#[trigger] pins(s.push(e), b)) == (if covers(e, b) {
                e.1.count as int
            } else {
                pins(s, b)
            }),
        forall|b: int| covers(e, b) ==> (#[trigger] pins(s, b)) == 0,
        forall|b: int| (#[trigger] starts_run(s.push(e), b)) <==> starts_run(s, b) || b == e.0,
        forall|b: int| (#[trigger] ends_run(s.push(e), b)) <==> ends_run(s, b) || b == run_end(e),
{
    let t = s.push(e);
    assert(runs_ok(t));
    assert forall|b: int|
        (#[trigger] pins(t, b)) == (if covers(e, b) {
            e.1.count as int
        } else {
            pins(s, b)
        }) by {
        if covers(e, b) {
            assert(t[s.len() as int] == e);
            lemma_pins_of_run(t, s.len() as int, b);
        } else if covered(s, b) {
            let p = choose|p: int| 0 <= p < s.len() && covers(#[trigger] s[p], b);
            assert(t[p] == s[p]);
            lemma_pins_of_run(t, p, b);
            lemma_pins_of_run(s, p, b);
        } else {
            if covered(t, b) {
                let p = choose|p: int| 0 <= p < t.len() && covers(#[trigger] t[p], b);
                assert(p < s.len());
                assert(covers(s[p], b));
            }
        }
    }
    assert forall|b: int| covers(e, b) implies (#[trigger] pins(s, b)) == 0 by {
        if covered(s, b) {
            let p = choose|p: int| 0 <= p < s.len() && covers(#[trigger] s[p], b);
            assert(run_end(s[p]) <= e.0);
        }
    }
    assert forall|b: int| (#[trigger] starts_run(t, b)) <==> starts_run(s, b) || b == e.0 by {
        if starts_run(s, b) {
            let p = choose|p: int| 0 <= p < s.len() && (#[trigger] s[p]).0 == b;
            assert(t[p].0 == b);
        }
        if starts_run(t, b) {
            let p = choose|p: int| 0 <= p < t.len() && (#[trigger] t[p]).0 == b;
            if p < s.len() {
                assert(s[p].0 == b);
            }
        }
        assert(t[s.len() as int].0 == e.0);
    }
    assert forall|b: int| (#[trigger] ends_run(t, b)) <==> ends_run(s, b) || b == run_end(e) by {
        if ends_run(s, b) {
            let p = choose|p: int| 0 <= p < s.len() && run_end(#[trigger] s[p]) == b;
            assert(run_end(t[p]) == b);
        }
        if ends_run(t, b) {
            let p = choose|p: int| 0 <= p < t.len() && run_end(#[trigger] t[p]) == b;
            if p < s.len() {
                assert(run_end(s[p]) == b);
            }
        }
        assert(run_end(t[s.len() as int]) == run_end(e));
    }
}

/// No block of a run lies behind every end in the list.
proof fn lemma_unpinned_behind(s: Seq<(u64, CoverageEntry)>, bound: int)
    requires
        forall|i: int| 0 <= i < s.len() ==> run_end(#[trigger] s[i]) <= bound,
    ensures
        forall|b: int| b >= bound ==> (#[trigger] pins(s, b)) == 0,
{
    assert forall|b: int| b >= bound implies (#[trigger] pins(s, b)) == 0 by {
        if covered(s, b) {
            let p = choose|p: int| 0 <= p < s.len() && covers(#[trigger] s[p], b);
            assert(run_end(s[p]) <= bound);
        }
    }
}

/// Appends the run `[start, start + length)` with the given count.
fn push_run(out: &mut Vec<(u64, CoverageEntry)>, start: u64, length: u64, count: u32)
    requires
        runs_ok(old(out)@),
        length >= 1,
        count >= 1,
        start + length <= u64::MAX,
        forall|i: int| 0 <= i < old(out)@.len() ==> run_end(#[trigger] old(out)@[i]) <= start,
    ensures
        runs_ok(final(out)@),
        forall|i: int|
            0 <= i < final(out)@.len() ==> run_end(#[trigger] final(out)@[i]) <= start + length,
        forall|b: int|
            (#[trigger] pins(final(out)@, b)) == (if start <= b < start + length {
                count as int
            } else {
                pins(old(out)@, b)
            }),
        forall|b: int| start <= b < start + length ==> (#[trigger] pins(old(out)@, b)) == 0,
        forall|b: int|
            (#[trigger] starts_run(final(out)@, b)) <==> starts_run(old(out)@, b) || b == start,
{
    let e = (start, CoverageEntry { physical_start: start, length, count, padding: 0 });
    proof {
        lemma_push(out@, e);
    }
    out.push(e);
}

/// The coverage tree of one image.
pub struct RefCountManager {
    /// The runs, keyed by their first block.
    pub tree: BTree<CoverageEntry>,
}

impl RefCountManager {
    /// The runs, in physical order.
    pub open spec fn runs(&self) -> Seq<(u64, CoverageEntry)> {
        self.tree.entries()
    }

    /// The runs are in order, disjoint, and each is pinned.
    pub open spec fn wf(&self) -> bool {
        &&& self.tree.wf()
        &&& runs_ok(self.runs())
    }

    /// How often the block `b` is pinned.
    pub open spec fn pin_count(&self, b: int) -> int {
        pins(self.runs(), b)
    }

    /// An empty coverage tree rooted at `root_block`.
    pub fn new(root_block: u64) -> (r: Self)
        ensures
            r.wf(),
            r.runs() == Seq::<(u64, CoverageEntry)>::empty(),
            r.tree.root_block == root_block,
            forall|b: int| (#[trigger] r.pin_count(b)) == 0,
    {
        RefCountManager { tree: BTree::new(root_block, REFCOUNT_TREE_NODE_TYPE) }
    }

    /// Whether the runs are in order, disjoint, and each is pinned.
    pub fn in_order(&self) -> (r: bool)
        ensures
            r == self.wf(),
    {
        if !self.tree.records.in_order() {
            return false;
        }
        let ghost s = self.runs();
        let mut i: usize = 0;
        while i < self.tree.len()
            invariant
                s == self.runs(),
                i <= s.len(),
                forall|a: int| 0 <= a < i ==> run_ok(#[trigger] s[a]),
                forall|a: int, b: int|
                    0 <= a < b < i ==> run_end(#[trigger] s[a]) <= (#[trigger] s[b]).0,
            decreases s.len() - i,
        {
            let (start, e) = *self.tree.entry(i);
            if e.physical_start != start || e.length == 0 || e.count == 0 || start > u64::MAX
                - e.length {
                assert(!run_ok(s[i as int]));
                return false;
            }
            if i > 0 {
                let (before, f) = *self.tree.entry(i - 1);
                assert(run_ok(s[i - 1]));
                if before + f.length > start {
                    assert(!(run_end(s[i - 1]) <= s[i as int].0));
                    return false;
                }
                assert forall|a: int| 0 <= a < i implies run_end(#[trigger] s[a]) <= s[i as int].0 by {
                    if a < i - 1 {
                        assert(run_end(s[a]) <= s[i - 1].0);
                    }
                }
            }
            i = i + 1;
        }
        true
    }

    /// Makes the coverage tree an empty one rooted at `root_block`.
    pub fn init_empty(&mut self, root_block: u64)
        ensures
            final(self).wf(),
            final(self).runs() == Seq::<(u64, CoverageEntry)>::empty(),
            final(self).tree.root_block == root_block,
            forall|b: int| (#[trigger] final(self).pin_count(b)) == 0,
    {
        self.tree = BTree::new(root_block, REFCOUNT_TREE_NODE_TYPE);
    }

    /// The pin count covering one physical block (0 = unpinned, free to
    /// modify in place).
    pub fn coverage_at(&self, block: u64) -> (r: u32)
        requires
            self.wf(),
        ensures
            r == self.pin_count(block as int),
    {
        match self.tree.lookup_floor(block) {
            Some((start, entry)) => {
                proof {
                    ordmap::lemma_key_pos(self.runs(), start);
                    let p = ordmap::key_pos(self.runs(), start);
                    ordmap::lemma_map_of_entry(self.runs(), p);
                    assert(run_ok(self.runs()[p]));
                    if covered(self.runs(), block as int) {
                        let q = choose|q: int|
                            0 <= q < self.runs().len() && covers(
                                #[trigger] self.runs()[q],
                                block as int,
                            );
                        ordmap::lemma_map_of_entry(self.runs(), q);
                        assert(self.tree@.contains_key(self.runs()[q].0));
                        assert(self.runs()[q].0 <= start);
                        assert(q == p) by {
                            if q < p {
                                assert(run_end(self.runs()[q]) <= self.runs()[p].0);
                            } else if p < q {
                                assert(self.runs()[p].0 < self.runs()[q].0);
                            }
                        }
                    }
                }
                if start == entry.physical_start && block < entry.physical_start + entry.length {
                    proof {
                        ordmap::lemma_key_pos(self.runs(), start);
                    let p = ordmap::key_pos(self.runs(), start);
                        lemma_pins_of_run(self.runs(), p, block as int);
                    }
                    return entry.count;
                }
            },
            None => {
                proof {
                    if covered(self.runs(), block as int) {
                        let q = choose|q: int|
                            0 <= q < self.runs().len() && covers(
                                #[trigger] self.runs()[q],
                                block as int,
                            );
                        ordmap::lemma_map_of_entry(self.runs(), q);
                        assert(self.tree@.contains_key(self.runs()[q].0));
                    }
                }
            },
        }
        0
    }

    /// Whether the single physical block is pinned by any run.
    pub fn is_pinned(&self, block: u64) -> (r: bool)
        requires
            self.wf(),
        ensures
            r == (self.pin_count(block as int) > 0),
    {
        self.coverage_at(block) > 0
    }

    /// Whether the range is non-empty and every block of `[ps, ps + len)` is
    /// pinned.
    pub fn is_range_pinned(&self, ps: u64, len: u64) -> (r: bool)
        requires
            self.wf(),
            ps + len <= u64::MAX,
        ensures
            r == (len > 0 && all_pinned(*self, ps as int, len as int)),
    {
        if len == 0 {
            return false;
        }
        let end: u64 = ps + len;
        let mut cursor: u64 = ps;
        let mut i: usize = 0;
        while i < self.tree.len()
            invariant
                self.wf(),
                end == ps + len,
                i <= self.runs().len(),
                ps <= cursor < end,
                forall|b: int| ps <= b < cursor ==> (#[trigger] self.pin_count(b)) > 0,
                forall|j: int| 0 <= j < i ==> run_end(#[trigger] self.runs()[j]) <= cursor,
            decreases self.runs().len() - i,
        {
            let (start, entry) = *self.tree.entry(i);
            assert(run_ok(self.runs()[i as int]));
            let e_end: u64 = start + entry.length;
            if e_end > cursor {
                if start > cursor {
                    proof {
                        lemma_gap(self.runs(), i as int, cursor as int);
                        assert(self.pin_count(cursor as int) == 0);
                    }
                    return false;
                }
                proof {
                    assert forall|b: int| ps <= b < e_end implies (#[trigger] self.pin_count(b))
                        > 0 by {
                        if b >= cursor {
                            lemma_pins_of_run(self.runs(), i as int, b);
                        }
                    }
                }
                if e_end >= end {
                    return true;
                }
                cursor = e_end;
            }
            i = i + 1;
        }
        proof {
            lemma_gap(self.runs(), i as int, cursor as int);
            assert(self.pin_count(cursor as int) == 0);
        }
        false
    }

    /// Pins `[ps, ps + len)`: every block of the range gets one more pin.
    /// Runs are cut at the window's bounds; what was unpinned inside it
    /// becomes runs with count 1.
    pub fn pin_range(&mut self, ps: u64, len: u64)
        requires
            old(self).wf(),
            ps + len <= u64::MAX,
            forall|b: int|
                ps <= b < ps + len ==> (#[trigger] old(self).pin_count(b)) < u32::MAX,
        ensures
            final(self).wf(),
            final(self).tree.root_block == old(self).tree.root_block,
            pinned_once_more(*old(self), *final(self), ps as int, len as int),
            len == 0 ==> final(self).runs() == old(self).runs(),
            len > 0 ==> cut_at_window(
                old(self).runs(),
                final(self).runs(),
                ps as int,
                ps + len,
            ),
    {
        if len == 0 {
            return;
        }
        let end: u64 = ps + len;
        let ghost runs = self.runs();
        assert forall|b: int| ps <= b < end implies (#[trigger] pins(runs, b)) < u32::MAX by {
            assert(self.pin_count(b) < u32::MAX);
        }
        let mut out: Vec<(u64, CoverageEntry)> = Vec::new();
        let mut lo: u64 = ps;
        let mut i: usize = 0;
        while i < self.tree.len()
            invariant
                *self == *old(self),
                runs == self.runs(),
                runs_ok(runs),
                end == ps + len,
                len > 0,
                i <= runs.len(),
                forall|b: int| ps <= b < end ==> (#[trigger] pins(runs, b)) < u32::MAX,
                pin_progress(runs, out@, i as int, ps as int, end as int, lo as int),
            decreases runs.len() - i,
        {
            let (start, entry) = *self.tree.entry(i);
            let ghost prev_end = ends_before(runs, i as int);
            let ghost before = runs.take(i as int);
            let ghost after = runs.take(i + 1);
            assert(run_ok(runs[i as int]));
            proof {
                lemma_take_step(runs, i as int);
                lemma_unpinned_behind(out@, prev_end);
            }
            let e_end: u64 = start + entry.length;
            if e_end <= ps {
                push_run(&mut out, start, entry.length, entry.count);
            } else if start >= end {
                if lo < end {
                    push_run(&mut out, lo, end - lo, 1);
                    lo = end;
                }
                push_run(&mut out, start, entry.length, entry.count);
            } else {
                let m_lo: u64 = if start > ps {
                    start
                } else {
                    ps
                };
                let m_hi: u64 = if e_end < end {
                    e_end
                } else {
                    end
                };
                proof {
                    lemma_pins_of_run(runs, i as int, m_lo as int);
                }
                if start < ps {
                    push_run(&mut out, start, ps - start, entry.count);
                } else if lo < start {
                    push_run(&mut out, lo, start - lo, 1);
                }
                push_run(&mut out, m_lo, m_hi - m_lo, entry.count + 1);
                lo = m_hi;
                if e_end > end {
                    push_run(&mut out, end, e_end - end, entry.count);
                }
            }
            proof {
                assert(forall|b: int|
                    (#[trigger] pins(out@, b)) == pins(after, b) + (if ps <= b < lo {
                        1int
                    } else {
                        0
                    }));
                assert(cut_at_window(after, out@, ps as int, end as int)) by {
                    assert forall|b: int| #[trigger]
                        starts_run(out@, b) <==> pins(out@, b) > 0 && (starts_run(after, b)
                            || ends_run(after, b) || b == ps || b == end) by {
                        lemma_bounds_below(before, prev_end, b);
                        if i > 0 {
                            assert(run_end(before[i - 1]) == prev_end);
                            assert(ends_run(before, prev_end));
                        }
                    }
                }
            }
            i = i + 1;
            assert(runs.take(i as int) == after);
        }
        assert(runs.take(i as int) =~= runs);
        if lo < end {
            push_run(&mut out, lo, end - lo, 1);
        }
        proof {
            lemma_sorted_runs(out@);
        }
        self.tree = BTree::from_sorted(self.tree.root_block, REFCOUNT_TREE_NODE_TYPE, out);
    }

    /// Unpins `[ps, ps + len)`: every block of the range loses one pin, and
    /// a block whose last pin goes leaves the tree. A range that is not
    /// pinned throughout is refused, and nothing changes.
    pub fn unpin_range(&mut self, ps: u64, len: u64) -> (r: Result<(), Error>)
        requires
            old(self).wf(),
            ps + len <= u64::MAX,
        ensures
            final(self).wf(),
            final(self).tree.root_block == old(self).tree.root_block,
            r is Ok <==> all_pinned(*old(self), ps as int, len as int),
            r is Ok ==> pinned_once_more(*final(self), *old(self), ps as int, len as int),
            r is Ok && len > 0 ==> cut_at_window(
                old(self).runs(),
                final(self).runs(),
                ps as int,
                ps + len,
            ),
            r is Ok && len == 0 ==> *final(self) == *old(self),
            r matches Err(e) ==> e.kind == ErrorKind::InvalidData && *final(self) == *old(self),
    {
        if len == 0 {
            return Ok(());
        }
        if !self.is_range_pinned(ps, len) {
            return Err(
                Error::new(
                    ErrorKind::InvalidData,
                    "unpin_range: range not fully pinned (unbalanced pin/unpin)",
                ),
            );
        }
        let end: u64 = ps + len;
        let ghost runs = self.runs();
        let mut out: Vec<(u64, CoverageEntry)> = Vec::new();
        let mut i: usize = 0;
        while i < self.tree.len()
            invariant
                *self == *old(self),
                runs == self.runs(),
                runs_ok(runs),
                end == ps + len,
                len > 0,
                i <= runs.len(),
                unpin_progress(runs, out@, i as int, ps as int, end as int),
            decreases runs.len() - i,
        {
            let (start, entry) = *self.tree.entry(i);
            let ghost prev_end = ends_before(runs, i as int);
            let ghost before = runs.take(i as int);
            let ghost after = runs.take(i + 1);
            assert(run_ok(runs[i as int]));
            proof {
                lemma_take_step(runs, i as int);
                lemma_unpinned_behind(out@, prev_end);
            }
            let e_end: u64 = start + entry.length;
            if e_end <= ps || start >= end {
                push_run(&mut out, start, entry.length, entry.count);
            } else {
                let m_lo: u64 = if start > ps {
                    start
                } else {
                    ps
                };
                let m_hi: u64 = if e_end < end {
                    e_end
                } else {
                    end
                };
                if start < ps {
                    push_run(&mut out, start, ps - start, entry.count);
                }
                if entry.count > 1 {
                    push_run(&mut out, m_lo, m_hi - m_lo, entry.count - 1);
                }
                if e_end > end {
                    push_run(&mut out, end, e_end - end, entry.count);
                }
            }
            proof {
                assert(forall|b: int|
                    (#[trigger] pins(out@, b)) == pins(after, b) - (if ps <= b < end && pins(
                        after,
                        b,
                    ) > 0 {
                        1int
                    } else {
                        0
                    }));
                assert(cut_at_window(after, out@, ps as int, end as int)) by {
                    assert forall|b: int| #[trigger]
                        starts_run(out@, b) <==> pins(out@, b) > 0 && (starts_run(after, b)
                            || ends_run(after, b) || b == ps || b == end) by {
                        lemma_bounds_below(before, prev_end, b);
                    }
                }
            }
            i = i + 1;
            assert(runs.take(i as int) == after);
        }
        assert(runs.take(i as int) =~= runs);
        proof {
            lemma_sorted_runs(out@);
        }
        self.tree = BTree::from_sorted(self.tree.root_block, REFCOUNT_TREE_NODE_TYPE, out);
        proof {
            assert forall|b: int|
                (#[trigger] old(self).pin_count(b)) == self.pin_count(b) + (if ps <= b < ps + len {
                    1int
                } else {
                    0
                }) by {
                if ps <= b < end {
                    assert(old(self).pin_count(b) > 0);
                }
                assert(pins(self.runs(), b) == self.pin_count(b));
            }
        }
        Ok(())
    }

    /// All runs, in physical order.
    pub fn iter_coverage(&self) -> (r: Vec<CoverageEntry>)
        ensures
            r@ == self.runs().map_values(|e: (u64, CoverageEntry)| e.1),
    {
        let mut out: Vec<CoverageEntry> = Vec::new();
        let mut i: usize = 0;
        while i < self.tree.len()
            invariant
                i <= self.runs().len(),
                out@ == self.runs().take(i as int).map_values(|e: (u64, CoverageEntry)| e.1),
            decreases self.runs().len() - i,
        {
            out.push(self.tree.entry(i).1);
            i = i + 1;
            assert(out@ =~= self.runs().take(i as int).map_values(|e: (u64, CoverageEntry)| e.1));
        }
        assert(self.runs().take(i as int) =~= self.runs());
        out
    }
}

/// No block is pinned less than never.
pub proof fn lemma_pins_nonneg(rc: RefCountManager, b: int)
    ensures
        rc.pin_count(b) >= 0,
{
}

/// A run that is pinned and then unpinned is pinned as often as before.
pub proof fn pin_then_unpin_restores_counts(
    before: RefCountManager,
    pinned: RefCountManager,
    after: RefCountManager,
    ps: int,
    len: int,
)
    requires
        pinned_once_more(before, pinned, ps, len),
        pinned_once_more(after, pinned, ps, len),
    ensures
        forall|b: int| (#[trigger] after.pin_count(b)) == before.pin_count(b),
{
    assert forall|b: int| (#[trigger] after.pin_count(b)) == before.pin_count(b) by {
        assert(pinned.pin_count(b) >= before.pin_count(b));
    }
}

/// A range that has been pinned can be unpinned, whatever was pinned before.
pub proof fn pinned_range_can_be_unpinned(
    before: RefCountManager,
    pinned: RefCountManager,
    ps: int,
    len: int,
)
    requires
        before.wf(),
        pinned_once_more(before, pinned, ps, len),
    ensures
        all_pinned(pinned, ps, len),
{
    assert forall|b: int| ps <= b < ps + len implies (#[trigger] pinned.pin_count(b)) > 0 by {
        assert(before.pin_count(b) >= 0);
    }
}

/// The list of runs is determined by the pin counts and the run starts.
pub proof fn runs_determined_by_counts_and_starts(
    a: Seq<(u64, CoverageEntry)>,
    b: Seq<(u64, CoverageEntry)>,
)
    requires
        runs_ok(a),
        runs_ok(b),
        forall|x: int| (#[trigger] pins(a, x)) == pins(b, x),
        forall|x: int| (#[trigger] starts_run(a, x)) == starts_run(b, x),
    ensures
        a.len() == b.len(),
        forall|i: int|
            0 <= i < a.len() ==> (#[trigger] a[i]).0 == b[i].0 && a[i].1.length == b[i].1.length
                && a[i].1.count == b[i].1.count,
{
    lemma_same_prefix(a, b, a.len() as int);
    if a.len() < b.len() {
        let s = b[a.len() as int].0 as int;
        assert(starts_run(b, s));
        assert(starts_run(a, s));
        let p = choose|p: int| 0 <= p < a.len() && (#[trigger] a[p]).0 == s;
        assert(a[p].0 == b[p].0);
        assert(run_ok(b[p]));
        assert(run_end(b[p]) <= b[a.len() as int].0);
    }
}

/// Two run lists with the same counts and starts agree on their first `n`
/// runs.
proof fn lemma_same_prefix(
    a: Seq<(u64, CoverageEntry)>,
    b: Seq<(u64, CoverageEntry)>,
    n: int,
)
    requires
        runs_ok(a),
        runs_ok(b),
        0 <= n <= a.len(),
        forall|x: int| (#[trigger] pins(a, x)) == pins(b, x),
        forall|x: int| (#[trigger] starts_run(a, x)) == starts_run(b, x),
    ensures
        n <= b.len(),
        forall|i: int|
            0 <= i < n ==> (#[trigger] a[i]).0 == b[i].0 && a[i].1.length == b[i].1.length
                && a[i].1.count == b[i].1.count,
    decreases n,
{
    if n > 0 {
        lemma_same_prefix(a, b, n - 1);
        let i = n - 1;
        let s = a[i].0 as int;
        assert(starts_run(a, s));
        assert(starts_run(b, s));
        let p = choose|p: int| 0 <= p < b.len() && (#[trigger] b[p]).0 == s;
        assert(run_ok(a[i]));
        assert(run_ok(b[p]));
        assert(p >= i) by {
            if p < i {
                assert(a[p].0 == b[p].0);
                assert(run_ok(a[p]));
                assert(run_end(a[p]) <= a[i].0);
            }
        }
        assert(p == i) by {
            if p > i {
                let t = b[i].0 as int;
                assert(starts_run(b, t));
                assert(starts_run(a, t));
                let q = choose|q: int| 0 <= q < a.len() && (#[trigger] a[q]).0 == t;
                assert(run_ok(b[i]));
                assert(run_end(b[i]) <= b[p].0);
                if q < i {
                    assert(a[q].0 == b[q].0);
                    assert(run_ok(b[q]));
                    assert(run_end(b[q]) <= b[i].0);
                } else if q > i {
                    assert(run_end(a[i]) <= a[q].0);
                }
            }
        }
        lemma_pins_of_run(a, i, s);
        lemma_pins_of_run(b, i, s);
        assert(pins(a, s) == pins(b, s));
        lemma_run_ends_agree(a, b, i);
        lemma_run_ends_agree(b, a, i);
    }
}

/// A run of `a` is no longer than the run of `b` with the same start.
proof fn lemma_run_ends_agree(a: Seq<(u64, CoverageEntry)>, b: Seq<(u64, CoverageEntry)>, i: int)
    requires
        runs_ok(a),
        runs_ok(b),
        0 <= i < a.len(),
        i < b.len(),
        a[i].0 == b[i].0,
        forall|x: int| (#[trigger] pins(a, x)) == pins(b, x),
        forall|x: int| (#[trigger] starts_run(a, x)) == starts_run(b, x),
    ensures
        run_end(a[i]) <= run_end(b[i]),
{
    let x = run_end(b[i]);
    assert(run_ok(a[i]));
    assert(run_ok(b[i]));
    if x < run_end(a[i]) {
        assert(covers(a[i], x));
        lemma_pins_of_run(a, i, x);
        assert(pins(b, x) > 0);
        let q = choose|q: int| 0 <= q < b.len() && covers(#[trigger] b[q], x);
        assert(covers(b[q], x));
        if q < i {
            assert(run_end(b[q]) <= b[i].0);
        } else {
            assert(q != i);
            assert(run_end(b[i]) <= b[q].0);
        }
        assert(b[q].0 == x);
        assert(starts_run(b, x));
        assert(starts_run(a, x));
        let p = choose|p: int| 0 <= p < a.len() && (#[trigger] a[p]).0 == x;
        assert(run_ok(a[p]));
        if p < i {
            assert(run_end(a[p]) <= a[i].0);
        } else if p > i {
            assert(run_end(a[i]) <= a[p].0);
        }
    }
}

/// Taking one run more appends it.
proof fn lemma_take_step(runs: Seq<(u64, CoverageEntry)>, i: int)
    requires
        runs_ok(runs),
        0 <= i < runs.len(),
    ensures
        runs.take(i + 1) == runs.take(i).push(runs[i]),
        runs_ok(runs.take(i)),
        ends_before(runs, i) <= runs[i].0,
        forall|j: int| 0 <= j < i ==> run_end(#[trigger] runs.take(i)[j]) <= ends_before(runs, i),
        forall|b: int|
            (#[trigger] pins(runs.take(i + 1), b)) == (if covers(runs[i], b) {
                runs[i].1.count as int
            } else {
                pins(runs.take(i), b)
            }),
        forall|b: int| covers(runs[i], b) ==> (#[trigger] pins(runs.take(i), b)) == 0,
        forall|b: int|
            (#[trigger] starts_run(runs.take(i + 1), b)) <==> starts_run(runs.take(i), b) || b
                == runs[i].0,
        forall|b: int|
            (#[trigger] ends_run(runs.take(i + 1), b)) <==> ends_run(runs.take(i), b) || b
                == run_end(runs[i]),
        forall|b: int| b >= ends_before(runs, i) ==> (#[trigger] pins(runs.take(i), b)) == 0,
{
    let before = runs.take(i);
    if i > 0 {
        assert(run_end(runs[i - 1]) <= runs[i].0);
    }
    assert forall|j: int| 0 <= j < before.len() implies run_end(#[trigger] before[j])
        <= ends_before(runs, i) by {
        if j < i - 1 {
            assert(run_end(runs[j]) <= runs[i - 1].0);
            assert(run_ok(runs[i - 1]));
        }
    }
    assert(run_ok(runs[i]));
    assert(runs.take(i + 1) =~= before.push(runs[i]));
    lemma_push(before, runs[i]);
    lemma_unpinned_behind(before, ends_before(runs, i));
}

/// After the first `i` runs, `out` holds them with one pin of the window
/// taken away.
closed spec fn unpin_progress(
    runs: Seq<(u64, CoverageEntry)>,
    out: Seq<(u64, CoverageEntry)>,
    i: int,
    ps: int,
    end: int,
) -> bool {
    let prev_end = ends_before(runs, i);
    let done = runs.take(i);
    &&& runs_ok(out)
    &&& forall|j: int| 0 <= j < out.len() ==> run_end(#[trigger] out[j]) <= prev_end
    &&& forall|b: int|
        (#[trigger] pins(out, b)) == pins(done, b) - (if ps <= b < end && pins(done, b) > 0 {
            1int
        } else {
            0
        })
    &&& cut_at_window(done, out, ps, end)
}

/// Where the runs before position `i` end.
pub closed spec fn ends_before(runs: Seq<(u64, CoverageEntry)>, i: int) -> int {
    if i == 0 {
        0
    } else {
        run_end(runs[i - 1])
    }
}

/// After the first `i` runs, `out` holds them with the window's pin added as
/// far as `lo`.
closed spec fn pin_progress(
    runs: Seq<(u64, CoverageEntry)>,
    out: Seq<(u64, CoverageEntry)>,
    i: int,
    ps: int,
    end: int,
    lo: int,
) -> bool {
    let prev_end = ends_before(runs, i);
    let done = runs.take(i);
    &&& runs_ok(out)
    &&& ps <= lo <= end
    &&& forall|j: int| 0 <= j < out.len() ==> run_end(#[trigger] out[j]) <= prev_end
    &&& (lo == ps && prev_end <= ps) || (ps < lo < end && lo == prev_end) || (lo == end && prev_end
        >= end)
    &&& forall|b: int|
        (#[trigger] pins(out, b)) == pins(done, b) + (if ps <= b < lo {
            1int
        } else {
            0
        })
    &&& cut_at_window(done, out, ps, end)
}

/// The bounds of runs that end by `bound` lie below it.
proof fn lemma_bounds_below(s: Seq<(u64, CoverageEntry)>, bound: int, b: int)
    requires
        runs_ok(s),
        forall|i: int| 0 <= i < s.len() ==> run_end(#[trigger] s[i]) <= bound,
    ensures
        starts_run(s, b) ==> b < bound && pins(s, b) > 0,
        ends_run(s, b) ==> b <= bound,
{
    if starts_run(s, b) {
        let p = choose|p: int| 0 <= p < s.len() && (#[trigger] s[p]).0 == b;
        assert(run_ok(s[p]));
        assert(run_end(s[p]) <= bound);
        lemma_pins_of_run(s, p, b);
    }
}

/// Runs in order have sorted keys.
proof fn lemma_sorted_runs(s: Seq<(u64, CoverageEntry)>)
    requires
        runs_ok(s),
    ensures
        ordmap::keys_sorted(s),
{
    assert forall|i: int, j: int| 0 <= i < j < s.len() implies (#[trigger] s[i]).0 < (
    #[trigger] s[j]).0 by {
        assert(run_ok(s[i]));
        assert(run_end(s[i]) <= s[j].0);
    }
}

/// A block behind the first `i` runs and before the others is unpinned.
proof fn lemma_gap(s: Seq<(u64, CoverageEntry)>, i: int, b: int)
    requires
        runs_ok(s),
        0 <= i <= s.len(),
        forall|j: int| 0 <= j < i ==> run_end(#[trigger] s[j]) <= b,
        i < s.len() ==> b < s[i].0,
    ensures
        pins(s, b) == 0,
{
    if covered(s, b) {
        let p = choose|p: int| 0 <= p < s.len() && covers(#[trigger] s[p], b);
        if p < i {
            assert(run_end(s[p]) <= b);
        } else if p > i {
            assert(run_ok(s[i]));
            assert(run_end(s[i]) <= s[p].0);
        }
    }
}

} // verus!
