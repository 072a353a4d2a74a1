//! Clones that share the blocks of their source.
//!
//! A clone maps the source's blocks into an empty file and pins them. A write
//! to a pinned block goes to a fresh one, so both files stay writable.

use crate::common::version;
use crate::error::{Error, ErrorKind};
use crate::fs::extents;
use crate::fs::filesystem;
use crate::fs::filesystem::{SharedCore, REFCOUNT_TREE_NODE_TYPE};
use crate::file::runs;
use crate::fs::placement;
use crate::fs::volume;
use crate::fs::volume::{Volume, VolumeView, CLONE_TREE_NODE_TYPE};
use crate::integrity::refcount;
use crate::integrity::refcount::RefCountManager;
use crate::ondisk::serialization::{CloneRecord, Extent, Inode, Superblock};
use crate::posix;
use vstd::prelude::*;

verus! {

/// Whether a file can be cloned, and why not.
#[derive(Debug, Clone, Copy, PartialEq, Eq)]
pub struct ReflinkFeasibility {
    /// It can.
    pub supported: bool,
    /// Why not, empty if it can.
    pub reason: &'static str,
    /// Size of the file.
    pub size_bytes: u64,
}

/// The file can be cloned.
pub open spec fn cloneable(src: Inode) -> bool {
    posix::type_of(src.mode) == posix::S_IFREG && src.compression_algo == 0
}

/// Whether a file can be cloned: a regular file that is not compressed can.
#[must_use]
pub fn feasibility(src: &Inode) -> (r: ReflinkFeasibility)
    ensures
        r.supported == cloneable(*src),
        r.size_bytes == src.size,
        r.reason@ == (if posix::type_of(src.mode) != posix::S_IFREG {
            "not a regular file"@
        } else if src.compression_algo != 0 {
            "compressed inode (cluster path)"@
        } else {
            ""@
        }),
{
    if posix::file_type_of(src.mode) != posix::S_IFREG {
        ReflinkFeasibility {
            supported: false,
            reason: "not a regular file",
            size_bytes: src.size,
        }
    } else if src.compression_algo != 0 {
        ReflinkFeasibility {
            supported: false,
            reason: "compressed inode (cluster path)",
            size_bytes: src.size,
        }
    } else {
        ReflinkFeasibility { supported: true, reason: "", size_bytes: src.size }
    }
}

/// An extent that has blocks to share.
pub open spec fn shareable(e: Extent) -> bool {
    e.physical_start != 0 && e.length > 0
}

/// The extents of a list that have blocks to share.
pub open spec fn shareable_of(s: Seq<Extent>) -> Seq<Extent> {
    s.filter(|e: Extent| shareable(e))
}

/// The extents in the inode itself that a clone shares.
pub open spec fn inline_shared(src: Inode) -> Seq<Extent> {
    shareable_of(src.extents@.take(src.extent_count as int))
}

/// All extents that a clone shares.
pub open spec fn shared_runs(v: VolumeView, src: Inode) -> Seq<Extent> {
    inline_shared(src) + shareable_of(v.spilled(src.spill_extent_root))
}

/// The blocks of extents.
pub open spec fn total_blocks(s: Seq<Extent>) -> int
    decreases s.len(),
{
    if s.len() == 0 {
        0
    } else {
        total_blocks(s.drop_last()) + s.last().length
    }
}

/// Why a clone is refused, if it is: one of the files is not there, is not a
/// regular file or is compressed, or the destination holds something.
pub open spec fn clone_refused(v: VolumeView, src_ino: u64, dst_ino: u64) -> Option<ErrorKind> {
    if !v.inodes.contains_key(src_ino) || !v.inodes.contains_key(dst_ino) {
        Some(ErrorKind::NotFound)
    } else {
        let src = v.inodes[src_ino];
        let dst = v.inodes[dst_ino];
        if posix::type_of(src.mode) != posix::S_IFREG || posix::type_of(dst.mode)
            != posix::S_IFREG {
            Some(ErrorKind::InvalidInput)
        } else if src.compression_algo != 0 || dst.compression_algo != 0 {
            Some(ErrorKind::Unsupported)
        } else if dst.size != 0 || dst.extent_count != 0 || dst.spill_extent_root != 0 {
            Some(ErrorKind::InvalidInput)
        } else {
            None
        }
    }
}

/// The volume with a coverage tree, made from a fresh block on first use.
#[verifier::opaque]
pub open spec fn with_pin_tree(v: VolumeView) -> VolumeView {
    if v.sb.refcount_tree_root == 0 {
        let root = v.fresh.last();
        VolumeView {
            fresh: v.fresh.drop_last(),
            root_cells: v.root_cells.insert(REFCOUNT_TREE_NODE_TYPE, root),
            sb: Superblock { refcount_tree_root: root, ..v.sb },
            ..v
        }
    } else {
        v
    }
}

/// The volume with a clone registry, made from a fresh block on first use.
#[verifier::opaque]
pub open spec fn with_clone_tree(v: VolumeView) -> VolumeView {
    if v.sb.clone_tree_root == 0 {
        let root = v.fresh.last();
        VolumeView {
            fresh: v.fresh.drop_last(),
            root_cells: v.root_cells.insert(CLONE_TREE_NODE_TYPE, root),
            sb: Superblock { clone_tree_root: root, ..v.sb },
            ..v
        }
    } else {
        v
    }
}

/// The volume with the source's spill extents copied to a tree of the clone's
/// own, if the source has any.
#[verifier::opaque]
pub open spec fn with_spill_copied(v: VolumeView, src: Inode) -> VolumeView {
    if src.spill_extent_root != 0 {
        let root = v.fresh.last();
        VolumeView {
            fresh: v.fresh.drop_last(),
            spills: v.spills.insert(root, v.spilled(src.spill_extent_root)),
            ..v
        }
    } else {
        v
    }
}

/// The clone's inode maps what the source's maps, through spill extents at
/// `spill_root`.
pub open spec fn is_clone_inode(made: Inode, dst: Inode, src: Inode, spill_root: u64) -> bool {
    &&& made == (Inode {
        size: src.size,
        ctime: src.ctime,
        mtime: src.mtime,
        extent_count: src.extent_count,
        extents: made.extents,
        spill_extent_root: spill_root,
        ..dst
    })
    &&& forall|i: int|
        0 <= i < 7 ==> #[trigger] made.extents@[i] == (if i < src.extent_count {
            src.extents@[i]
        } else {
            dst.extents@[i]
        })
}

/// The pins that a clone starts from.
pub open spec fn pins_before(core: SharedCore, b: int) -> int {
    core.pins.pin_count(b)
}

/// `pins` has the pins that `core` starts from, and one more for each extent
/// that holds the block.
pub open spec fn pinned_for(core: SharedCore, pins: RefCountManager, runs: Seq<Extent>) -> bool {
    forall|b: int|
        (#[trigger] pins.pin_count(b)) == pins_before(core, b) + extents::cover_count(runs, b)
}

proof fn lemma_total_nonneg(s: Seq<Extent>, n: int)
    requires
        0 <= n <= s.len(),
    ensures
        0 <= total_blocks(s.take(n)) <= total_blocks(s),
    decreases s.len(), n,
{
    if n == s.len() {
        assert(s.take(n) =~= s);
        if n > 0 {
            lemma_total_nonneg(s.drop_last(), n - 1);
            assert(s.drop_last().take(n - 1) =~= s.drop_last());
        }
    } else {
        lemma_total_nonneg(s.drop_last(), n);
        assert(s.drop_last().take(n) =~= s.take(n));
    }
}

/// The extents of a list that have blocks to share.
fn shareable_list(s: &[Extent], n: usize) -> (r: Vec<Extent>)
    requires
        n <= s@.len(),
    ensures
        r@ == shareable_of(s@.take(n as int)),
{
    let ghost p = |e: Extent| shareable(e);
    let mut out: Vec<Extent> = Vec::new();
    let mut i: usize = 0;
    proof {
        reveal(Seq::filter);
        assert(out@ =~= s@.take(0).filter(p));
    }
    while i < n
        invariant
            i <= n <= s@.len(),
            p == (|e: Extent| shareable(e)),
            out@ == s@.take(i as int).filter(p),
        decreases n - i,
    {
        let e = s[i];
        proof {
            s@.take(i as int).lemma_filter_push(e, p);
            assert(s@.take(i + 1) =~= s@.take(i as int).push(e));
        }
        if e.physical_start != 0 && e.length > 0 {
            out.push(e);
        }
        i = i + 1;
    }
    out
}

/// The blocks of extents.
fn count_blocks(s: &[Extent]) -> (r: u64)
    requires
        total_blocks(s@) <= u64::MAX,
    ensures
        r == total_blocks(s@),
{
    let mut n: u64 = 0;
    let mut i: usize = 0;
    assert(s@.take(0) =~= Seq::<Extent>::empty());
    while i < s.len()
        invariant
            i <= s@.len(),
            total_blocks(s@) <= u64::MAX,
            n == total_blocks(s@.take(i as int)),
        decreases s@.len() - i,
    {
        proof {
            assert(s@.take(i + 1).drop_last() =~= s@.take(i as int));
            assert(s@.take(i + 1).last() == s@[i as int]);
            lemma_total_nonneg(s@, i + 1);
        }
        n = n + s[i].length;
        i = i + 1;
    }
    assert(s@.take(i as int) =~= s@);
    n
}

/// What stays of the mounted state but the image and the pins.
pub open spec fn same_pipeline(a: SharedCore, b: SharedCore) -> bool {
    &&& b.page_cache == a.page_cache
    &&& b.active_tx == a.active_tx
    &&& b.current_tx_id == a.current_tx_id
    &&& b.committing == a.committing
    &&& b.commit_seq == a.commit_seq
    &&& b.commit_end == a.commit_end
    &&& b.commit_coord == a.commit_coord
    &&& b.commit_due == a.commit_due
    &&& b.commit_wake == a.commit_wake
    &&& b.live_barrier == a.live_barrier
}

/// What making trees and records leaves alone.
pub open spec fn names_kept(a: VolumeView, b: VolumeView) -> bool {
    &&& b.inodes == a.inodes
    &&& b.data == a.data
    &&& b.area == a.area
    &&& b.damaged == a.damaged
    &&& b.limits == a.limits
    &&& b.sb.next_ino == a.sb.next_ino
}

/// Makes the coverage tree on first use; whether there is one now.
fn ensure_pin_tree(core: &mut SharedCore) -> (ok: bool)
    requires
        old(core).wf(),
    ensures
        final(core).wf(),
        *final(core) == (SharedCore {
            vol: final(core).vol,
            pins: final(core).pins,
            ..*old(core)
        }),
        ok == (old(core).vol@.sb.refcount_tree_root != 0 || old(core).vol@.fresh.len() > 0),
        final(core).vol@ == (if ok {
            with_pin_tree(old(core).vol@)
        } else {
            old(core).vol@
        }),
        names_kept(old(core).vol@, final(core).vol@),
        final(core).vol@.spills == old(core).vol@.spills,
        !ok ==> final(core).pins == old(core).pins,
        ok ==> forall|b: int|
            (#[trigger] final(core).pins.pin_count(b)) == pins_before(*old(core), b),
{
    proof {
        reveal(with_pin_tree);
    }
    if core.vol.sb.refcount_tree_root == 0 {
        match core.vol.allocate_block() {
            Some(root) => {
                core.pins.tree.root_block = root;
                proof {
                    placement::lemma_more_pins(core.vol@.all_runs(), old(core).pins, core.pins);
                }
                core.vol.set_root_cell(REFCOUNT_TREE_NODE_TYPE, root);
                let mut sb = core.vol.sb;
                sb.refcount_tree_root = root;
                core.vol.set_superblock(sb);
            },
            None => {
                return false;
            },
        }
    }
    true
}

/// Makes the clone registry on first use; whether there is one now.
fn ensure_clone_tree(core: &mut SharedCore) -> (ok: bool)
    requires
        old(core).wf(),
    ensures
        final(core).wf(),
        *final(core) == (SharedCore { vol: final(core).vol, ..*old(core) }),
        ok == (old(core).vol@.sb.clone_tree_root != 0 || old(core).vol@.fresh.len() > 0),
        final(core).vol@ == (if ok {
            with_clone_tree(old(core).vol@)
        } else {
            old(core).vol@
        }),
        names_kept(old(core).vol@, final(core).vol@),
        final(core).vol@.spills == old(core).vol@.spills,
{
    proof {
        reveal(with_clone_tree);
    }
    if core.vol.sb.clone_tree_root == 0 {
        match core.vol.allocate_block() {
            Some(root) => {
                core.vol.set_root_cell(CLONE_TREE_NODE_TYPE, root);
                let mut sb = core.vol.sb;
                sb.clone_tree_root = root;
                core.vol.set_superblock(sb);
            },
            None => {
                return false;
            },
        }
    }
    true
}

/// Copies the spill extents of the source, if it has any, to a tree of their
/// own; its root, and the extents of it that are shared.
fn copy_spill(core: &mut SharedCore, src: &Inode) -> (r: Option<(u64, Vec<Extent>)>)
    requires
        old(core).wf(),
    ensures
        final(core).wf(),
        *final(core) == (SharedCore { vol: final(core).vol, ..*old(core) }),
        r is Some <==> src.spill_extent_root == 0 || old(core).vol@.fresh.len() > 0,
        final(core).vol@ == (if r is Some {
            with_spill_copied(old(core).vol@, *src)
        } else {
            old(core).vol@
        }),
        names_kept(old(core).vol@, final(core).vol@),
        r matches Some(p) ==> p.1@ == shareable_of(
            old(core).vol@.spilled(src.spill_extent_root),
        ) && p.0 == (if src.spill_extent_root != 0 {
            old(core).vol@.fresh.last()
        } else {
            0
        }),
        r matches Some(p) ==> (p.0 != 0) == (src.spill_extent_root != 0),
        final(core).vol@.all_runs() == old(core).vol@.all_runs(),
        r matches Some(p) ==> p.0 != 0 ==> final(core).vol@.spills.contains_key(p.0)
            && final(core).vol@.spills[p.0] == old(core).vol@.spilled(src.spill_extent_root),
        r matches Some(p) ==> p.0 != 0 ==> forall|k: u64| #[trigger]
            final(core).vol@.inodes.contains_key(k) ==> final(core).vol@.inodes[k].spill_extent_root
                != p.0,
{
    let ghost v = core.vol@;
    proof {
        reveal(with_spill_copied);
        reveal(placement::layout_ok);
    }
    if src.spill_extent_root == 0 {
        let none: Vec<Extent> = Vec::new();
        proof {
            reveal(Seq::filter);
            assert(none@ =~= shareable_of(Seq::empty()));
        }
        return Some((0, none));
    }
    let copy = core.vol.read_spill(src.spill_extent_root);
    match core.vol.allocate_block() {
        Some(root) => {
            let more = shareable_list(copy.as_slice(), copy.len());
            assert(copy@.take(copy@.len() as int) =~= copy@);
            core.vol.set_spill(root, copy);
            Some((root, more))
        },
        None => None,
    }
}

/// The destination's inode with the source's extents and times.
fn clone_inode(dst: Inode, src: &Inode, spill_root: u64) -> (r: Inode)
    requires
        extents::inode_ok(*src),
    ensures
        is_clone_inode(r, dst, *src, spill_root),
{
    let mut made = dst;
    let n: usize = src.extent_count as usize;
    let mut i: usize = 0;
    while i < n
        invariant
            i <= n <= 7,
            n == src.extent_count,
            made == (Inode { extents: made.extents, ..dst }),
            forall|j: int|
                0 <= j < 7 ==> #[trigger] made.extents@[j] == (if j < i {
                    src.extents@[j]
                } else {
                    dst.extents@[j]
                }),
        decreases n - i,
    {
        made.extents[i] = src.extents[i];
        i = i + 1;
    }
    made.extent_count = src.extent_count;
    made.spill_extent_root = spill_root;
    made.size = src.size;
    made.ctime = src.ctime;
    made.mtime = src.mtime;
    made
}

/// Writes the clone's inode, its contents and its record.
fn record_reflink(core: &mut SharedCore, src_ino: u64, made: Inode, shared: u64)
    requires
        old(core).wf(),
        old(core).node_stamp < u64::MAX,
        old(core).vol@.inodes.contains_key(src_ino),
        old(core).vol@.inodes.contains_key(made.ino),
        made.ino != src_ino,
        placement::runs_of(made, old(core).vol@.spills) == old(core).vol@.runs(src_ino),
        made.spill_extent_root != 0 ==> old(core).vol@.spills.contains_key(made.spill_extent_root),
        forall|k: u64| #[trigger]
            old(core).vol@.inodes.contains_key(k) && made.spill_extent_root != 0
                ==> old(core).vol@.inodes[k].spill_extent_root != made.spill_extent_root,
        forall|l: int|
            (#[trigger] runs::place(old(core).vol@.runs(src_ino), l)) matches Some(p)
                ==> old(core).pins.pin_count(p as int) > 0,
        old(core).vol@.inodes[made.ino].size <= made.size,
        old(core).vol@.stored(src_ino).len() <= made.size,
        extents::inode_ok(made),
    ensures
        final(core).wf(),
        final(core).node_stamp == old(core).node_stamp + 1,
        *final(core) == (SharedCore {
            vol: final(core).vol,
            node_stamp: final(core).node_stamp,
            ..*old(core)
        }),
        final(core).vol@ == (VolumeView {
            clones: old(core).vol@.clones.insert(
                made.ino,
                CloneRecord {
                    source_id: src_ino,
                    generation: final(core).node_stamp,
                    shared_blocks: shared,
                },
            ),
            sb: Superblock {
                fs_features: old(core).vol@.sb.fs_features | version::FS_FEATURE_REFLINK,
                ..old(core).vol@.sb
            },
            ..old(core).vol@.with_inode(made).with_data(
                made.ino,
                old(core).vol@.stored(src_ino),
            ).with_unreadable(made.ino, old(core).vol@.unreadable_of(src_ino))
        }),
{
    core.node_stamp = core.node_stamp + 1;
    let record = CloneRecord {
        source_id: src_ino,
        generation: core.node_stamp,
        shared_blocks: shared,
    };
    core.vol.record_clone(made.ino, record);
    proof {
        filesystem::lemma_tails_written(core.page_cache, core.vol@.inodes, made);
    }
    core.vol.share_blocks(Ghost(core.pins), made, src_ino);
    let ghost given = core.vol@;
    let unreadable = core.vol.unreadable_blocks(src_ino);
    core.vol.set_unreadable(made.ino, unreadable);
    assert(core.vol@.all_runs() == given.all_runs());
    let mut sb = core.vol.sb;
    sb.fs_features = sb.fs_features | version::FS_FEATURE_REFLINK;
    core.vol.set_superblock(sb);
}

/// `b` and `r` are what cloning makes of `a`. A clone that is refused changes
/// nothing; one that finds no block for a tree keeps the trees that it made.
pub open spec fn reflinked(
    a: SharedCore,
    b: SharedCore,
    src_ino: u64,
    dst_ino: u64,
    r: Result<u64, Error>,
) -> bool {
    let v = a.vol@;
    let src = v.inodes[src_ino];
    let dst = v.inodes[dst_ino];
    let runs = shared_runs(v, src);
    let v1 = with_pin_tree(v);
    let v2 = with_clone_tree(v1);
    let v3 = with_spill_copied(v2, src);
    if clone_refused(v, src_ino, dst_ino) is Some {
        &&& r matches Err(e) && e.kind == clone_refused(v, src_ino, dst_ino)->0
        &&& b.vol@ == v
        &&& b.pins == a.pins
        &&& b.node_stamp == a.node_stamp
    } else if src.size == 0 {
        &&& r == Ok::<u64, Error>(0)
        &&& b.vol@ == v.with_inode(
            Inode { ctime: src.ctime, mtime: src.mtime, ..dst },
        )
        &&& b.pins == a.pins
        &&& b.node_stamp == a.node_stamp
    } else if v.sb.refcount_tree_root == 0 && v.fresh.len() == 0 {
        &&& r matches Err(e) && e.kind == ErrorKind::StorageFull
        &&& b.vol@ == v
        &&& b.pins == a.pins
        &&& b.node_stamp == a.node_stamp
    } else if v1.sb.clone_tree_root == 0 && v1.fresh.len() == 0 {
        &&& r matches Err(e) && e.kind == ErrorKind::StorageFull
        &&& b.vol@ == v1
        &&& pinned_for(a, b.pins, Seq::empty())
        &&& b.node_stamp == a.node_stamp
    } else if src.spill_extent_root != 0 && v2.fresh.len() == 0 {
        &&& r matches Err(e) && e.kind == ErrorKind::StorageFull
        &&& b.vol@ == v2
        &&& pinned_for(a, b.pins, inline_shared(src))
        &&& b.node_stamp == a.node_stamp
    } else {
        let made = b.vol@.inodes[dst_ino];
        &&& r == Ok::<u64, Error>(total_blocks(runs) as u64)
        &&& is_clone_inode(
            made,
            dst,
            src,
            if src.spill_extent_root != 0 {
                v2.fresh.last()
            } else {
                0
            },
        )
        &&& pinned_for(a, b.pins, runs)
        &&& b.node_stamp == a.node_stamp + 1
        &&& b.vol@ == (VolumeView {
            clones: v3.clones.insert(
                dst_ino,
                CloneRecord {
                    source_id: src_ino,
                    generation: b.node_stamp,
                    shared_blocks: total_blocks(runs) as u64,
                },
            ),
            sb: Superblock {
                fs_features: v3.sb.fs_features | version::FS_FEATURE_REFLINK,
                ..v3.sb
            },
            ..v3.with_inode(made).with_data(dst_ino, v.stored(src_ino)).with_unreadable(
                dst_ino,
                v.unreadable_of(src_ino),
            )
        })
    }
}

/// The blocks of the source can be pinned once more, and counted.
pub open spec fn clone_fits(core: SharedCore, src_ino: u64, dst_ino: u64) -> bool {
    clone_refused(core.vol@, src_ino, dst_ino) is None ==> {
        let runs = shared_runs(core.vol@, core.vol@.inodes[src_ino]);
        &&& src_ino != dst_ino
        &&& extents::runs_in_space(runs)
        &&& total_blocks(runs) <= u64::MAX
        &&& forall|b: int|
            pins_before(core, b) + #[trigger] extents::cover_count(runs, b) <= u32::MAX
    }
}

/// There is room to clone the source: its extents lie in the address space,
/// their blocks can be counted, and no pin count is so high that one pin for
/// each of them could overrun it.
pub open spec fn room_to_clone(core: SharedCore, src_ino: u64) -> bool {
    let runs = shared_runs(core.vol@, core.vol@.inodes[src_ino]);
    &&& core.vol@.inodes.contains_key(src_ino)
    &&& extents::runs_in_space(runs)
    &&& total_blocks(runs) <= u64::MAX
    &&& runs.len() <= u32::MAX
    &&& forall|i: int|
        0 <= i < core.pins.runs().len() ==> (#[trigger] core.pins.runs()[i]).1.count + runs.len()
            <= u32::MAX
}

proof fn lemma_cover_at_most(runs: Seq<Extent>, b: int)
    ensures
        extents::cover_count(runs, b) <= runs.len(),
    decreases runs.len(),
{
    if runs.len() > 0 {
        lemma_cover_at_most(runs.drop_last(), b);
    }
}

/// Whether there is room to clone a file. If there is, its blocks can be pinned
/// once more.
pub fn can_clone(core: &SharedCore, src_ino: u64) -> (r: bool)
    requires
        core.wf(),
    ensures
        r == room_to_clone(*core, src_ino),
        r ==> forall|dst_ino: u64|
            dst_ino != src_ino ==> #[trigger] clone_fits(*core, src_ino, dst_ino),
{
    let src = match core.vol.read_inode(src_ino) {
        Some(inode) => inode,
        None => {
            return false;
        },
    };
    proof {
        volume::lemma_inode_fits(core.vol, src_ino);
    }
    let mut runs = shareable_list(src.extents.as_slice(), src.extent_count as usize);
    let ghost inline = runs@;
    let spill = if src.spill_extent_root != 0 {
        core.vol.read_spill(src.spill_extent_root)
    } else {
        Vec::new()
    };
    let mut more = shareable_list(spill.as_slice(), spill.len());
    assert(spill@.take(spill@.len() as int) =~= spill@);
    runs.append(&mut more);
    assert(runs@ == shared_runs(core.vol@, src));
    if runs.len() > u32::MAX as usize {
        return false;
    }
    let mut total: u64 = 0;
    let mut i: usize = 0;
    assert(runs@.take(0) =~= Seq::<Extent>::empty());
    while i < runs.len()
        invariant
            i <= runs@.len(),
            runs@ == shared_runs(core.vol@, core.vol@.inodes[src_ino]),
            total == total_blocks(runs@.take(i as int)),
            forall|j: int|
                0 <= j < i ==> (#[trigger] runs@[j]).physical_start + runs@[j].length <= u64::MAX,
        decreases runs@.len() - i,
    {
        proof {
            assert(runs@.take(i + 1).drop_last() =~= runs@.take(i as int));
            assert(runs@.take(i + 1).last() == runs@[i as int]);
            lemma_total_nonneg(runs@, i + 1);
        }
        let e = runs[i];
        if e.physical_start > u64::MAX - e.length || total > u64::MAX - e.length {
            return false;
        }
        total = total + e.length;
        i = i + 1;
    }
    assert(runs@.take(i as int) =~= runs@);
    let n: u64 = runs.len() as u64;
    let mut k: usize = 0;
    while k < core.pins.tree.len()
        invariant
            k <= core.pins.runs().len(),
            n == runs@.len(),
            n <= u32::MAX,
            runs@ == shared_runs(core.vol@, core.vol@.inodes[src_ino]),
            forall|j: int|
                0 <= j < k ==> (#[trigger] core.pins.runs()[j]).1.count + n <= u32::MAX,
        decreases core.pins.runs().len() - k,
    {
        if core.pins.tree.entry(k).1.count as u64 + n > u32::MAX as u64 {
            return false;
        }
        k = k + 1;
    }
    proof {
        assert forall|dst_ino: u64| dst_ino != src_ino implies #[trigger] clone_fits(
            *core,
            src_ino,
            dst_ino,
        ) by {
            assert forall|b: int|
                pins_before(*core, b) + #[trigger] extents::cover_count(runs@, b) <= u32::MAX by {
                lemma_cover_at_most(runs@, b);
            }
        }
    }
    true
}

/// Clones a file into an empty one; how many blocks the two now share.
pub fn reflink_file_in_ctx(core: &mut SharedCore, src_ino: u64, dst_ino: u64) -> (r: Result<
    u64,
    Error,
>)
    requires
        old(core).wf(),
        old(core).node_stamp < u64::MAX,
        clone_fits(*old(core), src_ino, dst_ino),
    ensures
        final(core).wf(),
        same_pipeline(*old(core), *final(core)),
        reflinked(*old(core), *final(core), src_ino, dst_ino, r),
{
    let ghost a = *core;
    let ghost v = core.vol@;
    let (src, mut dst) = match (core.vol.read_inode(src_ino), core.vol.read_inode(dst_ino)) {
        (Some(s), Some(d)) => (s, d),
        _ => {
            return Err(Error::new(ErrorKind::NotFound, "inode not found"));
        },
    };
    if posix::file_type_of(src.mode) != posix::S_IFREG {
        return Err(Error::new(ErrorKind::InvalidInput, "reflink source must be a regular file"));
    }
    if posix::file_type_of(dst.mode) != posix::S_IFREG {
        return Err(
            Error::new(ErrorKind::InvalidInput, "reflink destination must be a regular file"),
        );
    }
    if src.compression_algo != 0 || dst.compression_algo != 0 {
        return Err(
            Error::new(ErrorKind::Unsupported, "reflink of compressed inodes is not supported"),
        );
    }
    if dst.size != 0 || dst.extent_count != 0 || dst.spill_extent_root != 0 {
        return Err(Error::new(ErrorKind::InvalidInput, "reflink destination must be empty"));
    }
    if src.size == 0 {
        dst.ctime = src.ctime;
        dst.mtime = src.mtime;
        let _ = core.put_inode(dst);
        return Ok(0);
    }
    let ghost runs = shared_runs(v, src);
    if !ensure_pin_tree(core) {
        return Err(Error::new(ErrorKind::StorageFull, "no block for the coverage tree"));
    }
    let ghost pins0 = core.pins;
    if !ensure_clone_tree(core) {
        proof {
            lemma_nothing_pinned(a, core.pins);
        }
        return Err(Error::new(ErrorKind::StorageFull, "no block for the clone registry"));
    }
    let inline = shareable_list(src.extents.as_slice(), src.extent_count as usize);
    let ghost more_runs = shareable_of(v.spilled(src.spill_extent_root));
    proof {
        lemma_parts_fit(a, runs, inline@, more_runs, pins0);
    }
    extents::pin_all(&mut core.pins, inline.as_slice());
    let ghost pins1 = core.pins;
    proof {
        lemma_still_pinned(a, core.vol@, pins0, pins1, inline@);
    }
    let inline_blocks = count_blocks(inline.as_slice());
    proof {
        lemma_rest_fits(a, runs, inline@, more_runs, pins0, pins1);
    }
    let (spill_root, more) = match copy_spill(core, &src) {
        Some(p) => p,
        None => {
            return Err(Error::new(ErrorKind::StorageFull, "no block for the extent tree"));
        },
    };
    assert(more@ == more_runs);
    let ghost copied = core.vol@;
    extents::pin_all(&mut core.pins, more.as_slice());
    let shared = inline_blocks + count_blocks(more.as_slice());
    proof {
        lemma_all_pinned(a, runs, inline@, more_runs, pins0, pins1, core.pins);
        lemma_total_add(inline@, more_runs);
    }
    let made = clone_inode(dst, &src, spill_root);
    proof {
        lemma_more_pinned(copied, pins1, core.pins, more_runs);
        lemma_shared_are_runs(a.vol, src_ino);
        lemma_clone_runs(v, copied, src, made, dst);
        assert(copied.all_runs()[src_ino] == v.all_runs()[src_ino]);
        lemma_runs_are_pinned(a, core.pins, v.runs(src_ino));
    }
    record_reflink(core, src_ino, made, shared);
    Ok(shared)
}

/// Blocks that files share stay pinned when more is pinned.
proof fn lemma_still_pinned(
    core: SharedCore,
    v: VolumeView,
    pins0: RefCountManager,
    pins1: RefCountManager,
    more: Seq<Extent>,
)
    requires
        core.wf(),
        v.inodes == core.vol@.inodes,
        v.spills == core.vol@.spills,
        forall|b: int| (#[trigger] pins0.pin_count(b)) == pins_before(core, b),
        extents::pinned_runs_more(pins0, pins1, more),
    ensures
        placement::shares_pinned(v.all_runs(), pins1),
{
    assert forall|b: int| core.pins.pin_count(b) <= #[trigger] pins1.pin_count(b) by {
        extents::lemma_cover_nonneg(more, b);
        assert(pins0.pin_count(b) == pins_before(core, b));
    }
    placement::lemma_more_pins(v.all_runs(), core.pins, pins1);
}

proof fn lemma_more_pinned(
    v: VolumeView,
    pins1: RefCountManager,
    pins2: RefCountManager,
    more: Seq<Extent>,
)
    requires
        placement::shares_pinned(v.all_runs(), pins1),
        extents::pinned_runs_more(pins1, pins2, more),
    ensures
        placement::shares_pinned(v.all_runs(), pins2),
{
    assert forall|b: int| pins1.pin_count(b) <= #[trigger] pins2.pin_count(b) by {
        extents::lemma_cover_nonneg(more, b);
    }
    placement::lemma_more_pins(v.all_runs(), pins1, pins2);
}

proof fn lemma_filter_same(
    s: Seq<Extent>,
    p: spec_fn(Extent) -> bool,
    q: spec_fn(Extent) -> bool,
)
    requires
        forall|i: int| 0 <= i < s.len() ==> p(#[trigger] s[i]) == q(s[i]),
    ensures
        s.filter(p) == s.filter(q),
    decreases s.len(),
{
    reveal(Seq::filter);
    if s.len() > 0 {
        assert forall|i: int| 0 <= i < s.drop_last().len() implies p(#[trigger] s.drop_last()[i])
            == q(s.drop_last()[i]) by {
            assert(s.drop_last()[i] == s[i]);
        }
        lemma_filter_same(s.drop_last(), p, q);
        assert(p(s.last()) == q(s.last())) by {
            assert(s.last() == s[s.len() - 1]);
        }
    }
}

/// A run of a file has blocks to share.
proof fn lemma_run_shareable(r: Seq<Extent>, e: Extent)
    requires
        runs::runs_ok(r),
        forall|l: int| (#[trigger] runs::place(r, l)) matches Some(p) ==> p != 0,
        r.contains(e),
        e.length > 0,
    ensures
        shareable(e),
{
    let k = choose|k: int| 0 <= k < r.len() && r[k] == e;
    let l = e.logical_start as int;
    assert(extents::extent_maps(r[k], l, e.physical_start as int));
    assert(extents::maps_to(r, l, e.physical_start as int));
    runs::lemma_one_place(r, l, e.physical_start as int);
    assert(runs::place(r, l) == Some(e.physical_start));
}

/// All runs of a file have blocks to share.
proof fn lemma_shared_are_runs(vol: Volume, src_ino: u64)
    requires
        vol.wf(),
        vol@.inodes.contains_key(src_ino),
    ensures
        shared_runs(vol@, vol@.inodes[src_ino]) == vol@.runs(src_ino),
        runs::runs_ok(vol@.runs(src_ino)),
{
    reveal(placement::blocks_ok);
    let v = vol@;
    let src = v.inodes[src_ino];
    let r = v.runs(src_ino);
    assert(v.all_runs().contains_key(src_ino));
    assert(v.all_runs()[src_ino] == r);
    let p = |e: Extent| extents::nonempty(e);
    let q = |e: Extent| shareable(e);
    let inline = src.extents@.take(src.extent_count as int);
    let spill = v.spilled(src.spill_extent_root);
    assert forall|i: int| 0 <= i < inline.len() implies p(#[trigger] inline[i]) == q(inline[i]) by {
        if p(inline[i]) {
            inline.lemma_filter_contains(p, i);
            let k = choose|k: int|
                0 <= k < inline.filter(p).len() && inline.filter(p)[k] == inline[i];
            assert(r[k] == inline[i]);
            lemma_run_shareable(r, inline[i]);
        }
    }
    assert forall|i: int| 0 <= i < spill.len() implies p(#[trigger] spill[i]) == q(spill[i]) by {
        if p(spill[i]) {
            spill.lemma_filter_contains(p, i);
            let k = choose|k: int|
                0 <= k < spill.filter(p).len() && spill.filter(p)[k] == spill[i];
            assert(r[inline.filter(p).len() + k] == spill[i]);
            lemma_run_shareable(r, spill[i]);
        }
    }
    lemma_filter_same(inline, p, q);
    lemma_filter_same(spill, p, q);
}

/// The clone has the source's runs.
proof fn lemma_clone_runs(
    v: VolumeView,
    copied: VolumeView,
    src: Inode,
    made: Inode,
    dst: Inode,
)
    requires
        extents::inode_ok(src),
        is_clone_inode(made, dst, src, made.spill_extent_root),
        (made.spill_extent_root != 0) == (src.spill_extent_root != 0),
        made.spill_extent_root != 0 ==> copied.spills.contains_key(made.spill_extent_root)
            && copied.spills[made.spill_extent_root] == v.spilled(src.spill_extent_root),
    ensures
        placement::runs_of(made, copied.spills) == placement::runs_of(src, v.spills),
{
    let n = src.extent_count as int;
    assert(made.extents@.take(n) =~= src.extents@.take(n));
}

/// Every block of the runs is pinned.
proof fn lemma_runs_are_pinned(core: SharedCore, pins: RefCountManager, r: Seq<Extent>)
    requires
        core.pins.wf(),
        runs::runs_ok(r),
        pinned_for(core, pins, r),
    ensures
        forall|l: int|
            (#[trigger] runs::place(r, l)) matches Some(p) ==> pins.pin_count(p as int) > 0,
{
    assert forall|l: int| (#[trigger] runs::place(r, l)) is Some implies pins.pin_count(
        runs::place(r, l)->0 as int,
    ) > 0 by {
        let p = choose|p: int| #[trigger] extents::maps_to(r, l, p);
        runs::lemma_one_place(r, l, p);
        let i = choose|i: int| 0 <= i < r.len() && extents::extent_maps(#[trigger] r[i], l, p);
        assert(extents::holds(r[i], p));
        lemma_held_is_covered(r, i, p);
        refcount::lemma_pins_nonneg(core.pins, p);
        assert(pins.pin_count(p) == pins_before(core, p) + extents::cover_count(r, p));
    }
}

proof fn lemma_nothing_pinned(core: SharedCore, pins: RefCountManager)
    requires
        forall|b: int| (#[trigger] pins.pin_count(b)) == pins_before(core, b),
    ensures
        pinned_for(core, pins, Seq::empty()),
{
    assert forall|b: int|
        (#[trigger] pins.pin_count(b)) == pins_before(core, b) + extents::cover_count(
            Seq::empty(),
            b,
        ) by {}
}

proof fn lemma_cover_add(a: Seq<Extent>, b: Seq<Extent>, x: int)
    ensures
        extents::cover_count(a + b, x) == extents::cover_count(a, x) + extents::cover_count(b, x),
        extents::cover_count(a, x) >= 0,
        extents::cover_count(b, x) >= 0,
    decreases b.len(),
{
    extents::lemma_cover_nonneg(a, x);
    extents::lemma_cover_nonneg(b, x);
    if b.len() == 0 {
        assert(a + b =~= a);
    } else {
        assert((a + b).drop_last() =~= a + b.drop_last());
        lemma_cover_add(a, b.drop_last(), x);
    }
}

proof fn lemma_total_add(a: Seq<Extent>, b: Seq<Extent>)
    ensures
        total_blocks(a + b) == total_blocks(a) + total_blocks(b),
        total_blocks(a) >= 0,
        total_blocks(b) >= 0,
    decreases b.len(),
{
    lemma_total_nonneg(a, a.len() as int);
    lemma_total_nonneg(b, b.len() as int);
    assert(a.take(a.len() as int) =~= a);
    assert(b.take(b.len() as int) =~= b);
    if b.len() == 0 {
        assert(a + b =~= a);
    } else {
        assert((a + b).drop_last() =~= a + b.drop_last());
        lemma_total_add(a, b.drop_last());
    }
}

proof fn lemma_parts_fit(
    core: SharedCore,
    runs: Seq<Extent>,
    inline: Seq<Extent>,
    more: Seq<Extent>,
    pins0: RefCountManager,
)
    requires
        runs == inline + more,
        extents::runs_in_space(runs),
        total_blocks(runs) <= u64::MAX,
        forall|b: int|
            pins_before(core, b) + #[trigger] extents::cover_count(runs, b) <= u32::MAX,
        forall|b: int| (#[trigger] pins0.pin_count(b)) == pins_before(core, b),
    ensures
        extents::runs_in_space(inline),
        extents::runs_in_space(more),
        extents::can_pin_runs(pins0, inline),
        total_blocks(inline) <= u64::MAX,
        total_blocks(more) <= u64::MAX,
        total_blocks(inline) + total_blocks(more) <= u64::MAX,
{
    lemma_total_add(inline, more);
    assert forall|i: int| 0 <= i < inline.len() implies (#[trigger] inline[i]).physical_start
        + inline[i].length <= u64::MAX by {
        assert(runs[i] == inline[i]);
    }
    assert forall|i: int| 0 <= i < more.len() implies (#[trigger] more[i]).physical_start
        + more[i].length <= u64::MAX by {
        assert(runs[inline.len() + i] == more[i]);
    }
    assert forall|b: int| (#[trigger] pins0.pin_count(b)) + extents::cover_count(inline, b)
        <= u32::MAX by {
        lemma_cover_add(inline, more, b);
        assert(pins_before(core, b) + extents::cover_count(runs, b) <= u32::MAX);
    }
}

proof fn lemma_rest_fits(
    core: SharedCore,
    runs: Seq<Extent>,
    inline: Seq<Extent>,
    more: Seq<Extent>,
    pins0: RefCountManager,
    pins1: RefCountManager,
)
    requires
        runs == inline + more,
        forall|b: int|
            pins_before(core, b) + #[trigger] extents::cover_count(runs, b) <= u32::MAX,
        forall|b: int| (#[trigger] pins0.pin_count(b)) == pins_before(core, b),
        extents::pinned_runs_more(pins0, pins1, inline),
    ensures
        extents::can_pin_runs(pins1, more),
        pinned_for(core, pins1, inline),
{
    assert forall|b: int| (#[trigger] pins1.pin_count(b)) + extents::cover_count(more, b)
        <= u32::MAX by {
        lemma_cover_add(inline, more, b);
        assert(pins_before(core, b) + extents::cover_count(runs, b) <= u32::MAX);
        assert(pins0.pin_count(b) == pins_before(core, b));
    }
}

proof fn lemma_all_pinned(
    core: SharedCore,
    runs: Seq<Extent>,
    inline: Seq<Extent>,
    more: Seq<Extent>,
    pins0: RefCountManager,
    pins1: RefCountManager,
    pins2: RefCountManager,
)
    requires
        runs == inline + more,
        forall|b: int| (#[trigger] pins0.pin_count(b)) == pins_before(core, b),
        extents::pinned_runs_more(pins0, pins1, inline),
        extents::pinned_runs_more(pins1, pins2, more),
    ensures
        pinned_for(core, pins2, runs),
{
    assert forall|b: int|
        (#[trigger] pins2.pin_count(b)) == pins_before(core, b) + extents::cover_count(runs, b) by {
        lemma_cover_add(inline, more, b);
        assert(pins0.pin_count(b) == pins_before(core, b));
        assert(pins1.pin_count(b) == pins0.pin_count(b) + extents::cover_count(inline, b));
    }
}

/// After a clone the destination holds what the source holds, if nothing is
/// buffered of either, and every other file what it held.
pub proof fn clone_shares_contents(
    a: SharedCore,
    b: SharedCore,
    src_ino: u64,
    dst_ino: u64,
    r: Result<u64, Error>,
)
    requires
        a.wf(),
        b.wf(),
        src_ino != dst_ino,
        b.page_cache == a.page_cache,
        !a.page_cache.inodes@.contains_key(src_ino),
        !a.page_cache.inodes@.contains_key(dst_ino),
        reflinked(a, b, src_ino, dst_ino, r),
        r is Ok,
    ensures
        b.content(dst_ino) == a.content(src_ino),
        forall|x: u64| x != dst_ino ==> #[trigger] b.content(x) == a.content(x),
{
    volume::lemma_inode_fits(a.vol, src_ino);
    volume::lemma_inode_fits(a.vol, dst_ino);
    reveal(with_pin_tree);
    reveal(with_clone_tree);
    reveal(with_spill_copied);
    assert(b.eff_size(dst_ino) == a.eff_size(src_ino));
    assert(b.eff_size(src_ino) == a.eff_size(src_ino));
    assert forall|i: int| 0 <= i < a.eff_size(src_ino) implies b.byte_at(dst_ino, i) == a.byte_at(
        src_ino,
        i,
    ) by {
        assert(b.vol@.stored(src_ino) == a.vol@.stored(src_ino));
        assert(b.vol@.stored(dst_ino) == a.vol@.stored(src_ino));
    }
    assert(b.content(dst_ino) =~= a.content(src_ino));
    assert forall|x: u64| x != dst_ino implies #[trigger] b.content(x) == a.content(x) by {
        assert(b.vol@.stored(x) == a.vol@.stored(x));
        assert(b.eff_size(x) == a.eff_size(x));
        assert forall|i: int| 0 <= i < a.eff_size(x) implies b.byte_at(x, i) == a.byte_at(
            x,
            i,
        ) by {}
        assert(b.content(x) =~= a.content(x));
    }
}

/// A block that extents hold is counted for them.
proof fn lemma_held_is_covered(runs: Seq<Extent>, i: int, x: int)
    requires
        0 <= i < runs.len(),
        extents::holds(runs[i], x),
    ensures
        extents::cover_count(runs, x) >= 1,
    decreases runs.len(),
{
    extents::lemma_cover_nonneg(runs.drop_last(), x);
    if i < runs.len() - 1 {
        assert(runs.drop_last()[i] == runs[i]);
        lemma_held_is_covered(runs.drop_last(), i, x);
    }
}

/// Every block that two files share is pinned, and no block of the data area
/// is taken.
pub proof fn clone_pins_and_allocates_nothing(
    a: SharedCore,
    b: SharedCore,
    src_ino: u64,
    dst_ino: u64,
    r: Result<u64, Error>,
    i: int,
    x: int,
)
    requires
        a.pins.wf(),
        reflinked(a, b, src_ino, dst_ino, r),
        r is Ok,
        a.vol@.inodes[src_ino].size > 0,
        0 <= i < shared_runs(a.vol@, a.vol@.inodes[src_ino]).len(),
        extents::holds(shared_runs(a.vol@, a.vol@.inodes[src_ino])[i], x),
    ensures
        b.pins.pin_count(x) >= 1,
        b.vol@.area == a.vol@.area,
        b.vol@.sb.free_blocks == a.vol@.sb.free_blocks,
{
    let runs = shared_runs(a.vol@, a.vol@.inodes[src_ino]);
    lemma_held_is_covered(runs, i, x);
    refcount::lemma_pins_nonneg(a.pins, x);
    assert(b.pins.pin_count(x) == pins_before(a, x) + extents::cover_count(runs, x));
    reveal(with_pin_tree);
    reveal(with_clone_tree);
    reveal(with_spill_copied);
}

/// When a clone is refused: a file that is not there; one of the two that is no
/// regular file; one that is compressed; and a destination that is not empty.
/// Nothing else refuses it.
pub proof fn clones_are_refused_for_a_reason(v: VolumeView, src_ino: u64, dst_ino: u64)
    ensures
        ({
            let src = v.inodes[src_ino];
            let dst = v.inodes[dst_ino];
            let there = v.inodes.contains_key(src_ino) && v.inodes.contains_key(dst_ino);
            let regular = src.mode & 0o170000 == 0o100000 && dst.mode & 0o170000 == 0o100000;
            let plain = src.compression_algo == 0 && dst.compression_algo == 0;
            let empty = dst.size == 0 && dst.extent_count == 0 && dst.spill_extent_root == 0;
            let why = clone_refused(v, src_ino, dst_ino);
            &&& !there ==> why == Some(ErrorKind::NotFound)
            &&& there && !regular ==> why == Some(ErrorKind::InvalidInput)
            &&& there && regular && !plain ==> why == Some(ErrorKind::Unsupported)
            &&& there && regular && plain && !empty ==> why == Some(ErrorKind::InvalidInput)
            &&& there && regular && plain && empty ==> why is None
            &&& cloneable(src) <==> src.mode & 0o170000 == 0o100000 && src.compression_algo == 0
        }),
{
}

/// A clone has the size, the times of change and the extents of its source, and
/// keeps who owns it, its mode and its links.
pub proof fn clone_has_the_data_of_its_source(
    made: Inode,
    dst: Inode,
    src: Inode,
    spill_root: u64,
    i: int,
)
    requires
        is_clone_inode(made, dst, src, spill_root),
    ensures
        made.size == src.size,
        made.mtime == src.mtime,
        made.ctime == src.ctime,
        made.extent_count == src.extent_count,
        0 <= i < 7 && i < src.extent_count ==> made.extents@[i] == src.extents@[i],
        made.ino == dst.ino,
        made.mode == dst.mode,
        made.uid == dst.uid,
        made.gid == dst.gid,
        made.links_count == dst.links_count,
        made.atime == dst.atime,
{
}

/// What a clone shares are the extents of its source that have blocks, and each
/// of their blocks is pinned once more.
pub proof fn cloned_blocks_are_pinned(
    a: SharedCore,
    b: SharedCore,
    src_ino: u64,
    dst_ino: u64,
    r: Result<u64, Error>,
    i: int,
    block: int,
)
    requires
        reflinked(a, b, src_ino, dst_ino, r),
        r is Ok,
        clone_refused(a.vol@, src_ino, dst_ino) is None,
        a.vol@.inodes[src_ino].size > 0,
        0 <= i < a.vol@.inodes[src_ino].extent_count <= 7,
        ({
            let e = a.vol@.inodes[src_ino].extents@[i];
            e.physical_start != 0 && e.physical_start <= block < e.physical_start + e.length
        }),
    ensures
        b.pins.pin_count(block) > a.pins.pin_count(block),
{
    let src = a.vol@.inodes[src_ino];
    let e = src.extents@[i];
    let head = src.extents@.take(src.extent_count as int);
    let keep = |x: Extent| shareable(x);
    assert(head[i] == e);
    head.lemma_filter_contains(keep, i);
    let inline = inline_shared(src);
    let runs = shared_runs(a.vol@, src);
    let k = choose|k: int| 0 <= k < inline.len() && inline[k] == e;
    assert(runs[k] == e);
    extents::covered_block_counts(runs, k, block);
    assert(b.pins.pin_count(block) == pins_before(a, block) + extents::cover_count(runs, block));
}

/// The first clone of a volume makes the trees that it needs: their roots are
/// blocks that were set aside, and they go out with the transaction. With a
/// tree nothing is made.
pub proof fn first_clone_makes_its_trees(v: VolumeView)
    ensures
        v.sb.refcount_tree_root != 0 ==> with_pin_tree(v) == v,
        v.sb.refcount_tree_root == 0 ==> {
            &&& with_pin_tree(v).sb.refcount_tree_root == v.fresh.last()
            &&& with_pin_tree(v).root_cells[7] == v.fresh.last()
            &&& with_pin_tree(v).fresh == v.fresh.drop_last()
            &&& with_pin_tree(v).inodes == v.inodes
        },
        v.sb.clone_tree_root != 0 ==> with_clone_tree(v) == v,
        v.sb.clone_tree_root == 0 ==> {
            &&& with_clone_tree(v).sb.clone_tree_root == v.fresh.last()
            &&& with_clone_tree(v).root_cells[9] == v.fresh.last()
            &&& with_clone_tree(v).fresh == v.fresh.drop_last()
            &&& with_clone_tree(v).inodes == v.inodes
        },
{
    reveal(with_pin_tree);
    reveal(with_clone_tree);
}

} // verus!
