//! Taking over what was read from an image, once it is known to be sound.

use crate::common::text;
use crate::file::area;
use crate::file::area::DataArea;
use crate::file::runs;
use crate::fs::extents;
use crate::fs::filesystem;
use crate::fs::filesystem::StoredImage;
use crate::fs::placement;
use crate::fs::snapshots::BlockChecksum;
use crate::fs::volume;
use crate::fs::volume::{DirEntry, Entry, Limits, Volume, VolumeView};
use crate::integrity::bad_blocks::BadBlockManager;
use crate::integrity::refcount::RefCountManager;
use crate::ondisk::serialization::{CloneRecord, Extent, Inode, Superblock};
use crate::ondisk::xattr::XattrEntry;
use crate::ordmap;
use crate::ordmap::OrdMap;
use vstd::prelude::*;

verus! {

/// What is read from an image, as it was found.
pub struct ImageParts {
    /// The superblock.
    pub sb: Superblock,
    /// Inodes by number.
    pub inodes: OrdMap<Inode>,
    /// Spill extents by root block.
    pub spills: OrdMap<Vec<Extent>>,
    /// Directory entries by inode.
    pub dirs: OrdMap<Vec<DirEntry>>,
    /// The data blocks.
    pub area: DataArea,
    /// Attributes by inode.
    pub xattrs: OrdMap<Vec<XattrEntry>>,
    /// Clone records by the inode that was made.
    pub clones: OrdMap<CloneRecord>,
    /// Blocks of which the stored bytes cannot be read, by inode.
    pub damaged: OrdMap<Vec<u64>>,
    /// Metadata blocks that the allocator gives next, last first.
    pub fresh: Vec<u64>,
    /// How much fits.
    pub limits: Limits,
    /// Which blocks are pinned.
    pub pins: RefCountManager,
    /// The ledger of bad blocks.
    pub bad_blocks: BadBlockManager,
}

/// Whether no block of a file has two records.
fn one_record_each(s: &Vec<BlockChecksum>) -> (r: bool)
    ensures
        r == area::one_each(s@),
{
    let mut i: usize = 0;
    while i < s.len()
        invariant
            i <= s@.len(),
            forall|a: int, b: int|
                0 <= a < b < i ==> !area::same_block(#[trigger] s@[a], #[trigger] s@[b]),
        decreases s@.len() - i,
    {
        let mut j: usize = 0;
        while j < i
            invariant
                j <= i < s@.len(),
                forall|a: int| 0 <= a < j ==> !area::same_block(#[trigger] s@[a], s@[i as int]),
            decreases i - j,
        {
            if s[j].object_id == s[i].object_id && s[j].logical_block == s[i].logical_block {
                assert(area::same_block(s@[j as int], s@[i as int]));
                return false;
            }
            j = j + 1;
        }
        i = i + 1;
    }
    true
}

/// Whether the data blocks are whole, and no block of a file has two records.
fn area_sound(a: &DataArea) -> (r: bool)
    ensures
        r == a.wf(),
{
    if !a.blocks.in_order() || !one_record_each(&a.births) {
        return false;
    }
    let ghost es = a.blocks.entries();
    let mut i: usize = 0;
    while i < a.blocks.len()
        invariant
            a.blocks.wf(),
            es == a.blocks.entries(),
            i <= es.len(),
            forall|k: int| 0 <= k < i ==> (#[trigger] es[k]).1@.len() == 4096,
        decreases es.len() - i,
    {
        if a.blocks.entry(i).1.len() != 4096 {
            proof {
                ordmap::lemma_map_of_entry(es, i as int);
                assert(a.blocks@.contains_key(es[i as int].0));
            }
            return false;
        }
        i = i + 1;
    }
    assert forall|b: u64| #[trigger] a.blocks@.contains_key(b) implies a.blocks@[b]@.len()
        == 4096 by {
        ordmap::lemma_key_pos(es, b);
    }
    true
}

/// The inodes have their numbers, which have been given out, and no more extents
/// than slots.
pub open spec fn numbered(inodes: Map<u64, Inode>, next_ino: u64) -> bool {
    forall|k: u64| #[trigger]
        inodes.contains_key(k) ==> inodes[k].ino == k && k < next_ino && extents::inode_ok(
            inodes[k],
        )
}

fn inodes_numbered(inodes: &OrdMap<Inode>, next_ino: u64) -> (r: bool)
    requires
        inodes.wf(),
    ensures
        r == numbered(inodes@, next_ino),
{
    let ghost es = inodes.entries();
    let mut i: usize = 0;
    while i < inodes.len()
        invariant
            inodes.wf(),
            es == inodes.entries(),
            i <= es.len(),
            forall|a: int|
                0 <= a < i ==> (#[trigger] es[a]).1.ino == es[a].0 && es[a].0 < next_ino
                    && extents::inode_ok(es[a].1),
        decreases es.len() - i,
    {
        let (k, inode) = *inodes.entry(i);
        if inode.ino != k || k >= next_ino || inode.extent_count > 7 {
            proof {
                ordmap::lemma_map_of_entry(es, i as int);
                assert(inodes@.contains_key(es[i as int].0));
            }
            return false;
        }
        i = i + 1;
    }
    assert forall|k: u64| #[trigger] inodes@.contains_key(k) implies inodes@[k].ino == k && k
        < next_ino && extents::inode_ok(inodes@[k]) by {
        ordmap::lemma_key_pos(es, k);
    }
    true
}

/// Whether no name occurs twice.
fn names_differ(v: &Vec<DirEntry>) -> (r: bool)
    ensures
        r == volume::distinct_names(volume::entries_of(v@)),
{
    let ghost s = volume::entries_of(v@);
    let mut i: usize = 0;
    while i < v.len()
        invariant
            s == volume::entries_of(v@),
            i <= v@.len(),
            forall|a: int, b: int|
                0 <= a < b < i ==> (#[trigger] s[a]).name != (#[trigger] s[b]).name,
        decreases v@.len() - i,
    {
        let mut j: usize = 0;
        while j < i
            invariant
                s == volume::entries_of(v@),
                j <= i < v@.len(),
                forall|a: int| 0 <= a < j ==> (#[trigger] s[a]).name != s[i as int].name,
            decreases i - j,
        {
            if text::same_text(v[j].name.as_str(), v[i].name.as_str()) {
                assert(s[j as int].name == s[i as int].name);
                return false;
            }
            j = j + 1;
        }
        i = i + 1;
    }
    true
}

fn dirs_sound(dirs: &OrdMap<Vec<DirEntry>>, limit: u64) -> (r: bool)
    requires
        dirs.wf(),
    ensures
        r == volume::dirs_ok(
            dirs@.map_values(|v: Vec<DirEntry>| volume::entries_of(v@)),
            limit,
        ),
{
    proof {
        reveal(volume::dirs_ok);
    }
    let ghost m: Map<u64, Seq<Entry>> = dirs@.map_values(
        |v: Vec<DirEntry>| volume::entries_of(v@),
    );
    let ghost es = dirs.entries();
    let mut i: usize = 0;
    while i < dirs.len()
        invariant
            dirs.wf(),
            es == dirs.entries(),
            m == dirs@.map_values(|v: Vec<DirEntry>| volume::entries_of(v@)),
            i <= es.len(),
            forall|a: int|
                0 <= a < i ==> volume::distinct_names(
                    volume::entries_of((#[trigger] es[a]).1@),
                ) && es[a].1@.len() <= limit,
        decreases es.len() - i,
    {
        let list = &dirs.entry(i).1;
        if list.len() as u64 > limit || !names_differ(list) {
            proof {
                ordmap::lemma_map_of_entry(es, i as int);
                assert(m.contains_key(es[i as int].0));
                assert(m[es[i as int].0] == volume::entries_of(es[i as int].1@));
                reveal(volume::dirs_ok);
            }
            return false;
        }
        i = i + 1;
    }
    proof {
        assert forall|d: u64| #[trigger] m.contains_key(d) implies volume::distinct_names(m[d])
            && m[d].len() <= limit by {
            ordmap::lemma_key_pos(es, d);
            assert(dirs@.contains_key(d));
        }
        reveal(volume::dirs_ok);
    }
    true
}

/// Whether the lists of runs are in order: every file has one of its own, and
/// the blocks that the allocator gives next hold none.
fn layout_sound(inodes: &OrdMap<Inode>, spills: &OrdMap<Vec<Extent>>, fresh: &Vec<u64>) -> (r: bool)
    requires
        inodes.wf(),
        spills.wf(),
    ensures
        r == placement::layout_ok(
            inodes@,
            spills@.map_values(|v: Vec<Extent>| v@),
            fresh@,
        ),
{
    proof {
        reveal(placement::layout_ok);
    }
    let ghost m: Map<u64, Seq<Extent>> = spills@.map_values(|v: Vec<Extent>| v@);
    let ghost es = inodes.entries();
    let mut i: usize = 0;
    while i < inodes.len()
        invariant
            inodes.wf(),
            spills.wf(),
            es == inodes.entries(),
            m == spills@.map_values(|v: Vec<Extent>| v@),
            i <= es.len(),
            forall|a: int|
                0 <= a < i && (#[trigger] es[a]).1.spill_extent_root != 0 ==> m.contains_key(
                    es[a].1.spill_extent_root,
                ),
            forall|a: int, b: int|
                0 <= a < b < i && (#[trigger] es[a]).1.spill_extent_root != 0
                    ==> es[a].1.spill_extent_root != (#[trigger] es[b]).1.spill_extent_root,
        decreases es.len() - i,
    {
        let root: u64 = inodes.entry(i).1.spill_extent_root;
        if root != 0 {
            if spills.get(root).is_none() {
                proof {
                    ordmap::lemma_map_of_entry(es, i as int);
                    assert(inodes@.contains_key(es[i as int].0));
                    reveal(placement::layout_ok);
                }
                return false;
            }
            let mut j: usize = 0;
            while j < i
                invariant
                    inodes.wf(),
                    es == inodes.entries(),
                    j <= i < es.len(),
                    root != 0,
                    root == es[i as int].1.spill_extent_root,
                    forall|a: int| 0 <= a < j ==> (#[trigger] es[a]).1.spill_extent_root != root,
                decreases i - j,
            {
                if inodes.entry(j).1.spill_extent_root == root {
                    proof {
                        ordmap::lemma_map_of_entry(es, i as int);
                        ordmap::lemma_map_of_entry(es, j as int);
                        assert(inodes@.contains_key(es[j as int].0));
                        assert(inodes@.contains_key(es[i as int].0));
                        assert(es[j as int].0 < es[i as int].0);
                        reveal(placement::layout_ok);
                    }
                    return false;
                }
                j = j + 1;
            }
        }
        i = i + 1;
    }
    let mut k: usize = 0;
    while k < fresh.len()
        invariant
            spills.wf(),
            m == spills@.map_values(|v: Vec<Extent>| v@),
            k <= fresh@.len(),
            forall|a: int|
                0 <= a < k ==> #[trigger] fresh@[a] != 0 && !m.contains_key(fresh@[a]),
            forall|a: int, b: int| 0 <= a < b < k ==> #[trigger] fresh@[a] != #[trigger] fresh@[b],
        decreases fresh@.len() - k,
    {
        if fresh[k] == 0 || spills.get(fresh[k]).is_some() {
            proof {
                reveal(placement::layout_ok);
                assert(!(fresh@[k as int] != 0 && !m.contains_key(fresh@[k as int])));
            }
            return false;
        }
        let mut j: usize = 0;
        while j < k
            invariant
                j <= k < fresh@.len(),
                forall|a: int| 0 <= a < j ==> #[trigger] fresh@[a] != fresh@[k as int],
            decreases k - j,
        {
            if fresh[j] == fresh[k] {
                proof {
                    reveal(placement::layout_ok);
                    assert(!(fresh@[j as int] != fresh@[k as int]));
                }
                return false;
            }
            j = j + 1;
        }
        k = k + 1;
    }
    proof {
        reveal(placement::layout_ok);
        assert forall|q: u64| #[trigger] inodes@.contains_key(q) && inodes@[q].spill_extent_root
            != 0 implies m.contains_key(inodes@[q].spill_extent_root) by {
            ordmap::lemma_key_pos(es, q);
        }
        assert forall|x: u64, y: u64| #[trigger]
            inodes@.contains_key(x) && #[trigger] inodes@.contains_key(y) && x != y
                && inodes@[x].spill_extent_root != 0 implies inodes@[x].spill_extent_root
            != inodes@[y].spill_extent_root by {
            ordmap::lemma_key_pos(es, x);
            ordmap::lemma_key_pos(es, y);
            let a = ordmap::key_pos(es, x);
            let b = ordmap::key_pos(es, y);
            if a < b {
                assert(es[a].1.spill_extent_root != es[b].1.spill_extent_root);
            } else if b < a && es[b].1.spill_extent_root != 0 {
                assert(es[b].1.spill_extent_root != es[a].1.spill_extent_root);
            }
        }
    }
    true
}

/// Block `l` of a file of `size` bytes is nowhere, or in a block that is in use
/// and holds zeros behind the end of the file.
pub open spec fn block_sound(a: DataArea, r: Seq<Extent>, l: int, size: u64) -> bool {
    runs::place(r, l) matches Some(p) ==> {
        &&& p != 0
        &&& a.in_use(p as int)
        &&& forall|b: int| 0 <= b < 4096 && l * 4096 + b >= size ==> #[trigger] a.bytes(p)[b] == 0
    }
}

/// The blocks of a file of `size` bytes are sound.
pub open spec fn file_sound(a: DataArea, r: Seq<Extent>, size: u64) -> bool {
    &&& runs::runs_ok(r)
    &&& forall|l: int| #[trigger] block_sound(a, r, l, size)
}

fn one_block_sound(a: &DataArea, r: &Vec<Extent>, l: u64, p: u64, size: u64) -> (ok: bool)
    requires
        a.wf(),
        runs::place(r@, l as int) == Some(p),
    ensures
        ok == block_sound(*a, r@, l as int, size),
{
    if p == 0 || p >= a.used.len() as u64 || !a.used[p as usize] {
        return false;
    }
    if l < size / 4096 {
        return true;
    }
    let from: usize = if l == size / 4096 {
        (size % 4096) as usize
    } else {
        0
    };
    let block = a.read_block(p);
    let mut b: usize = from;
    while b < 4096
        invariant
            from <= b <= 4096,
            block@ == a.bytes(p),
            block@.len() == 4096,
            l >= size / 4096,
            from == (if l == size / 4096 {
                size % 4096
            } else {
                0
            }),
            runs::place(r@, l as int) == Some(p),
            forall|x: int| from <= x < b ==> #[trigger] block@[x] == 0,
        decreases 4096 - b,
    {
        if block[b] != 0 {
            assert(l * 4096 + b >= size);
            assert(a.bytes(p)[b as int] != 0);
            return false;
        }
        b = b + 1;
    }
    assert forall|x: int| 0 <= x < 4096 && l * 4096 + x >= size implies #[trigger] a.bytes(p)[x]
        == 0 by {
        assert(block@[x] == 0);
    }
    true
}

/// Whether the blocks of a file are sound.
fn blocks_sound(a: &DataArea, r: &Vec<Extent>, size: u64) -> (ok: bool)
    requires
        a.wf(),
    ensures
        ok == file_sound(*a, r@, size),
{
    if !runs::in_order(r.as_slice()) {
        return false;
    }
    let mut i: usize = 0;
    while i < r.len()
        invariant
            a.wf(),
            runs::runs_ok(r@),
            i <= r@.len(),
            forall|j: int, l: int|
                0 <= j < i && r@[j].logical_start <= l < runs::logical_end(#[trigger] r@[j])
                    ==> #[trigger] block_sound(*a, r@, l, size),
        decreases r@.len() - i,
    {
        let e = r[i];
        assert(runs::run_ok(r@[i as int]));
        let mut k: u64 = 0;
        while k < e.length
            invariant
                a.wf(),
                runs::runs_ok(r@),
                i < r@.len(),
                e == r@[i as int],
                runs::run_ok(e),
                k <= e.length,
                forall|l: int|
                    e.logical_start <= l < e.logical_start + k ==> #[trigger] block_sound(
                        *a,
                        r@,
                        l,
                        size,
                    ),
            decreases e.length - k,
        {
            let l: u64 = e.logical_start + k;
            let p: u64 = e.physical_start + k;
            proof {
                assert(extents::extent_maps(r@[i as int], l as int, p as int));
                assert(extents::maps_to(r@, l as int, p as int));
                runs::lemma_one_place(r@, l as int, p as int);
            }
            if !one_block_sound(a, r, l, p, size) {
                return false;
            }
            k = k + 1;
        }
        i = i + 1;
    }
    assert forall|l: int| #[trigger] block_sound(*a, r@, l, size) by {
        if runs::place(r@, l) is Some {
            let p = choose|p: int| #[trigger] extents::maps_to(r@, l, p);
            let j = choose|j: int|
                0 <= j < r@.len() && extents::extent_maps(#[trigger] r@[j], l, p);
            assert(r@[j].logical_start <= l < runs::logical_end(r@[j]));
        }
    }
    true
}

/// Blocks that are in both runs are pinned.
pub open spec fn overlap_pinned(e: Extent, f: Extent, rc: RefCountManager) -> bool {
    forall|p: int|
        extents::holds(e, p) && extents::holds(f, p) ==> #[trigger] rc.pin_count(p) > 0
}

fn overlap_is_pinned(e: Extent, f: Extent, rc: &RefCountManager) -> (r: bool)
    requires
        rc.wf(),
        runs::run_ok(e),
        runs::run_ok(f),
    ensures
        r == overlap_pinned(e, f, *rc),
{
    let start: u64 = if e.physical_start > f.physical_start {
        e.physical_start
    } else {
        f.physical_start
    };
    let e_end: u64 = e.physical_start + e.length;
    let f_end: u64 = f.physical_start + f.length;
    let end: u64 = if e_end < f_end {
        e_end
    } else {
        f_end
    };
    let mut p: u64 = start;
    while p < end
        invariant
            rc.wf(),
            start <= p,
            p <= end || p == start,
            forall|q: int|
                start <= q < end <==> #[trigger] extents::holds(e, q) && extents::holds(f, q),
            forall|q: int| start <= q < p ==> #[trigger] rc.pin_count(q) > 0,
        decreases end - p,
    {
        if !rc.is_pinned(p) {
            assert(extents::holds(e, p as int) && extents::holds(f, p as int));
            assert(!(rc.pin_count(p as int) > 0));
            return false;
        }
        p = p + 1;
    }
    assert forall|q: int| extents::holds(e, q) && extents::holds(f, q) implies #[trigger] rc.pin_count(
        q,
    ) > 0 by {
        assert(start <= q < end);
    }
    true
}

/// Blocks that two runs have in common are pinned; a run is not held against
/// itself.
pub open spec fn runs_apart(
    ra: Seq<Extent>,
    rb: Seq<Extent>,
    same: bool,
    rc: RefCountManager,
) -> bool {
    forall|t: int, u: int|
        0 <= t < ra.len() && 0 <= u < rb.len() && (!same || t != u) ==> #[trigger] overlap_pinned(
            ra[t],
            rb[u],
            rc,
        )
}

fn runs_are_apart(
    ra: &Vec<Extent>,
    rb: &Vec<Extent>,
    same: bool,
    rc: &RefCountManager,
) -> (r: bool)
    requires
        rc.wf(),
        runs::runs_ok(ra@),
        runs::runs_ok(rb@),
    ensures
        r == runs_apart(ra@, rb@, same, *rc),
{
    let mut t: usize = 0;
    while t < ra.len()
        invariant
            rc.wf(),
            runs::runs_ok(ra@),
            runs::runs_ok(rb@),
            t <= ra@.len(),
            forall|x: int, u: int|
                0 <= x < t && 0 <= u < rb@.len() && (!same || x != u)
                    ==> #[trigger] overlap_pinned(ra@[x], rb@[u], *rc),
        decreases ra@.len() - t,
    {
        let mut u: usize = 0;
        while u < rb.len()
            invariant
                rc.wf(),
                runs::runs_ok(ra@),
                runs::runs_ok(rb@),
                t < ra@.len(),
                u <= rb@.len(),
                forall|y: int|
                    0 <= y < u && (!same || t != y) ==> #[trigger] overlap_pinned(
                        ra@[t as int],
                        rb@[y],
                        *rc,
                    ),
            decreases rb@.len() - u,
        {
            if !same || t != u {
                assert(runs::run_ok(ra@[t as int]) && runs::run_ok(rb@[u as int]));
                if !overlap_is_pinned(ra[t], rb[u], rc) {
                    return false;
                }
            }
            u = u + 1;
        }
        t = t + 1;
    }
    true
}

/// The runs of the files are sound, and blocks that they have in common are
/// pinned.
pub open spec fn files_sound(
    inodes: Map<u64, Inode>,
    spills: Map<u64, Seq<Extent>>,
    a: DataArea,
    rc: RefCountManager,
) -> bool {
    &&& forall|k: u64| #[trigger]
        inodes.contains_key(k) ==> file_sound(
            a,
            placement::runs_of(inodes[k], spills),
            inodes[k].size,
        )
    &&& forall|x: u64, y: u64| #[trigger]
        inodes.contains_key(x) && #[trigger] inodes.contains_key(y) ==> runs_apart(
            placement::runs_of(inodes[x], spills),
            placement::runs_of(inodes[y], spills),
            x == y,
            rc,
        )
}

fn files_are_sound(
    inodes: &OrdMap<Inode>,
    spills: &OrdMap<Vec<Extent>>,
    a: &DataArea,
    rc: &RefCountManager,
) -> (r: bool)
    requires
        inodes.wf(),
        spills.wf(),
        a.wf(),
        rc.wf(),
        forall|k: u64| #[trigger] inodes@.contains_key(k) ==> extents::inode_ok(inodes@[k]),
    ensures
        r == files_sound(inodes@, spills@.map_values(|v: Vec<Extent>| v@), *a, *rc),
{
    let ghost m: Map<u64, Seq<Extent>> = spills@.map_values(|v: Vec<Extent>| v@);
    let ghost es = inodes.entries();
    let mut i: usize = 0;
    while i < inodes.len()
        invariant
            inodes.wf(),
            spills.wf(),
            a.wf(),
            rc.wf(),
            es == inodes.entries(),
            m == spills@.map_values(|v: Vec<Extent>| v@),
            i <= es.len(),
            forall|k: u64| #[trigger] inodes@.contains_key(k) ==> extents::inode_ok(inodes@[k]),
            forall|x: int|
                0 <= x < i ==> file_sound(
                    *a,
                    placement::runs_of((#[trigger] es[x]).1, m),
                    es[x].1.size,
                ),
        decreases es.len() - i,
    {
        let inode = inodes.entry(i).1;
        proof {
            ordmap::lemma_map_of_entry(es, i as int);
            assert(inodes@.contains_key(es[i as int].0));
            placement::lemma_runs_of(inode, spills@);
        }
        let ra = extents::live_extent_list(&inode, spills);
        if !blocks_sound(a, &ra, inode.size) {
            return false;
        }
        i = i + 1;
    }
    assert forall|k: u64| #[trigger] inodes@.contains_key(k) implies file_sound(
        *a,
        placement::runs_of(inodes@[k], m),
        inodes@[k].size,
    ) by {
        ordmap::lemma_key_pos(es, k);
    }
    files_are_apart(inodes, spills, rc)
}

fn files_are_apart(
    inodes: &OrdMap<Inode>,
    spills: &OrdMap<Vec<Extent>>,
    rc: &RefCountManager,
) -> (r: bool)
    requires
        inodes.wf(),
        spills.wf(),
        rc.wf(),
        forall|k: u64| #[trigger]
            inodes@.contains_key(k) ==> extents::inode_ok(inodes@[k]) && runs::runs_ok(
                placement::runs_of(inodes@[k], spills@.map_values(|v: Vec<Extent>| v@)),
            ),
    ensures
        ({
            let m = spills@.map_values(|v: Vec<Extent>| v@);
            r == forall|x: u64, y: u64| #[trigger]
                inodes@.contains_key(x) && #[trigger] inodes@.contains_key(y) ==> runs_apart(
                    placement::runs_of(inodes@[x], m),
                    placement::runs_of(inodes@[y], m),
                    x == y,
                    *rc,
                )
        }),
{
    let ghost m: Map<u64, Seq<Extent>> = spills@.map_values(|v: Vec<Extent>| v@);
    let ghost es = inodes.entries();
    let mut i: usize = 0;
    while i < inodes.len()
        invariant
            inodes.wf(),
            spills.wf(),
            rc.wf(),
            es == inodes.entries(),
            m == spills@.map_values(|v: Vec<Extent>| v@),
            i <= es.len(),
            forall|k: u64| #[trigger]
                inodes@.contains_key(k) ==> extents::inode_ok(inodes@[k]) && runs::runs_ok(
                    placement::runs_of(inodes@[k], m),
                ),
            forall|x: int, y: int|
                0 <= x < i && 0 <= y < es.len() ==> runs_apart(
                    placement::runs_of((#[trigger] es[x]).1, m),
                    placement::runs_of((#[trigger] es[y]).1, m),
                    x == y,
                    *rc,
                ),
        decreases es.len() - i,
    {
        let inode = inodes.entry(i).1;
        proof {
            ordmap::lemma_map_of_entry(es, i as int);
            assert(inodes@.contains_key(es[i as int].0));
            placement::lemma_runs_of(inode, spills@);
        }
        let ra = extents::live_extent_list(&inode, spills);
        let mut j: usize = 0;
        while j < inodes.len()
            invariant
                inodes.wf(),
                spills.wf(),
                rc.wf(),
                es == inodes.entries(),
                m == spills@.map_values(|v: Vec<Extent>| v@),
                i < es.len(),
                j <= es.len(),
                inodes@.contains_key(es[i as int].0),
                inodes@[es[i as int].0] == es[i as int].1,
                ra@ == placement::runs_of(es[i as int].1, m),
                runs::runs_ok(ra@),
                forall|k: u64| #[trigger]
                    inodes@.contains_key(k) ==> extents::inode_ok(inodes@[k]) && runs::runs_ok(
                        placement::runs_of(inodes@[k], m),
                    ),
                forall|y: int|
                    0 <= y < j ==> runs_apart(
                        ra@,
                        placement::runs_of((#[trigger] es[y]).1, m),
                        i == y,
                        *rc,
                    ),
            decreases es.len() - j,
        {
            let other = inodes.entry(j).1;
            proof {
                ordmap::lemma_map_of_entry(es, j as int);
                assert(inodes@.contains_key(es[j as int].0));
                placement::lemma_runs_of(other, spills@);
                if i < j {
                    assert(es[i as int].0 < es[j as int].0);
                } else if j < i {
                    assert(es[j as int].0 < es[i as int].0);
                }
            }
            let rb = extents::live_extent_list(&other, spills);
            if !runs_are_apart(&ra, &rb, i == j, rc) {
                return false;
            }
            j = j + 1;
        }
        i = i + 1;
    }
    assert forall|x: u64, y: u64| #[trigger]
        inodes@.contains_key(x) && #[trigger] inodes@.contains_key(y) implies runs_apart(
        placement::runs_of(inodes@[x], m),
        placement::runs_of(inodes@[y], m),
        x == y,
        *rc,
    ) by {
        ordmap::lemma_key_pos(es, x);
        ordmap::lemma_key_pos(es, y);
        let a = ordmap::key_pos(es, x);
        let b = ordmap::key_pos(es, y);
        assert(runs_apart(
            placement::runs_of(es[a].1, m),
            placement::runs_of(es[b].1, m),
            a == b,
            *rc,
        ));
    }
    true
}

/// Blocks that are pinned where runs overlap are pinned where files share them.
proof fn lemma_shares_pinned(
    inodes: Map<u64, Inode>,
    spills: Map<u64, Seq<Extent>>,
    a: DataArea,
    rc: RefCountManager,
)
    requires
        files_sound(inodes, spills, a, rc),
    ensures
        placement::shares_pinned(placement::all_runs(inodes, spills), rc),
{
    reveal(placement::shares_pinned);
    let all = placement::all_runs(inodes, spills);
    assert forall|i: u64, j: u64, l: int, m: int|
        all.contains_key(i) && all.contains_key(j) && (i != j || l != m) && (
        #[trigger] runs::place(all[i], l)) is Some && runs::place(all[i], l)
            == #[trigger] runs::place(all[j], m) implies rc.pin_count(
        runs::place(all[i], l)->0 as int,
    ) > 0 by {
        assert(inodes.contains_key(i) && inodes.contains_key(j));
        let ra = all[i];
        let rb = all[j];
        assert(file_sound(a, ra, inodes[i].size) && file_sound(a, rb, inodes[j].size));
        let p = choose|p: int| #[trigger] extents::maps_to(ra, l, p);
        runs::lemma_one_place(ra, l, p);
        let q = choose|q: int| #[trigger] extents::maps_to(rb, m, q);
        runs::lemma_one_place(rb, m, q);
        assert(p == q);
        let t = choose|t: int| 0 <= t < ra.len() && extents::extent_maps(#[trigger] ra[t], l, p);
        let u = choose|u: int| 0 <= u < rb.len() && extents::extent_maps(#[trigger] rb[u], m, p);
        assert(extents::holds(ra[t], p) && extents::holds(rb[u], p));
        assert(runs_apart(ra, rb, i == j, rc));
        assert(overlap_pinned(ra[t], rb[u], rc));
        assert(rc.pin_count(p) > 0);
    }
}

/// A file whose blocks are sound holds what they hold up to its size.
proof fn lemma_file_held(a: DataArea, r: Seq<Extent>, size: u64)
    requires
        file_sound(a, r, size),
    ensures
        placement::file_ok(
            r,
            a,
            Seq::new(size as nat, |x: int| placement::byte_in(a, r, x)),
        ),
{
    let stored = Seq::new(size as nat, |x: int| placement::byte_in(a, r, x));
    assert forall|l: int| (#[trigger] runs::place(r, l)) is Some implies runs::place(r, l)->0 != 0
        && a.in_use(runs::place(r, l)->0 as int) by {
        assert(block_sound(a, r, l, size));
    }
    assert forall|x: int| 0 <= x implies #[trigger] placement::byte_in(a, r, x)
        == filesystem::stored_byte(stored, x) by {
        let l = x / 4096;
        if x >= size {
            assert(block_sound(a, r, l, size));
            if let Some(p) = runs::place(r, l) {
                assert(l * 4096 + x % 4096 == x);
                assert(a.bytes(p)[x % 4096] == 0);
            }
        }
    }
}

impl ImageParts {
    /// The lists of runs.
    pub open spec fn lists(&self) -> Map<u64, Seq<Extent>> {
        self.spills@.map_values(|v: Vec<Extent>| v@)
    }

    /// What the blocks of a file hold, up to its size.
    pub open spec fn bytes_of(&self, ino: u64) -> Seq<u8> {
        Seq::new(
            self.inodes@[ino].size as nat,
            |x: int|
                placement::byte_in(
                    self.area,
                    placement::runs_of(self.inodes@[ino], self.lists()),
                    x,
                ),
        )
    }

    /// What the parts make when they are loaded: each file holds what its blocks
    /// hold.
    pub open spec fn loaded(&self) -> VolumeView {
        VolumeView {
            sb: self.sb,
            inodes: self.inodes@,
            spills: self.lists(),
            dirs: self.dirs@.map_values(|v: Vec<DirEntry>| volume::entries_of(v@)),
            data: Map::new(
                |k: u64| self.inodes@.contains_key(k),
                |k: u64| self.bytes_of(k),
            ),
            area: self.area,
            xattrs: self.xattrs@.map_values(|v: Vec<XattrEntry>| volume::attrs_of(v@)),
            clones: self.clones@,
            damaged: self.damaged@.map_values(|v: Vec<u64>| v@),
            root_cells: Map::empty(),
            fresh: self.fresh@,
            limits: self.limits,
        }
    }

    /// The parts are sound: everything is in order, every inode has its number
    /// and every file its blocks, which hold zeros behind its end, and blocks
    /// that files have in common are pinned.
    pub open spec fn sound(&self) -> bool {
        &&& self.inodes.wf()
        &&& self.spills.wf()
        &&& self.dirs.wf()
        &&& self.xattrs.wf()
        &&& self.clones.wf()
        &&& self.damaged.wf()
        &&& self.pins.wf()
        &&& self.bad_blocks.wf()
        &&& self.area.wf()
        &&& self.area.used@.len() <= isize::MAX
        &&& self.area.used@.len() > 0 ==> self.area.used@[0]
        &&& self.limits.file_bytes <= isize::MAX
        &&& self.limits.dir_entries <= isize::MAX
        &&& numbered(self.inodes@, self.sb.next_ino)
        &&& volume::dirs_ok(
            self.dirs@.map_values(|v: Vec<DirEntry>| volume::entries_of(v@)),
            self.limits.dir_entries,
        )
        &&& placement::layout_ok(self.inodes@, self.lists(), self.fresh@)
        &&& files_sound(self.inodes@, self.lists(), self.area, self.pins)
    }

    /// Whether the parts are sound.
    pub fn is_sound(&self) -> (r: bool)
        ensures
            r == self.sound(),
    {
        if !(self.inodes.in_order() && self.spills.in_order() && self.dirs.in_order()
            && self.xattrs.in_order() && self.clones.in_order() && self.damaged.in_order()) {
            return false;
        }
        if !(self.pins.in_order() && self.bad_blocks.btree.records.in_order()) {
            return false;
        }
        if !area_sound(&self.area) || self.area.used.len() > isize::MAX as usize
            || self.limits.file_bytes > isize::MAX as u64 || self.limits.dir_entries
            > isize::MAX as u64 {
            return false;
        }
        if self.area.used.len() > 0 && !self.area.used[0] {
            return false;
        }
        inodes_numbered(&self.inodes, self.sb.next_ino) && dirs_sound(
            &self.dirs,
            self.limits.dir_entries,
        ) && layout_sound(&self.inodes, &self.spills, &self.fresh) && files_are_sound(
            &self.inodes,
            &self.spills,
            &self.area,
            &self.pins,
        )
    }
}

impl StoredImage {
    /// Takes over what was read from an image, if it is sound. Each file then
    /// holds what its blocks hold.
    pub fn load(parts: ImageParts) -> (r: Option<StoredImage>)
        ensures
            r is Some <==> parts.sound(),
            r matches Some(image) ==> {
                &&& image.wf()
                &&& image.vol@ == parts.loaded()
                &&& image.pins == parts.pins
                &&& image.bad_blocks == parts.bad_blocks
            },
    {
        if !parts.is_sound() {
            return None;
        }
        let ghost data: Map<u64, Seq<u8>> = Map::new(
            |k: u64| parts.inodes@.contains_key(k),
            |k: u64| parts.bytes_of(k),
        );
        proof {
            reveal(volume::inodes_ok);
            reveal(placement::blocks_ok);
            let all = placement::all_runs(parts.inodes@, parts.lists());
            lemma_shares_pinned(parts.inodes@, parts.lists(), parts.area, parts.pins);
            assert forall|k: u64| #[trigger] all.contains_key(k) implies placement::file_ok(
                all[k],
                parts.area,
                volume::stored_in(data, k),
            ) by {
                assert(parts.inodes@.contains_key(k));
                lemma_file_held(parts.area, all[k], parts.inodes@[k].size);
                assert(volume::stored_in(data, k) == parts.bytes_of(k));
            }
        }
        let vol = Volume {
            sb: parts.sb,
            inodes: parts.inodes,
            spills: parts.spills,
            dirs: parts.dirs,
            data: Ghost(data),
            area: parts.area,
            xattrs: parts.xattrs,
            clones: parts.clones,
            damaged: parts.damaged,
            root_cells: OrdMap::new(),
            fresh: parts.fresh,
            limits: parts.limits,
        };
        Some(StoredImage { vol, pins: parts.pins, bad_blocks: parts.bad_blocks })
    }
}

/// The parts are those that the image is made of.
pub open spec fn parts_of(image: StoredImage, parts: ImageParts) -> bool {
    &&& parts.sb == image.vol.sb
    &&& parts.inodes == image.vol.inodes
    &&& parts.spills == image.vol.spills
    &&& parts.dirs == image.vol.dirs
    &&& parts.area == image.vol.area
    &&& parts.xattrs == image.vol.xattrs
    &&& parts.clones == image.vol.clones
    &&& parts.damaged == image.vol.damaged
    &&& parts.fresh == image.vol.fresh
    &&& parts.limits == image.vol.limits
    &&& parts.pins == image.pins
    &&& parts.bad_blocks == image.bad_blocks
}

/// Runs that overlap share a block, which is pinned.
proof fn lemma_apart(
    all: Map<u64, Seq<Extent>>,
    rc: RefCountManager,
    i: u64,
    j: u64,
    t: int,
    u: int,
    p: int,
)
    requires
        placement::shares_pinned(all, rc),
        all.contains_key(i),
        all.contains_key(j),
        runs::runs_ok(all[i]),
        runs::runs_ok(all[j]),
        0 <= t < all[i].len(),
        0 <= u < all[j].len(),
        i != j || t != u,
        extents::holds(all[i][t], p),
        extents::holds(all[j][u], p),
    ensures
        rc.pin_count(p) > 0,
{
    reveal(placement::shares_pinned);
    let e = all[i][t];
    let f = all[j][u];
    let l = e.logical_start + (p - e.physical_start);
    let m = f.logical_start + (p - f.physical_start);
    assert(extents::extent_maps(all[i][t], l, p));
    assert(extents::maps_to(all[i], l, p));
    runs::lemma_one_place(all[i], l, p);
    assert(extents::extent_maps(all[j][u], m, p));
    assert(extents::maps_to(all[j], m, p));
    runs::lemma_one_place(all[j], m, p);
    if i == j {
        if t < u {
            assert(runs::logical_end(all[i][t]) <= all[i][u].logical_start);
        } else {
            assert(runs::logical_end(all[i][u]) <= all[i][t].logical_start);
        }
        assert(l != m);
    }
    assert(runs::place(all[i], l) == runs::place(all[j], m));
}

/// What an image is made of can be loaded again, and every file then holds the
/// bytes that it held.
pub proof fn image_loads_again(image: StoredImage, parts: ImageParts)
    requires
        image.wf(),
        parts_of(image, parts),
    ensures
        parts.sound(),
        filesystem::same_files(image.vol@, parts.loaded()),
{
    reveal(volume::inodes_ok);
    reveal(placement::blocks_ok);
    let v = image.vol@;
    let all = placement::all_runs(v.inodes, v.spills);
    assert forall|k: u64| #[trigger] v.inodes.contains_key(k) implies file_sound(
        v.area,
        placement::runs_of(v.inodes[k], v.spills),
        v.inodes[k].size,
    ) by {
        let r = placement::runs_of(v.inodes[k], v.spills);
        let size = v.inodes[k].size;
        assert(all.contains_key(k) && all[k] == r);
        assert(placement::file_ok(r, v.area, v.stored(k)));
        assert forall|l: int| #[trigger] block_sound(v.area, r, l, size) by {
            if let Some(p) = runs::place(r, l) {
                let q = choose|q: int| #[trigger] extents::maps_to(r, l, q);
                runs::lemma_one_place(r, l, q);
                assert forall|b: int| 0 <= b < 4096 && l * 4096 + b >= size implies (
                #[trigger] v.area.bytes(p)[b]) == 0 by {
                    let x = l * 4096 + b;
                    assert(x / 4096 == l && x % 4096 == b);
                    assert(placement::byte_in(v.area, r, x) == filesystem::stored_byte(
                        v.stored(k),
                        x,
                    ));
                }
            }
        }
    }
    assert forall|x: u64, y: u64| #[trigger]
        v.inodes.contains_key(x) && #[trigger] v.inodes.contains_key(y) implies runs_apart(
        placement::runs_of(v.inodes[x], v.spills),
        placement::runs_of(v.inodes[y], v.spills),
        x == y,
        image.pins,
    ) by {
        let ra = all[x];
        let rb = all[y];
        assert(all.contains_key(x) && all.contains_key(y));
        assert(placement::file_ok(ra, v.area, v.stored(x)));
        assert(placement::file_ok(rb, v.area, v.stored(y)));
        assert forall|t: int, u: int|
            0 <= t < ra.len() && 0 <= u < rb.len() && (x != y || t
                != u) implies #[trigger] overlap_pinned(ra[t], rb[u], image.pins) by {
            assert forall|p: int|
                extents::holds(ra[t], p) && extents::holds(
                    rb[u],
                    p,
                ) implies #[trigger] image.pins.pin_count(p) > 0 by {
                lemma_apart(all, image.pins, x, y, t, u, p);
            }
        }
    }
    let b = parts.loaded();
    assert forall|ino: u64, x: int| 0 <= x implies #[trigger] filesystem::stored_byte(
        b.stored(ino),
        x,
    ) == filesystem::stored_byte(v.stored(ino), x) by {
        if v.inodes.contains_key(ino) {
            let r = placement::runs_of(v.inodes[ino], v.spills);
            assert(all.contains_key(ino) && all[ino] == r);
            assert(placement::file_ok(r, v.area, v.stored(ino)));
            assert(b.stored(ino) == parts.bytes_of(ino));
            assert(placement::byte_in(v.area, r, x) == filesystem::stored_byte(v.stored(ino), x));
        } else {
            volume::lemma_inode_fits(image.vol, ino);
        }
    }
}

} // verus!
