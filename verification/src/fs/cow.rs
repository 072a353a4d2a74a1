//! Copy-on-write of metadata trees.
//!
//! Every tree carries the stamp of its last change. A tree whose stamp is at
//! or below the barrier belongs to a snapshot too: the next change goes to a
//! copy under a fresh root, and whoever knows the tree by its old root is led
//! to the copy. The copy is newer than the barrier, so further changes go to
//! it in place until the next snapshot.

use crate::common::text;
use crate::fs::extents;
use crate::fs::snapshots;
use crate::fs::snapshots::{BlockChecksum, DirName, SnapshotMoment, TreeStore};
use crate::ondisk::serialization::{Inode, SnapshotRecord, Superblock};
use crate::ordmap;
use crate::ordmap::OrdMap;
use vstd::prelude::*;

verus! {

/// Where the live trees are, and when each was changed.
pub struct CowRoots {
    /// Stamp of the last change, by root.
    pub stamps: OrdMap<u64>,
    /// Root of the live tree, by the root that it is known by.
    pub moved: OrdMap<u64>,
    /// The next free metadata block.
    pub next: u64,
    /// Trees changed at this stamp or before belong to a snapshot too.
    pub barrier: u64,
    /// Stamp that changes get.
    pub stamp: u64,
}

impl CowRoots {
    /// The blocks from `next` on are free.
    pub open spec fn wf(&self) -> bool {
        &&& self.stamps.wf()
        &&& self.moved.wf()
        &&& forall|b: u64| #[trigger] self.stamps@.contains_key(b) ==> b < self.next
        &&& forall|b: u64| #[trigger] self.moved@.contains_key(b) ==> self.moved@[b] < self.next
    }

    /// Where the live tree is that is known by `root`.
    pub open spec fn live(&self, root: u64) -> u64 {
        if self.moved@.contains_key(root) {
            self.moved@[root]
        } else {
            root
        }
    }

    /// The tree at `b` belongs to a snapshot too.
    pub open spec fn frozen(&self, b: u64) -> bool {
        !self.stamps@.contains_key(b) || self.stamps@[b] <= self.barrier
    }

    /// No tree yet; metadata blocks are free from `next` on.
    pub fn new(next: u64) -> (r: Self)
        ensures
            r.wf(),
            r.next == next,
            r.barrier == 0,
            r.stamp == 1,
            r.stamps@ == Map::<u64, u64>::empty(),
            r.moved@ == Map::<u64, u64>::empty(),
    {
        CowRoots { stamps: OrdMap::new(), moved: OrdMap::new(), next, barrier: 0, stamp: 1 }
    }

    /// Puts a new tree at `root`.
    pub fn plant(&mut self, root: u64)
        requires
            old(self).wf(),
            root < old(self).next,
        ensures
            final(self).wf(),
            final(self).stamps@ == old(self).stamps@.insert(root, old(self).stamp),
            *final(self) == (CowRoots { stamps: final(self).stamps, ..*old(self) }),
    {
        self.stamps.insert(root, self.stamp);
        assert forall|b: u64| #[trigger] self.stamps@.contains_key(b) implies b < self.next by {
            if b != root {
                assert(old(self).stamps@.contains_key(b));
            }
        }
    }

    /// Where the live tree is that is known by `root`.
    pub fn effective_root(&self, root: u64) -> (r: u64)
        requires
            self.wf(),
        ensures
            r == self.live(root),
    {
        match self.moved.lookup(root) {
            Some(b) => b,
            None => root,
        }
    }

    /// The tree at `b` belongs to a snapshot too.
    pub fn is_frozen(&self, b: u64) -> (r: bool)
        requires
            self.wf(),
        ensures
            r == self.frozen(b),
    {
        match self.stamps.lookup(b) {
            Some(stamp) => stamp <= self.barrier,
            None => true,
        }
    }

    /// Makes the live tree that is known by `root` ready for a change: gives
    /// the root that the change goes to, and whether it is a fresh one.
    pub fn ready(&mut self, root: u64) -> (r: (u64, bool))
        requires
            old(self).wf(),
            old(self).barrier < old(self).stamp,
            old(self).next < u64::MAX,
            old(self).live(root) < old(self).next,
        ensures
            final(self).wf(),
            made_ready(*old(self), *final(self), root, r.0, r.1),
    {
        let from: u64 = self.effective_root(root);
        let copied: bool = self.is_frozen(from);
        let to: u64 = if copied {
            self.next
        } else {
            from
        };
        if copied {
            self.next = self.next + 1;
            self.moved.insert(root, to);
        }
        self.stamps.insert(to, self.stamp);
        proof {
            assert forall|b: u64| #[trigger] self.stamps@.contains_key(b) implies b < self.next by {
                if b != to {
                    assert(old(self).stamps@.contains_key(b));
                }
            }
            assert forall|b: u64| #[trigger] self.moved@.contains_key(b) implies self.moved@[b]
                < self.next by {
                if b != root || !copied {
                    assert(old(self).moved@.contains_key(b));
                }
            }
        }
        (to, copied)
    }
}

/// The next change to the tree known by `root` goes to `to`: to a fresh block
/// if the tree was frozen, and to the live tree itself if it was not.
pub open spec fn made_ready(a: CowRoots, b: CowRoots, root: u64, to: u64, copied: bool) -> bool {
    &&& copied == a.frozen(a.live(root))
    &&& to == (if copied {
        a.next
    } else {
        a.live(root)
    })
    &&& b.next == a.next + (if copied {
        1int
    } else {
        0
    })
    &&& b.barrier == a.barrier
    &&& b.stamp == a.stamp
    &&& b.stamps@ == a.stamps@.insert(to, a.stamp)
    &&& !b.frozen(to)
    &&& forall|r: u64|
        (#[trigger] b.live(r)) == (if r == root {
            to
        } else {
            a.live(r)
        })
    &&& forall|r: u64| r != to ==> (#[trigger] b.frozen(r)) == a.frozen(r)
}

/// The roots of all trees are in front of the free blocks.
pub open spec fn clear_of(store: TreeStore, roots: CowRoots) -> bool {
    &&& forall|r: u64| #[trigger] store.inodes@.contains_key(r) ==> r < roots.next
    &&& forall|r: u64| #[trigger] store.dirs@.contains_key(r) ==> r < roots.next
    &&& forall|r: u64| #[trigger] store.csums@.contains_key(r) ==> r < roots.next
}

/// A change to the tree known by `root` can be made.
pub open spec fn can_change(store: TreeStore, roots: CowRoots, root: u64) -> bool {
    &&& store.wf()
    &&& roots.wf()
    &&& clear_of(store, roots)
    &&& roots.barrier < roots.stamp
    &&& roots.next < u64::MAX
    &&& roots.live(root) < roots.next
}

/// A tree is sound if and only if every inode in it is.
proof fn lemma_tree_ok(tree: OrdMap<Inode>)
    requires
        tree.wf(),
    ensures
        inode_tree_sound(tree) == snapshots::inode_tree_ok(tree),
{
    let s = tree.entries();
    if inode_tree_sound(tree) {
        assert forall|i: int| 0 <= i < s.len() implies extents::inode_ok((#[trigger] s[i]).1) by {
            ordmap::lemma_map_of_entry(s, i);
            assert(tree@.contains_key(s[i].0));
        }
    }
    if snapshots::inode_tree_ok(tree) {
        assert forall|k: u64| #[trigger] tree@.contains_key(k) implies extents::inode_ok(tree@[k]) by {
            ordmap::lemma_key_pos(s, k);
            assert(extents::inode_ok(s[ordmap::key_pos(s, k)].1));
        }
    }
}

/// No inode of the tree has more extents than slots.
spec fn inode_tree_sound(tree: OrdMap<Inode>) -> bool {
    forall|k: u64| #[trigger] tree@.contains_key(k) ==> extents::inode_ok(tree@[k])
}

/// A copy of an inode tree.
fn copy_inodes(tree: &OrdMap<Inode>) -> (r: OrdMap<Inode>)
    requires
        tree.wf(),
    ensures
        r.wf(),
        r.entries() == tree.entries(),
{
    let mut entries: Vec<(u64, Inode)> = Vec::new();
    let mut i: usize = 0;
    while i < tree.entries.len()
        invariant
            i <= tree.entries@.len(),
            entries@ == tree.entries@.take(i as int),
        decreases tree.entries@.len() - i,
    {
        let e: &(u64, Inode) = &tree.entries[i];
        entries.push((e.0, e.1));
        i = i + 1;
        assert(entries@ =~= tree.entries@.take(i as int));
    }
    assert(entries@ =~= tree.entries@);
    OrdMap { entries }
}

/// A copy of checksum records.
fn copy_records(records: &Vec<BlockChecksum>) -> (r: Vec<BlockChecksum>)
    ensures
        r@ == records@,
{
    let mut out: Vec<BlockChecksum> = Vec::new();
    let mut i: usize = 0;
    while i < records.len()
        invariant
            i <= records@.len(),
            out@ == records@.take(i as int),
        decreases records@.len() - i,
    {
        out.push(records[i]);
        i = i + 1;
        assert(out@ =~= records@.take(i as int));
    }
    assert(out@ =~= records@);
    out
}

/// The names say the same.
pub open spec fn same_names(a: Seq<DirName>, b: Seq<DirName>) -> bool {
    &&& a.len() == b.len()
    &&& forall|i: int|
        0 <= i < a.len() ==> (#[trigger] a[i]).name@ == b[i].name@ && a[i].ino == b[i].ino
}

/// Names that say the same stand for the same inodes.
proof fn lemma_same_names(a: Seq<DirName>, b: Seq<DirName>, name: Seq<char>)
    requires
        same_names(a, b),
    ensures
        snapshots::ino_of_name(a, name) == snapshots::ino_of_name(b, name),
    decreases a.len(),
{
    if a.len() > 0 {
        assert(a[0].name@ == b[0].name@);
        assert forall|i: int| 0 <= i < a.drop_first().len() implies (
        #[trigger] a.drop_first()[i]).name@ == b.drop_first()[i].name@ && a.drop_first()[i].ino
            == b.drop_first()[i].ino by {
            assert(a[i + 1].name@ == b[i + 1].name@);
        }
        lemma_same_names(a.drop_first(), b.drop_first(), name);
    }
}

/// A copy of directory names.
fn copy_names(names: &Vec<DirName>) -> (r: Vec<DirName>)
    ensures
        same_names(r@, names@),
{
    let mut out: Vec<DirName> = Vec::new();
    let mut i: usize = 0;
    while i < names.len()
        invariant
            i <= names@.len(),
            same_names(out@, names@.take(i as int)),
        decreases names@.len() - i,
    {
        let n: &DirName = &names[i];
        let ghost before = out@;
        out.push(DirName { name: n.name.clone(), ino: n.ino });
        proof {
            let seen = names@.take(i + 1);
            assert forall|k: int| 0 <= k < out@.len() implies (#[trigger] out@[k]).name@
                == seen[k].name@ && out@[k].ino == seen[k].ino by {
                if k < i {
                    assert(before[k].name@ == names@.take(i as int)[k].name@);
                }
            }
        }
        i = i + 1;
    }
    assert(names@.take(i as int) =~= names@);
    out
}

/// Putting a record in place of the first one of its block.
proof fn lemma_record_replaced(
    s: Seq<BlockChecksum>,
    i: int,
    rec: BlockChecksum,
    ino: u64,
    l: u64,
)
    requires
        0 <= i < s.len(),
        s[i].object_id == rec.object_id && s[i].logical_block == rec.logical_block,
        forall|k: int|
            0 <= k < i ==> !((#[trigger] s[k]).object_id == rec.object_id && s[k].logical_block
                == rec.logical_block),
    ensures
        snapshots::csum_of_block(s.update(i, rec), ino, l) == (if ino == rec.object_id && l
            == rec.logical_block {
            Some(rec)
        } else {
            snapshots::csum_of_block(s, ino, l)
        }),
    decreases s.len(),
{
    let t = s.update(i, rec);
    if i == 0 {
        assert(t.drop_first() =~= s.drop_first());
    } else {
        let u = s.drop_first();
        assert(t.drop_first() =~= u.update(i - 1, rec));
        assert(!(s[0].object_id == rec.object_id && s[0].logical_block == rec.logical_block));
        assert forall|k: int| 0 <= k < i - 1 implies !((#[trigger] u[k]).object_id
            == rec.object_id && u[k].logical_block == rec.logical_block) by {
            assert(u[k] == s[k + 1]);
        }
        lemma_record_replaced(u, i - 1, rec, ino, l);
    }
}

/// Putting a record behind others that are not of its block.
proof fn lemma_record_appended(s: Seq<BlockChecksum>, rec: BlockChecksum, ino: u64, l: u64)
    requires
        forall|k: int|
            0 <= k < s.len() ==> !((#[trigger] s[k]).object_id == rec.object_id
                && s[k].logical_block == rec.logical_block),
    ensures
        snapshots::csum_of_block(s.push(rec), ino, l) == (if ino == rec.object_id && l
            == rec.logical_block {
            Some(rec)
        } else {
            snapshots::csum_of_block(s, ino, l)
        }),
    decreases s.len(),
{
    let t = s.push(rec);
    if s.len() == 0 {
        assert(t.drop_first() =~= s);
    } else {
        let u = s.drop_first();
        assert(t.drop_first() =~= u.push(rec));
        assert(!(s[0].object_id == rec.object_id && s[0].logical_block == rec.logical_block));
        assert forall|k: int| 0 <= k < u.len() implies !((#[trigger] u[k]).object_id
            == rec.object_id && u[k].logical_block == rec.logical_block) by {
            assert(u[k] == s[k + 1]);
        }
        lemma_record_appended(u, rec, ino, l);
    }
}

/// Puts the record in place of the one of its block.
fn put_record(records: &mut Vec<BlockChecksum>, rec: BlockChecksum)
    ensures
        forall|ino: u64, l: u64|
            (#[trigger] snapshots::csum_of_block(final(records)@, ino, l)) == (if ino
                == rec.object_id && l == rec.logical_block {
                Some(rec)
            } else {
                snapshots::csum_of_block(old(records)@, ino, l)
            }),
{
    let ghost s = records@;
    let mut i: usize = 0;
    while i < records.len()
        invariant
            s == records@,
            s == old(records)@,
            i <= s.len(),
            forall|k: int|
                0 <= k < i ==> !((#[trigger] s[k]).object_id == rec.object_id && s[k].logical_block
                    == rec.logical_block),
        decreases s.len() - i,
    {
        if records[i].object_id == rec.object_id && records[i].logical_block == rec.logical_block {
            proof {
                assert forall|ino: u64, l: u64|
                    (#[trigger] snapshots::csum_of_block(s.update(i as int, rec), ino, l)) == (if ino
                        == rec.object_id && l == rec.logical_block {
                        Some(rec)
                    } else {
                        snapshots::csum_of_block(s, ino, l)
                    }) by {
                    lemma_record_replaced(s, i as int, rec, ino, l);
                }
            }
            records.set(i, rec);
            return;
        }
        i = i + 1;
    }
    proof {
        assert forall|ino: u64, l: u64|
            (#[trigger] snapshots::csum_of_block(s.push(rec), ino, l)) == (if ino == rec.object_id
                && l == rec.logical_block {
                Some(rec)
            } else {
                snapshots::csum_of_block(s, ino, l)
            }) by {
            lemma_record_appended(s, rec, ino, l);
        }
    }
    records.push(rec);
}

/// Putting a name in place of the first one that is the same.
proof fn lemma_name_replaced(s: Seq<DirName>, i: int, e: DirName, name: Seq<char>)
    requires
        0 <= i < s.len(),
        s[i].name@ == e.name@,
        forall|k: int| 0 <= k < i ==> (#[trigger] s[k]).name@ != e.name@,
    ensures
        snapshots::ino_of_name(s.update(i, e), name) == (if name == e.name@ {
            Some(e.ino)
        } else {
            snapshots::ino_of_name(s, name)
        }),
    decreases s.len(),
{
    let t = s.update(i, e);
    if i == 0 {
        assert(t.drop_first() =~= s.drop_first());
    } else {
        let u = s.drop_first();
        assert(t.drop_first() =~= u.update(i - 1, e));
        assert(s[0].name@ != e.name@);
        assert forall|k: int| 0 <= k < i - 1 implies (#[trigger] u[k]).name@ != e.name@ by {
            assert(u[k] == s[k + 1]);
        }
        lemma_name_replaced(u, i - 1, e, name);
    }
}

/// Putting a name behind others that differ.
proof fn lemma_name_appended(s: Seq<DirName>, e: DirName, name: Seq<char>)
    requires
        forall|k: int| 0 <= k < s.len() ==> (#[trigger] s[k]).name@ != e.name@,
    ensures
        snapshots::ino_of_name(s.push(e), name) == (if name == e.name@ {
            Some(e.ino)
        } else {
            snapshots::ino_of_name(s, name)
        }),
    decreases s.len(),
{
    let t = s.push(e);
    if s.len() == 0 {
        assert(t.drop_first() =~= s);
    } else {
        let u = s.drop_first();
        assert(t.drop_first() =~= u.push(e));
        assert(s[0].name@ != e.name@);
        assert forall|k: int| 0 <= k < u.len() implies (#[trigger] u[k]).name@ != e.name@ by {
            assert(u[k] == s[k + 1]);
        }
        lemma_name_appended(u, e, name);
    }
}

/// Lets the name stand for the inode.
fn put_entry(names: &mut Vec<DirName>, e: DirName)
    ensures
        forall|name: Seq<char>|
            (#[trigger] snapshots::ino_of_name(final(names)@, name)) == (if name == e.name@ {
                Some(e.ino)
            } else {
                snapshots::ino_of_name(old(names)@, name)
            }),
{
    let ghost s = names@;
    let mut i: usize = 0;
    while i < names.len()
        invariant
            s == names@,
            s == old(names)@,
            i <= s.len(),
            forall|k: int| 0 <= k < i ==> (#[trigger] s[k]).name@ != e.name@,
        decreases s.len() - i,
    {
        if text::same_text(names[i].name.as_str(), e.name.as_str()) {
            proof {
                assert forall|name: Seq<char>|
                    (#[trigger] snapshots::ino_of_name(s.update(i as int, e), name)) == (if name
                        == e.name@ {
                        Some(e.ino)
                    } else {
                        snapshots::ino_of_name(s, name)
                    }) by {
                    lemma_name_replaced(s, i as int, e, name);
                }
            }
            names.set(i, e);
            return;
        }
        i = i + 1;
    }
    proof {
        assert forall|name: Seq<char>|
            (#[trigger] snapshots::ino_of_name(s.push(e), name)) == (if name == e.name@ {
                Some(e.ino)
            } else {
                snapshots::ino_of_name(s, name)
            }) by {
            lemma_name_appended(s, e, name);
        }
    }
    names.push(e);
}

/// The inode that a name stands for in the tree at `root`.
pub open spec fn name_at(store: TreeStore, root: u64, name: Seq<char>) -> Option<u64> {
    if store.dirs@.contains_key(root) {
        snapshots::ino_of_name(store.dirs@[root]@, name)
    } else {
        None
    }
}

impl TreeStore {
    /// Writes an inode to the live tree that is known by `root`. Says whether
    /// the tree had to be copied.
    pub fn put_inode(&mut self, roots: &mut CowRoots, root: u64, inode: Inode) -> (copied: bool)
        requires
            can_change(*old(self), *old(roots), root),
            extents::inode_ok(inode),
        ensures
            final(self).wf(),
            final(roots).wf(),
            clear_of(*final(self), *final(roots)),
            made_ready(*old(roots), *final(roots), root, final(roots).live(root), copied),
            forall|r: u64, ino: u64|
                (#[trigger] final(self).inode_at(r, ino)) == (if r == final(roots).live(root) {
                    if ino == inode.ino {
                        Some(inode)
                    } else {
                        old(self).inode_at(old(roots).live(root), ino)
                    }
                } else {
                    old(self).inode_at(r, ino)
                }),
            final(self).dirs == old(self).dirs,
            final(self).csums == old(self).csums,
            final(self).spills == old(self).spills,
    {
        let from: u64 = roots.effective_root(root);
        let (to, copied) = roots.ready(root);
        let ghost a = *self;
        let mut tree: OrdMap<Inode> = if copied {
            match self.inodes.get(from) {
                Some(tree) => copy_inodes(tree),
                None => OrdMap::new(),
            }
        } else {
            match self.inodes.take(from) {
                Some(tree) => tree,
                None => OrdMap::new(),
            }
        };
        let ghost before = tree;
        proof {
            assert(snapshots::inode_tree_ok(before)) by {
                if a.inodes@.contains_key(from) {
                    assert(snapshots::inode_tree_ok(a.inodes@[from]));
                    assert(before.entries() =~= a.inodes@[from].entries());
                }
            }
            lemma_tree_ok(before);
        }
        tree.insert(inode.ino, inode);
        proof {
            assert(inode_tree_sound(tree)) by {
                assert forall|k: u64| #[trigger] tree@.contains_key(k) implies extents::inode_ok(
                    tree@[k],
                ) by {
                    if k != inode.ino {
                        assert(before@.contains_key(k));
                    }
                }
            }
            lemma_tree_ok(tree);
        }
        self.inodes.insert(to, tree);
        proof {
            assert(self.inodes@ =~= a.inodes@.insert(to, tree));
            assert forall|r: u64| #[trigger]
                self.inodes@.contains_key(r) implies snapshots::inode_tree_ok(self.inodes@[r]) by {
                if r != to {
                    assert(a.inodes@.contains_key(r));
                }
            }
            assert forall|r: u64| #[trigger] self.inodes@.contains_key(r) implies r < roots.next by {
                if r != to {
                    assert(a.inodes@.contains_key(r));
                }
            }
            assert forall|ino: u64| before@.contains_key(ino) <==> #[trigger] a.inode_at(
                from,
                ino,
            ) is Some by {}
        }
        copied
    }

    /// Writes a checksum record to the live tree that is known by `root`. Says
    /// whether the tree had to be copied.
    pub fn put_checksum(&mut self, roots: &mut CowRoots, root: u64, rec: BlockChecksum) -> (copied:
        bool)
        requires
            can_change(*old(self), *old(roots), root),
        ensures
            final(self).wf(),
            final(roots).wf(),
            clear_of(*final(self), *final(roots)),
            made_ready(*old(roots), *final(roots), root, final(roots).live(root), copied),
            forall|r: u64|
                r != final(roots).live(root) ==> (#[trigger] final(self).csum_records(r))
                    == old(self).csum_records(r),
            forall|ino: u64, l: u64|
                (#[trigger] snapshots::csum_of_block(
                    final(self).csum_records(final(roots).live(root)),
                    ino,
                    l,
                )) == (if ino == rec.object_id && l == rec.logical_block {
                    Some(rec)
                } else {
                    snapshots::csum_of_block(
                        old(self).csum_records(old(roots).live(root)),
                        ino,
                        l,
                    )
                }),
            final(self).inodes == old(self).inodes,
            final(self).dirs == old(self).dirs,
            final(self).spills == old(self).spills,
    {
        let from: u64 = roots.effective_root(root);
        let (to, copied) = roots.ready(root);
        let ghost a = *self;
        let mut records: Vec<BlockChecksum> = if copied {
            match self.csums.get(from) {
                Some(records) => copy_records(records),
                None => Vec::new(),
            }
        } else {
            match self.csums.take(from) {
                Some(records) => records,
                None => Vec::new(),
            }
        };
        assert(records@ =~= a.csum_records(from));
        put_record(&mut records, rec);
        self.csums.insert(to, records);
        proof {
            assert(self.csums@ =~= a.csums@.insert(to, records));
            assert forall|r: u64| #[trigger] self.csums@.contains_key(r) implies r < roots.next by {
                if r != to {
                    assert(a.csums@.contains_key(r));
                }
            }
        }
        copied
    }

    /// Writes a name to the live tree that is known by `root`. Says whether the
    /// tree had to be copied.
    pub fn put_name(&mut self, roots: &mut CowRoots, root: u64, name: &str, ino: u64) -> (copied:
        bool)
        requires
            can_change(*old(self), *old(roots), root),
        ensures
            final(self).wf(),
            final(roots).wf(),
            clear_of(*final(self), *final(roots)),
            made_ready(*old(roots), *final(roots), root, final(roots).live(root), copied),
            forall|r: u64, n: Seq<char>|
                (#[trigger] name_at(*final(self), r, n)) == (if r == final(roots).live(root) {
                    if n == name@ {
                        Some(ino)
                    } else {
                        name_at(*old(self), old(roots).live(root), n)
                    }
                } else {
                    name_at(*old(self), r, n)
                }),
            final(self).inodes == old(self).inodes,
            final(self).csums == old(self).csums,
            final(self).spills == old(self).spills,
    {
        let from: u64 = roots.effective_root(root);
        let (to, copied) = roots.ready(root);
        let ghost a = *self;
        let mut names: Vec<DirName> = if copied {
            match self.dirs.get(from) {
                Some(names) => copy_names(names),
                None => Vec::new(),
            }
        } else {
            match self.dirs.take(from) {
                Some(names) => names,
                None => Vec::new(),
            }
        };
        proof {
            assert forall|n: Seq<char>| (#[trigger] snapshots::ino_of_name(names@, n)) == name_at(
                a,
                from,
                n,
            ) by {
                if copied && a.dirs@.contains_key(from) {
                    lemma_same_names(names@, a.dirs@[from]@, n);
                }
            }
        }
        let ghost before = names@;
        put_entry(&mut names, DirName { name: name.to_string(), ino });
        self.dirs.insert(to, names);
        proof {
            assert(self.dirs@ =~= a.dirs@.insert(to, names));
            assert forall|r: u64| #[trigger] self.dirs@.contains_key(r) implies r < roots.next by {
                if r != to {
                    assert(a.dirs@.contains_key(r));
                }
            }
            assert forall|r: u64, n: Seq<char>| (#[trigger] name_at(*self, r, n)) == (if r == to {
                if n == name@ {
                    Some(ino)
                } else {
                    name_at(a, from, n)
                }
            } else {
                name_at(a, r, n)
            }) by {
                if r == to {
                    assert(snapshots::ino_of_name(before, n) == name_at(a, from, n));
                }
            }
        }
        copied
    }

    /// The inode in the live tree that is known by `root`.
    pub fn find_inode(&self, roots: &CowRoots, root: u64, ino: u64) -> (r: Option<Inode>)
        requires
            self.wf(),
            roots.wf(),
        ensures
            r == self.inode_at(roots.live(root), ino),
    {
        match self.inodes.get(roots.effective_root(root)) {
            Some(tree) => {
                proof {
                    assert(snapshots::inode_tree_ok(*tree));
                }
                tree.lookup(ino)
            },
            None => None,
        }
    }
}

/// A change to a live tree changes nothing that a snapshot sees: the change
/// never goes to a root that is frozen.
pub proof fn snapshots_keep_their_trees(
    a: CowRoots,
    b: CowRoots,
    root: u64,
    copied: bool,
    record: SnapshotRecord,
)
    requires
        made_ready(a, b, root, b.live(root), copied),
        a.frozen(record.inode_tree_root) && record.inode_tree_root < a.next,
        a.frozen(record.dir_tree_root) && record.dir_tree_root < a.next,
        a.frozen(record.checksum_tree_root) && record.checksum_tree_root < a.next,
    ensures
        record.inode_tree_root != b.live(root),
        record.dir_tree_root != b.live(root),
        record.checksum_tree_root != b.live(root),
        b.frozen(record.inode_tree_root),
        b.frozen(record.dir_tree_root),
        b.frozen(record.checksum_tree_root),
{
}

/// What a snapshot sees of an inode is the same after an inode is written to
/// the live tree.
pub proof fn seen_inodes_are_frozen(
    a: TreeStore,
    b: TreeStore,
    ra: CowRoots,
    rb: CowRoots,
    root: u64,
    copied: bool,
    records: Map<u64, SnapshotRecord>,
    snapshot_id: u64,
    ino: u64,
)
    requires
        made_ready(ra, rb, root, rb.live(root), copied),
        forall|r: u64, i: u64|
            r != rb.live(root) ==> (#[trigger] b.inode_at(r, i)) == a.inode_at(r, i),
        records.contains_key(snapshot_id),
        ra.frozen(records[snapshot_id].inode_tree_root),
        records[snapshot_id].inode_tree_root < ra.next,
    ensures
        snapshots::seen_inode(records, b, snapshot_id, ino) == snapshots::seen_inode(
            records,
            a,
            snapshot_id,
            ino,
        ),
{
    let r = records[snapshot_id].inode_tree_root;
    assert(b.inode_at(r, ino) == a.inode_at(r, ino));
}

/// Between two snapshots a tree is copied at most once: after one change the
/// next one goes to the same root.
pub proof fn copies_once_per_epoch(
    a: CowRoots,
    b: CowRoots,
    c: CowRoots,
    root: u64,
    first: bool,
    second: bool,
)
    requires
        made_ready(a, b, root, b.live(root), first),
        made_ready(b, c, root, c.live(root), second),
    ensures
        !second,
        c.live(root) == b.live(root),
{
}

/// Lowering the barrier thaws the trees that were changed after it.
pub proof fn lower_barrier_thaws(a: CowRoots, b: CowRoots, root: u64)
    requires
        b == (CowRoots { barrier: b.barrier, ..a }),
        b.barrier <= a.barrier,
    ensures
        b.frozen(root) ==> a.frozen(root),
        a.stamps@.contains_key(root) && b.barrier < a.stamps@[root] ==> !b.frozen(root),
{
}

/// The trees of an image, where the live ones are, and the snapshots, at one
/// moment of the life of the image.
pub struct Era {
    /// The trees.
    pub store: TreeStore,
    /// Where the live trees are.
    pub roots: CowRoots,
    /// The snapshots.
    pub records: Map<u64, SnapshotRecord>,
}

/// The tree at `root` was last changed at `generation` or before.
pub open spec fn settled_by(roots: CowRoots, root: u64, generation: u64) -> bool {
    &&& root < roots.next
    &&& roots.stamps@.contains_key(root) ==> roots.stamps@[root] <= generation
}

/// No tree is newer than the stamp, and the trees of every snapshot were last
/// changed when the snapshot was made or before, which the barrier covers.
pub open spec fn consistent(e: Era) -> bool {
    &&& e.roots.barrier < e.roots.stamp
    &&& forall|b: u64| #[trigger]
        e.roots.stamps@.contains_key(b) ==> e.roots.stamps@[b] <= e.roots.stamp
    &&& forall|id: u64| #[trigger]
        e.records.contains_key(id) ==> {
            let rec = e.records[id];
            &&& rec.generation <= e.roots.barrier
            &&& settled_by(e.roots, rec.inode_tree_root, rec.generation)
            &&& settled_by(e.roots, rec.dir_tree_root, rec.generation)
            &&& settled_by(e.roots, rec.checksum_tree_root, rec.generation)
        }
}

/// A snapshot was made, as `create_snapshot` makes it, of trees that are
/// there, at a stamp that none of them is newer than. Changes that follow get
/// a stamp beyond the barrier.
pub open spec fn snapshot_made(
    a: Era,
    b: Era,
    sb: Superblock,
    moment: SnapshotMoment,
    id: u64,
    parent: u64,
) -> bool {
    &&& !a.records.contains_key(id)
    &&& b.records == a.records.insert(id, snapshots::record_of(sb, moment, id, parent))
    &&& b.store == a.store
    &&& a.roots.stamp <= moment.node_stamp
    &&& moment.inode_tree_root < a.roots.next
    &&& moment.dir_tree_root < a.roots.next
    &&& moment.checksum_tree_root < a.roots.next
    &&& b.roots == (CowRoots {
        barrier: if a.roots.barrier > snapshots::barrier_of(moment) {
            a.roots.barrier
        } else {
            snapshots::barrier_of(moment)
        },
        stamp: b.roots.stamp,
        ..a.roots
    })
    &&& b.roots.barrier < b.roots.stamp
    &&& a.roots.stamp <= b.roots.stamp
}

/// A live tree was changed, as `put_inode`, `put_name` and `put_checksum`
/// change it: no other tree was.
pub open spec fn tree_changed(a: Era, b: Era, root: u64, copied: bool) -> bool {
    let to = b.roots.live(root);
    &&& made_ready(a.roots, b.roots, root, to, copied)
    &&& b.records == a.records
    &&& forall|r: u64, ino: u64|
        r != to ==> (#[trigger] b.store.inode_at(r, ino)) == a.store.inode_at(r, ino)
    &&& forall|r: u64, name: Seq<char>|
        r != to ==> (#[trigger] name_at(b.store, r, name)) == name_at(a.store, r, name)
    &&& forall|r: u64|
        r != to ==> (#[trigger] b.store.csum_records(r)) == a.store.csum_records(r)
}

/// A snapshot was deleted, as `delete_snapshot` deletes it.
pub open spec fn snapshot_deleted(a: Era, b: Era, id: u64) -> bool {
    &&& a.records.contains_key(id)
    &&& b.records == a.records.remove(id)
    &&& b.store == a.store
    &&& b.roots == (CowRoots { barrier: b.roots.barrier, ..a.roots })
    &&& snapshots::is_barrier(b.records, b.roots.barrier)
}

/// Anything happened but that the snapshot was deleted.
pub open spec fn went_on(a: Era, b: Era, id: u64) -> bool {
    ||| exists|sb: Superblock, moment: SnapshotMoment, other: u64, parent: u64| #[trigger]
        snapshot_made(a, b, sb, moment, other, parent)
    ||| exists|root: u64, copied: bool| #[trigger] tree_changed(a, b, root, copied)
    ||| exists|other: u64| other != id && #[trigger] snapshot_deleted(a, b, other)
}

/// Whatever happens, but that the snapshot is deleted, the snapshot is there
/// and sees what it saw.
proof fn lemma_goes_on(a: Era, b: Era, id: u64, ino: u64, name: Seq<char>, l: u64)
    requires
        consistent(a),
        a.records.contains_key(id),
        went_on(a, b, id),
    ensures
        consistent(b),
        b.records.contains_key(id),
        b.records[id] == a.records[id],
        snapshots::seen_inode(b.records, b.store, id, ino) == snapshots::seen_inode(
            a.records,
            a.store,
            id,
            ino,
        ),
        snapshots::seen_name(b.records, b.store, id, name) == snapshots::seen_name(
            a.records,
            a.store,
            id,
            name,
        ),
        snapshots::seen_csum(b.records, b.store, id, ino, l) == snapshots::seen_csum(
            a.records,
            a.store,
            id,
            ino,
            l,
        ),
{
    let rec = a.records[id];
    if exists|root: u64, copied: bool| #[trigger] tree_changed(a, b, root, copied) {
        let (root, copied) = choose|root: u64, copied: bool| #[trigger]
            tree_changed(a, b, root, copied);
        lemma_change_keeps(a, b, root, copied);
        assert(rec.inode_tree_root != b.roots.live(root));
        assert(rec.dir_tree_root != b.roots.live(root));
        assert(rec.checksum_tree_root != b.roots.live(root));
        assert(b.store.inode_at(rec.inode_tree_root, ino) == a.store.inode_at(
            rec.inode_tree_root,
            ino,
        ));
        assert(name_at(b.store, rec.dir_tree_root, name) == name_at(
            a.store,
            rec.dir_tree_root,
            name,
        ));
        assert(b.store.csum_records(rec.checksum_tree_root) == a.store.csum_records(
            rec.checksum_tree_root,
        ));
    } else if exists|sb: Superblock, moment: SnapshotMoment, other: u64, parent: u64| #[trigger]
        snapshot_made(a, b, sb, moment, other, parent) {
        let (sb, moment, other, parent) = choose|
            sb: Superblock,
            moment: SnapshotMoment,
            other: u64,
            parent: u64,
        | #[trigger] snapshot_made(a, b, sb, moment, other, parent);
        lemma_making_keeps(a, b, sb, moment, other, parent);
    } else {
        let other = choose|other: u64| other != id && #[trigger] snapshot_deleted(a, b, other);
        assert(b.roots.barrier <= a.roots.barrier) by {
            if b.roots.barrier != 0 {
                let i = choose|i: u64| #[trigger]
                    b.records.contains_key(i) && b.records[i].generation == b.roots.barrier;
                assert(a.records.contains_key(i));
            }
        }
        assert forall|i: u64| #[trigger] b.records.contains_key(i) implies a.records.contains_key(
            i,
        ) && b.records[i] == a.records[i] && b.records[i].generation <= b.roots.barrier by {}
        assert(consistent(b));
    }
}

/// Changing a tree goes to none that a snapshot has.
proof fn lemma_change_keeps(a: Era, b: Era, root: u64, copied: bool)
    requires
        consistent(a),
        tree_changed(a, b, root, copied),
    ensures
        consistent(b),
        forall|id: u64| #[trigger]
            a.records.contains_key(id) ==> {
                let rec = a.records[id];
                let to = b.roots.live(root);
                rec.inode_tree_root != to && rec.dir_tree_root != to && rec.checksum_tree_root
                    != to
            },
{
    let to = b.roots.live(root);
    assert forall|b2: u64| #[trigger] b.roots.stamps@.contains_key(b2) implies b.roots.stamps@[b2]
        <= b.roots.stamp by {
        if b2 != to {
            assert(a.roots.stamps@.contains_key(b2));
        }
    }
    assert forall|id: u64| #[trigger] a.records.contains_key(id) implies ({
        let rec = a.records[id];
        &&& rec.inode_tree_root != to
        &&& rec.dir_tree_root != to
        &&& rec.checksum_tree_root != to
        &&& settled_by(b.roots, rec.inode_tree_root, rec.generation)
        &&& settled_by(b.roots, rec.dir_tree_root, rec.generation)
        &&& settled_by(b.roots, rec.checksum_tree_root, rec.generation)
    }) by {
        let rec = a.records[id];
        lemma_root_spared(a.roots, b.roots, root, copied, rec.inode_tree_root, rec.generation);
        lemma_root_spared(a.roots, b.roots, root, copied, rec.dir_tree_root, rec.generation);
        lemma_root_spared(a.roots, b.roots, root, copied, rec.checksum_tree_root, rec.generation);
    }
}

/// A tree that was last changed before the barrier is not where a change goes.
proof fn lemma_root_spared(
    a: CowRoots,
    b: CowRoots,
    root: u64,
    copied: bool,
    kept: u64,
    generation: u64,
)
    requires
        made_ready(a, b, root, b.live(root), copied),
        settled_by(a, kept, generation),
        generation <= a.barrier,
    ensures
        kept != b.live(root),
        settled_by(b, kept, generation),
{
    assert(a.frozen(kept));
}

/// Making a snapshot keeps everything as it should be.
proof fn lemma_making_keeps(
    a: Era,
    b: Era,
    sb: Superblock,
    moment: SnapshotMoment,
    id: u64,
    parent: u64,
)
    requires
        consistent(a),
        snapshot_made(a, b, sb, moment, id, parent),
    ensures
        consistent(b),
{
    let rec = snapshots::record_of(sb, moment, id, parent);
    assert forall|i: u64| #[trigger] b.records.contains_key(i) implies ({
        let r = b.records[i];
        &&& r.generation <= b.roots.barrier
        &&& settled_by(b.roots, r.inode_tree_root, r.generation)
        &&& settled_by(b.roots, r.dir_tree_root, r.generation)
        &&& settled_by(b.roots, r.checksum_tree_root, r.generation)
    }) by {
        if i == id {
            assert(b.records[i] == rec);
        } else {
            assert(a.records.contains_key(i));
        }
    }
    assert forall|b2: u64| #[trigger] b.roots.stamps@.contains_key(b2) implies b.roots.stamps@[b2]
        <= b.roots.stamp by {
        assert(a.roots.stamps@.contains_key(b2));
    }
}

/// A snapshot sees the trees as they were when it was made, over any history
/// of changes to the live trees and of making and deleting other snapshots:
/// inodes, names and checksum records.
pub proof fn snapshot_view_never_changes(
    before: Era,
    history: Seq<Era>,
    sb: Superblock,
    moment: SnapshotMoment,
    id: u64,
    parent: u64,
    ino: u64,
    name: Seq<char>,
    l: u64,
)
    requires
        consistent(before),
        history.len() > 0,
        snapshot_made(before, history[0], sb, moment, id, parent),
        forall|i: int|
            0 <= i < history.len() - 1 ==> went_on(#[trigger] history[i], history[i + 1], id),
    ensures
        ({
            let now = history.last();
            &&& now.records.contains_key(id)
            &&& snapshots::seen_inode(now.records, now.store, id, ino) == before.store.inode_at(
                moment.inode_tree_root,
                ino,
            )
            &&& snapshots::seen_name(now.records, now.store, id, name) == name_at(
                before.store,
                moment.dir_tree_root,
                name,
            )
            &&& snapshots::seen_csum(now.records, now.store, id, ino, l)
                == snapshots::csum_of_block(
                before.store.csum_records(moment.checksum_tree_root),
                ino,
                l,
            )
            &&& consistent(now)
        }),
    decreases history.len(),
{
    lemma_making_keeps(before, history[0], sb, moment, id, parent);
    if history.len() > 1 {
        let rest = history.drop_last();
        assert forall|i: int| 0 <= i < rest.len() - 1 implies went_on(
            #[trigger] rest[i],
            rest[i + 1],
            id,
        ) by {
            assert(rest[i] == history[i] && rest[i + 1] == history[i + 1]);
        }
        snapshot_view_never_changes(before, rest, sb, moment, id, parent, ino, name, l);
        let last = history.len() - 1;
        assert(went_on(history[last - 1], history[last - 1 + 1], id));
        lemma_goes_on(rest.last(), history.last(), id, ino, name, l);
    }
}

/// An image without snapshots is as it should be once its trees are planted:
/// no tree is newer than the stamp.
pub proof fn planted_trees_are_consistent(e: Era)
    requires
        e.records == Map::<u64, SnapshotRecord>::empty(),
        e.roots.barrier < e.roots.stamp,
        forall|b: u64| #[trigger]
            e.roots.stamps@.contains_key(b) ==> e.roots.stamps@[b] == e.roots.stamp,
    ensures
        consistent(e),
{
}

} // verus!
