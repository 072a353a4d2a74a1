//! What the operations on names promise of one another.

use crate::fs::vfs_impl;
use crate::fs::vfs_names;
use crate::fs::volume;
use crate::fs::volume::{Entry, VolumeView};
use crate::ondisk::serialization::Inode;
use crate::posix;
use vstd::prelude::*;

verus! {

/// What a lookup finds of a name.
pub open spec fn looked_up(v: VolumeView, dir: u64, name: Seq<char>) -> Option<Inode> {
    vfs_impl::found_inode(volume::real_entries(v.listing(dir)), name, v.inodes)
}

/// The number of the inode that a lookup finds of a name.
pub open spec fn found_ino(v: VolumeView, dir: u64, name: Seq<char>) -> Option<u64> {
    match looked_up(v, dir, name) {
        Some(inode) => Some(inode.ino),
        None => None,
    }
}

/// The name is one that a listing shows.
pub open spec fn shown(name: Seq<char>) -> bool {
    name != seq!['.'] && name != seq!['.', '.']
}

/// The inodes and the names of a volume are sound.
pub open spec fn sound(v: VolumeView) -> bool {
    &&& volume::inodes_ok(v.inodes, v.data, v.sb.next_ino)
    &&& volume::dirs_ok(v.dirs, v.limits.dir_entries)
}

/// Every other name stands for what it stood for.
pub open spec fn other_names_kept(
    a: VolumeView,
    b: VolumeView,
    changed: Set<(u64, Seq<char>)>,
) -> bool {
    forall|dir: u64, other: Seq<char>|
        !changed.contains((dir, other)) ==> {
            &&& #[trigger] b.has_entry(dir, other) == a.has_entry(dir, other)
            &&& a.has_entry(dir, other) ==> b.entry_ino(dir, other) == a.entry_ino(dir, other)
        }
}

proof fn lemma_listing_ok(v: VolumeView, dir: u64)
    requires
        volume::dirs_ok(v.dirs, v.limits.dir_entries),
    ensures
        volume::distinct_names(v.listing(dir)),
        v.listing(dir).len() <= v.limits.dir_entries,
{
    reveal(volume::dirs_ok);
}

/// Where names occur once, a name is where it is seen.
proof fn lemma_pos_is(s: Seq<Entry>, name: Seq<char>, i: int)
    requires
        volume::distinct_names(s),
        0 <= i < s.len(),
        s[i].name == name,
    ensures
        volume::entry_pos(s, name) == i,
{
    volume::lemma_entry_pos(s, name);
    let p = volume::entry_pos(s, name) as int;
    if p == s.len() {
        assert(s[i].name != name);
    } else if p < i {
        assert(s[p].name != s[i].name);
    } else if i < p {
        assert(s[i].name != s[p].name);
    }
}

proof fn lemma_absent_not_found(s: Seq<Entry>, name: Seq<char>, inodes: Map<u64, Inode>)
    requires
        volume::absent(s, name),
    ensures
        vfs_impl::found_inode(s, name, inodes) is None,
    decreases s.len(),
{
    if s.len() > 0 {
        let t = s.drop_first();
        assert forall|i: int| 0 <= i < t.len() implies (#[trigger] t[i]).name != name by {
            assert(t[i] == s[i + 1]);
        }
        lemma_absent_not_found(t, name, inodes);
    }
}

/// What a search finds where names occur once.
proof fn lemma_found_at(s: Seq<Entry>, i: int, inodes: Map<u64, Inode>)
    requires
        volume::distinct_names(s),
        0 <= i < s.len(),
    ensures
        vfs_impl::found_inode(s, s[i].name, inodes) == (if inodes.contains_key(s[i].ino) {
            Some(inodes[s[i].ino])
        } else {
            None
        }),
    decreases s.len(),
{
    let t = s.drop_first();
    assert forall|a: int, b: int| 0 <= a < b < t.len() implies (#[trigger] t[a]).name != (
    #[trigger] t[b]).name by {
        assert(t[a] == s[a + 1]);
        assert(t[b] == s[b + 1]);
    }
    if i == 0 {
        assert forall|a: int| 0 <= a < t.len() implies (#[trigger] t[a]).name != s[0].name by {
            assert(t[a] == s[a + 1]);
        }
        lemma_absent_not_found(t, s[0].name, inodes);
    } else {
        assert(s[0].name != s[i].name);
        assert(t[i - 1] == s[i]);
        lemma_found_at(t, i - 1, inodes);
    }
}

/// The entries that a listing shows have names that occur once, too, and are
/// those of the directory.
proof fn lemma_shown_entries(s: Seq<Entry>)
    requires
        volume::distinct_names(s),
    ensures
        volume::distinct_names(volume::real_entries(s)),
        forall|e: Entry| #[trigger]
            volume::real_entries(s).contains(e) <==> s.contains(e) && !volume::is_dot(e),
    decreases s.len(),
{
    let p = |e: Entry| !volume::is_dot(e);
    reveal(Seq::filter);
    if s.len() > 0 {
        let t = s.drop_last();
        assert forall|a: int, b: int| 0 <= a < b < t.len() implies (#[trigger] t[a]).name != (
        #[trigger] t[b]).name by {
            assert(t[a] == s[a]);
            assert(t[b] == s[b]);
        }
        lemma_shown_entries(t);
        let rt = volume::real_entries(t);
        let r = volume::real_entries(s);
        assert forall|e: Entry| s.contains(e) <==> t.contains(e) || e == s.last() by {
            if s.contains(e) {
                let k = choose|k: int| 0 <= k < s.len() && s[k] == e;
                if k < t.len() {
                    assert(t[k] == e);
                }
            }
            if t.contains(e) {
                let k = choose|k: int| 0 <= k < t.len() && t[k] == e;
                assert(s[k] == e);
            }
            if e == s.last() {
                assert(s[s.len() - 1] == e);
            }
        }
        if p(s.last()) {
            assert(r == rt.push(s.last()));
            assert forall|a: int, b: int| 0 <= a < b < r.len() implies (#[trigger] r[a]).name
                != (#[trigger] r[b]).name by {
                assert(r[a] == rt[a]);
                if b < rt.len() {
                    assert(r[b] == rt[b]);
                } else {
                    assert(rt.contains(rt[a]));
                    let k = choose|k: int| 0 <= k < t.len() && t[k] == rt[a];
                    assert(s[k] == rt[a]);
                    assert(s[k].name != s[s.len() - 1].name);
                }
            }
            assert forall|e: Entry| #[trigger] r.contains(e) <==> rt.contains(e) || e
                == s.last() by {
                if r.contains(e) {
                    let k = choose|k: int| 0 <= k < r.len() && r[k] == e;
                    if k < rt.len() {
                        assert(rt[k] == e);
                    }
                }
                if rt.contains(e) {
                    let k = choose|k: int| 0 <= k < rt.len() && rt[k] == e;
                    assert(r[k] == e);
                }
                if e == s.last() {
                    assert(r[r.len() - 1] == e);
                }
            }
        } else {
            assert(r == rt);
        }
    }
}

/// What a lookup finds is what the entry of the name stands for.
proof fn lemma_looked_up(v: VolumeView, dir: u64, name: Seq<char>)
    requires
        volume::distinct_names(v.listing(dir)),
        shown(name),
    ensures
        looked_up(v, dir, name) == (if v.has_entry(dir, name) && v.inodes.contains_key(
            v.entry_ino(dir, name),
        ) {
            Some(v.inodes[v.entry_ino(dir, name)])
        } else {
            None
        }),
{
    let s = v.listing(dir);
    let r = volume::real_entries(s);
    volume::lemma_entry_pos(s, name);
    lemma_shown_entries(s);
    if v.has_entry(dir, name) {
        let e = s[volume::entry_pos(s, name) as int];
        assert(s.contains(e));
        assert(r.contains(e));
        let k = choose|k: int| 0 <= k < r.len() && r[k] == e;
        lemma_found_at(r, k, v.inodes);
    } else {
        assert forall|i: int| 0 <= i < r.len() implies (#[trigger] r[i]).name != name by {
            assert(r.contains(r[i]));
            let k = choose|k: int| 0 <= k < s.len() && s[k] == r[i];
            assert(s[k].name != name);
        }
        lemma_absent_not_found(r, name, v.inodes);
    }
}

/// Linking a name that is not there adds that name and no other.
proof fn lemma_linked(v: VolumeView, dir: u64, e: Entry)
    requires
        volume::dirs_ok(v.dirs, v.limits.dir_entries),
        v.takes_entry(dir, e.name),
    ensures
        volume::dirs_ok(v.with_entry(dir, e).dirs, v.limits.dir_entries),
        v.with_entry(dir, e).has_entry(dir, e.name),
        v.with_entry(dir, e).entry_ino(dir, e.name) == e.ino,
        other_names_kept(v, v.with_entry(dir, e), set![(dir, e.name)]),
{
    let s = v.listing(dir);
    let w = v.with_entry(dir, e);
    let t = w.listing(dir);
    volume::lemma_entry_pos(s, e.name);
    volume::lemma_dirs_grown(v.dirs, dir, s, e, v.limits.dir_entries);
    lemma_listing_ok(v, dir);
    lemma_listing_ok(w, dir);
    assert(t == s.push(e));
    lemma_pos_is(t, e.name, s.len() as int);
    assert forall|d: u64, other: Seq<char>| !set![(dir, e.name)].contains((d, other)) implies {
        &&& #[trigger] w.has_entry(d, other) == v.has_entry(d, other)
        &&& v.has_entry(d, other) ==> w.entry_ino(d, other) == v.entry_ino(d, other)
    } by {
        if d == dir {
            volume::lemma_entry_pos(s, other);
            volume::lemma_entry_pos(t, other);
            if v.has_entry(d, other) {
                let p = volume::entry_pos(s, other) as int;
                assert(t[p] == s[p]);
                lemma_pos_is(t, other, p);
            } else {
                assert forall|i: int| 0 <= i < t.len() implies (#[trigger] t[i]).name != other by {
                    if i < s.len() {
                        assert(t[i] == s[i]);
                    }
                }
            }
        } else {
            assert(w.listing(d) == v.listing(d));
        }
    }
}

/// Taking a name out removes that name and no other.
proof fn lemma_taken_out(v: VolumeView, dir: u64, name: Seq<char>)
    requires
        volume::dirs_ok(v.dirs, v.limits.dir_entries),
        v.has_entry(dir, name),
    ensures
        volume::dirs_ok(v.without_entry(dir, name).dirs, v.limits.dir_entries),
        !v.without_entry(dir, name).has_entry(dir, name),
        v.without_entry(dir, name).room_in_dir(dir),
        other_names_kept(v, v.without_entry(dir, name), set![(dir, name)]),
{
    let s = v.listing(dir);
    let w = v.without_entry(dir, name);
    let t = w.listing(dir);
    let pos = volume::entry_pos(s, name) as int;
    volume::lemma_entry_pos(s, name);
    volume::lemma_dirs_shrunk(v.dirs, dir, pos, v.limits.dir_entries);
    lemma_listing_ok(v, dir);
    lemma_listing_ok(w, dir);
    assert(t == s.remove(pos));
    assert forall|i: int| 0 <= i < t.len() implies (#[trigger] t[i]).name != name by {
        let a = if i < pos {
            i
        } else {
            i + 1
        };
        assert(t[i] == s[a]);
        assert(s[pos].name == name);
    }
    volume::lemma_entry_pos(t, name);
    assert forall|d: u64, other: Seq<char>| !set![(dir, name)].contains((d, other)) implies {
        &&& #[trigger] w.has_entry(d, other) == v.has_entry(d, other)
        &&& v.has_entry(d, other) ==> w.entry_ino(d, other) == v.entry_ino(d, other)
    } by {
        if d == dir {
            volume::lemma_entry_pos(s, other);
            volume::lemma_entry_pos(t, other);
            if v.has_entry(d, other) {
                let p = volume::entry_pos(s, other) as int;
                let q = if p < pos {
                    p
                } else {
                    p - 1
                };
                assert(t[q] == s[p]);
                lemma_pos_is(t, other, q);
            } else {
                assert forall|i: int| 0 <= i < t.len() implies (#[trigger] t[i]).name != other by {
                    let a = if i < pos {
                        i
                    } else {
                        i + 1
                    };
                    assert(t[i] == s[a]);
                }
            }
        } else {
            assert(w.listing(d) == v.listing(d));
        }
    }
}

/// A new file is found under its name, and every other name stands for what
/// it stood for.
pub proof fn created_name_is_found(
    v: VolumeView,
    parent: u64,
    name: Seq<char>,
    made: Inode,
    now: u64,
)
    requires
        sound(v),
        v.inodes.contains_key(parent),
        v.sb.next_ino < u64::MAX,
        made.ino == v.sb.next_ino,
        shown(name),
        v.takes_entry(parent, name),
    ensures
        ({
            let after = v.with_number_taken().with_inode(made).with_entry(
                parent,
                vfs_names::new_entry(name, made.ino, made.mode),
            ).touched(v.inodes[parent], now);
            &&& looked_up(after, parent, name) == Some(made)
            &&& other_names_kept(v, after, set![(parent, name)])
        }),
{
    reveal(volume::inodes_ok);
    let e = vfs_names::new_entry(name, made.ino, made.mode);
    let mid = v.with_number_taken().with_inode(made);
    let linked = mid.with_entry(parent, e);
    let after = linked.touched(v.inodes[parent], now);
    lemma_linked(mid, parent, e);
    lemma_listing_ok(linked, parent);
    lemma_looked_up(after, parent, name);
    assert forall|dir: u64, other: Seq<char>| !set![(parent, name)].contains(
        (dir, other),
    ) implies {
        &&& #[trigger] after.has_entry(dir, other) == v.has_entry(dir, other)
        &&& v.has_entry(dir, other) ==> after.entry_ino(dir, other) == v.entry_ino(dir, other)
    } by {
        assert(linked.has_entry(dir, other) == mid.has_entry(dir, other));
    }
}

/// A name that was unlinked is not found any more, and every other name
/// stands for what it stood for.
pub proof fn unlinked_name_is_gone(v: VolumeView, parent: u64, name: Seq<char>, now: u64)
    requires
        sound(v),
        v.inodes.contains_key(parent),
        v.has_entry(parent, name),
        v.inodes.contains_key(v.entry_ino(parent, name)),
    ensures
        ({
            let after = v.without_entry(parent, name).with_inode(
                vfs_names::unlinked(v.inodes[v.entry_ino(parent, name)]),
            ).touched(v.inodes[parent], now);
            &&& !after.has_entry(parent, name)
            &&& looked_up(after, parent, name) is None
            &&& other_names_kept(v, after, set![(parent, name)])
        }),
{
    let mid = v.without_entry(parent, name);
    let after = mid.with_inode(
        vfs_names::unlinked(v.inodes[v.entry_ino(parent, name)]),
    ).touched(v.inodes[parent], now);
    lemma_taken_out(v, parent, name);
    lemma_listing_ok(mid, parent);
    let s = after.listing(parent);
    volume::lemma_entry_pos(s, name);
    lemma_shown_entries(s);
    let r = volume::real_entries(s);
    assert forall|i: int| 0 <= i < r.len() implies (#[trigger] r[i]).name != name by {
        assert(r.contains(r[i]));
        let k = choose|k: int| 0 <= k < s.len() && s[k] == r[i];
        assert(s[k].name != name);
    }
    lemma_absent_not_found(r, name, after.inodes);
    assert forall|dir: u64, other: Seq<char>| !set![(parent, name)].contains(
        (dir, other),
    ) implies {
        &&& #[trigger] after.has_entry(dir, other) == v.has_entry(dir, other)
        &&& v.has_entry(dir, other) ==> after.entry_ino(dir, other) == v.entry_ino(dir, other)
    } by {
        assert(mid.has_entry(dir, other) == v.has_entry(dir, other));
    }
}

/// A rename moves a name. If it succeeds, the new name is found and stands for
/// what the old one stood for, and the old one is gone. If it fails, the old
/// name still stands for what it stood for; if there was no such name, nothing
/// has changed. Every other name stands for what it stood for. A name that is
/// there, and a directory that is there and has room and not yet the new name,
/// are enough for success.
pub proof fn rename_moves_the_name(
    v: VolumeView,
    parent: u64,
    name: Seq<char>,
    newparent: u64,
    newname: Seq<char>,
    now: u64,
)
    requires
        sound(v),
        shown(name),
        shown(newname),
    ensures
        ({
            let (ok, after) = vfs_names::rename_outcome(v, parent, name, newparent, newname, now);
            let same = parent == newparent && name == newname;
            &&& ok ==> found_ino(v, parent, name) is Some && found_ino(after, newparent, newname)
                == found_ino(v, parent, name)
            &&& ok && !same ==> looked_up(after, parent, name) is None
            &&& !ok ==> looked_up(after, parent, name) == looked_up(v, parent, name)
            &&& !v.has_entry(parent, name) ==> !ok && after == v
            &&& other_names_kept(v, after, set![(parent, name), (newparent, newname)])
            &&& v.inodes.contains_key(parent) && v.inodes.contains_key(newparent) && looked_up(
                v,
                parent,
                name,
            ) is Some && v.takes_entry(newparent, newname) ==> ok
        }),
{
    reveal(volume::inodes_ok);
    let (ok, after) = vfs_names::rename_outcome(v, parent, name, newparent, newname, now);
    let changed = set![(parent, name), (newparent, newname)];
    let target = v.entry_ino(parent, name);
    lemma_listing_ok(v, parent);
    lemma_looked_up(v, parent, name);
    if v.inodes.contains_key(parent) && v.has_entry(parent, name) {
        let v1 = v.without_entry(parent, name);
        lemma_taken_out(v, parent, name);
        lemma_listing_ok(v1, parent);
        lemma_looked_up(v1, parent, name);
        if v.inodes.contains_key(target) {
            let file_type = posix::entry_type(v.inodes[target].mode);
            let back = Entry { name, ino: target, file_type };
            let moved = Entry { name: newname, ino: target, file_type };
            let (dir, e) = if ok {
                (newparent, moved)
            } else {
                (parent, back)
            };
            let v2 = v1.with_entry(dir, e);
            assert(v1.takes_entry(dir, e.name));
            lemma_linked(v1, dir, e);
            lemma_listing_ok(v2, parent);
            lemma_listing_ok(v2, newparent);
            assert(after.dirs == v2.dirs);
            lemma_looked_up(after, newparent, newname);
            lemma_looked_up(after, parent, name);
            assert(after.has_entry(dir, e.name) && after.entry_ino(dir, e.name) == target);
            if ok && !(parent == newparent && name == newname) {
                assert(v2.has_entry(parent, name) == v1.has_entry(parent, name));
                assert(after.has_entry(parent, name) == v2.has_entry(parent, name));
            }
            assert forall|d: u64, other: Seq<char>| !changed.contains((d, other)) implies {
                &&& #[trigger] after.has_entry(d, other) == v.has_entry(d, other)
                &&& v.has_entry(d, other) ==> after.entry_ino(d, other) == v.entry_ino(d, other)
            } by {
                assert(v1.has_entry(d, other) == v.has_entry(d, other));
                assert(v2.has_entry(d, other) == v1.has_entry(d, other));
            }
            if v.takes_entry(newparent, newname) {
                if !(parent == newparent && name == newname) {
                    assert(v1.has_entry(newparent, newname) == v.has_entry(newparent, newname));
                }
                assert(v1.takes_entry(newparent, newname));
            }
        } else {
            assert forall|d: u64, other: Seq<char>| !changed.contains((d, other)) implies {
                &&& #[trigger] after.has_entry(d, other) == v.has_entry(d, other)
                &&& v.has_entry(d, other) ==> after.entry_ino(d, other) == v.entry_ino(d, other)
            } by {
                assert(v1.has_entry(d, other) == v.has_entry(d, other));
            }
        }
    }
    assert(!ok ==> looked_up(after, parent, name) == looked_up(v, parent, name));
    assert(other_names_kept(v, after, changed));
}

/// Making an inode under a name sets the time of the last change of the
/// directory, and changes nothing else of it. The new inode is as it was made,
/// and no other inode, no content and no attribute changes.
pub proof fn linking_touches_the_directory_only(
    v: VolumeView,
    parent: u64,
    made: Inode,
    e: Entry,
    now: u64,
    other: u64,
)
    requires
        sound(v),
        v.inodes.contains_key(parent),
        made.ino >= v.sb.next_ino,
        other != parent,
        other != made.ino,
    ensures
        ({
            let after = v.with_number_taken().with_inode(made).with_entry(parent, e).touched(
                v.inodes[parent],
                now,
            );
            let before = v.inodes[parent];
            &&& after.inodes[parent].mtime == now as i64
            &&& after.inodes[parent] == (Inode { mtime: after.inodes[parent].mtime, ..before })
            &&& after.inodes.contains_key(made.ino) && after.inodes[made.ino] == made
            &&& after.inodes.contains_key(other) == v.inodes.contains_key(other)
            &&& after.inodes[other] == v.inodes[other]
            &&& after.data == v.data && after.xattrs == v.xattrs && after.area == v.area
            &&& v.sb.next_ino < u64::MAX ==> after.sb.next_ino == v.sb.next_ino + 1
        }),
{
    reveal(volume::inodes_ok);
}

/// Unlinking takes one link off what the name stood for, which is free once it
/// has none; sets the time of the last change of the directory; and changes no
/// other inode.
pub proof fn unlinking_takes_one_link(
    v: VolumeView,
    parent: u64,
    name: Seq<char>,
    now: u64,
    other: u64,
)
    requires
        sound(v),
        v.inodes.contains_key(parent),
        v.has_entry(parent, name),
        v.inodes.contains_key(v.entry_ino(parent, name)),
        v.entry_ino(parent, name) != parent,
        v.inodes[v.entry_ino(parent, name)].links_count > 0,
        other != parent,
        other != v.entry_ino(parent, name),
    ensures
        ({
            let target = v.entry_ino(parent, name);
            let before = v.inodes[target];
            let after = v.without_entry(parent, name).with_inode(
                vfs_names::unlinked(before),
            ).touched(v.inodes[parent], now);
            &&& after.inodes[target].links_count == before.links_count - 1
            &&& before.links_count == 1 ==> after.inodes[target].mode == 0
            &&& before.links_count > 1 ==> after.inodes[target].mode == before.mode
            &&& after.inodes[target].size == before.size
            &&& after.inodes[parent].mtime == now as i64
            &&& after.inodes[parent].mode == v.inodes[parent].mode
            &&& after.inodes[other] == v.inodes[other]
            &&& after.inodes.dom() == v.inodes.dom()
            &&& after.data == v.data && after.xattrs == v.xattrs
        }),
{
    reveal(volume::inodes_ok);
    let target = v.entry_ino(parent, name);
    let after = v.without_entry(parent, name).with_inode(
        vfs_names::unlinked(v.inodes[target]),
    ).touched(v.inodes[parent], now);
    assert(after.inodes.dom() =~= v.inodes.dom());
}

/// A rename that succeeds sets the times of the directories that it changed,
/// and changes no other inode: what was renamed is as it was.
pub proof fn renaming_touches_the_directories_only(
    v: VolumeView,
    parent: u64,
    name: Seq<char>,
    newparent: u64,
    newname: Seq<char>,
    now: u64,
    other: u64,
)
    requires
        sound(v),
        other != parent,
        other != newparent,
        vfs_names::rename_outcome(v, parent, name, newparent, newname, now).0,
    ensures
        ({
            let after = vfs_names::rename_outcome(v, parent, name, newparent, newname, now).1;
            &&& after.inodes[parent] == (Inode { mtime: now as i64, ..v.inodes[parent] })
            &&& after.inodes[newparent] == (Inode { mtime: now as i64, ..v.inodes[newparent] })
            &&& after.inodes[other] == v.inodes[other]
            &&& after.inodes.dom() == v.inodes.dom()
            &&& after.data == v.data && after.xattrs == v.xattrs && after.sb == v.sb
        }),
{
    reveal(volume::inodes_ok);
    let after = vfs_names::rename_outcome(v, parent, name, newparent, newname, now).1;
    assert(after.inodes.dom() =~= v.inodes.dom());
}

/// A new directory has an entry for itself and one for its parent, and no other.
pub proof fn new_directory_has_itself_and_its_parent(v: VolumeView, ino: u64, parent: u64)
    requires
        v.listing(ino).len() == 0,
        v.limits.dir_entries >= 2,
    ensures
        ({
            let after = vfs_names::with_dots(v, ino, parent);
            &&& after.listing(ino) == seq![
                Entry { name: seq!['.'], ino, file_type: 2 },
                Entry { name: seq!['.', '.'], ino: parent, file_type: 2 },
            ]
            &&& volume::real_entries(after.listing(ino)).len() == 0
            &&& after.inodes == v.inodes
            &&& forall|d: u64| d != ino ==> #[trigger] after.listing(d) == v.listing(d)
        }),
{
    reveal(vfs_names::with_dots);
    reveal(Seq::filter);
    reveal_with_fuel(volume::entry_pos, 2);
    let dot = Entry { name: seq!['.'], ino, file_type: 2 };
    let dots = Entry { name: seq!['.', '.'], ino: parent, file_type: 2 };
    let x = v.with_entry_if_taken(ino, dot);
    assert(!v.has_entry(ino, dot.name));
    assert(x.listing(ino) =~= seq![dot]);
    assert(seq!['.'].len() == 1 && seq!['.', '.'].len() == 2);
    assert(dot.name != dots.name);
    assert(x.listing(ino).drop_first() =~= Seq::empty());
    assert(!x.has_entry(ino, dots.name));
    let after = vfs_names::with_dots(v, ino, parent);
    assert(after.listing(ino) =~= seq![dot, dots]);
    let s = after.listing(ino);
    assert(s.drop_last() =~= seq![dot]);
    assert(seq![dot].drop_last() =~= Seq::empty());
    let p = |e: Entry| !volume::is_dot(e);
    assert(Seq::<Entry>::empty().filter(p) =~= Seq::empty());
    assert(seq![dot].filter(p) =~= Seq::empty());
    assert(s.filter(p) =~= Seq::empty());
}

} // verus!
