//! What a listing of a directory promises.

use crate::fs::filesystem::SharedCore;
use crate::fs::names_laws;
use crate::fs::vfs::{VfsCreate, VfsKind};
use crate::fs::vfs_acl::AclGift;
use crate::fs::vfs_impl;
use crate::fs::vfs_impl::{ListLine, HEALTH_INO, SCRUB_INO};
use crate::fs::vfs_names;
use crate::fs::volume;
use crate::fs::volume::{Entry, VolumeView};
use crate::ondisk::serialization::Inode;
use crate::posix;
use vstd::prelude::*;

verus! {

/// A name is listed: a line of the listing has the name, the inode and the
/// kind, and no line has the name and the inode with another kind.
pub open spec fn listed_as(
    core: SharedCore,
    dir: u64,
    name: Seq<char>,
    ino: u64,
    kind: VfsKind,
) -> bool {
    let lines = vfs_impl::listing_lines(core, dir);
    &&& lines.contains(ListLine { ino, kind, name })
    &&& ino != SCRUB_INO && ino != HEALTH_INO ==> forall|i: int|
        0 <= i < lines.len() && (#[trigger] lines[i]).name == name && lines[i].ino == ino
            ==> lines[i].kind == kind
}

/// A listing begins with the directory itself and its parent, both as
/// directories. Every other entry follows in its order, with its name and its
/// inode; it is a directory if and only if its type byte is that of one. At
/// the root the two control files come last, as regular files.
pub proof fn listing_has_every_entry(core: SharedCore, dir: u64, i: int)
    ensures
        ({
            let lines = vfs_impl::listing_lines(core, dir);
            let entries = volume::real_entries(core.vol@.listing(dir));
            let n = entries.len() as int;
            &&& lines.len() == (if dir == 1 {
                n + 4
            } else {
                n + 2
            })
            &&& lines[0].name == seq!['.'] && lines[1].name == seq!['.', '.']
            &&& lines[0].kind is Directory && lines[1].kind is Directory
            &&& lines[0].ino == core.vol@.inodes[dir].ino
            &&& lines[1].ino == core.vol@.inodes[dir].ino
            &&& 0 <= i < n ==> {
                &&& lines[i + 2].name == entries[i].name
                &&& lines[i + 2].ino == entries[i].ino
                &&& lines[i + 2].kind is Directory <==> entries[i].file_type == 2
            }
            &&& dir == 1 ==> {
                &&& lines[n + 2] == (ListLine {
                    ino: SCRUB_INO,
                    kind: VfsKind::RegularFile,
                    name: ".lfs_scrub"@,
                })
                &&& lines[n + 3] == (ListLine {
                    ino: HEALTH_INO,
                    kind: VfsKind::RegularFile,
                    name: ".lfs_health"@,
                })
            }
        }),
{
}

/// A listing that is read in two parts, the second from where the first one
/// ends, is the listing read at once.
pub proof fn listing_goes_on_where_it_stopped(
    core: SharedCore,
    dir: u64,
    offset: int,
    first: int,
    rest: int,
)
    requires
        0 <= offset,
        0 <= first,
        0 <= rest,
    ensures
        ({
            let lines = vfs_impl::listing_lines(core, dir);
            let a = vfs_impl::lines_from(lines, offset, first);
            let b = vfs_impl::lines_from(lines, offset + a.len(), rest);
            &&& vfs_impl::lines_from(lines, offset, first + rest) == a + b || a.len() < first
            &&& a.len() <= first
            &&& a.len() < first ==> vfs_impl::lines_from(lines, offset, first + rest) == a
            &&& forall|i: int| 0 <= i < a.len() ==> a[i] == lines[offset + i]
            &&& offset + first <= lines.len() ==> a.len() == first
            &&& offset <= lines.len() < offset + first ==> a.len() == lines.len() - offset
        }),
{
    let lines = vfs_impl::listing_lines(core, dir);
    let a = vfs_impl::lines_from(lines, offset, first);
    let b = vfs_impl::lines_from(lines, offset + a.len(), rest);
    let whole = vfs_impl::lines_from(lines, offset, first + rest);
    if a.len() == first {
        assert(whole =~= a + b);
    } else {
        assert(whole =~= a);
    }
}

/// An entry whose type byte is 2 exactly if the mode of its inode is that of a
/// directory is listed with the kind that the inode's attributes show.
proof fn lemma_listed(core: SharedCore, dir: u64, name: Seq<char>)
    requires
        volume::dirs_ok(core.vol@.dirs, core.vol@.limits.dir_entries),
        core.vol@.has_entry(dir, name),
        names_laws::shown(name),
        core.vol@.inodes.contains_key(core.vol@.entry_ino(dir, name)),
        ({
            let v = core.vol@;
            let e = v.listing(dir)[volume::entry_pos(v.listing(dir), name) as int];
            (e.file_type == 2) == (v.inodes[e.ino].mode & 0o170000 == 0o040000)
        }),
    ensures
        ({
            let v = core.vol@;
            let ino = v.entry_ino(dir, name);
            listed_as(core, dir, name, ino, vfs_impl::attr_of(v.inodes[ino]).kind)
        }),
{
    reveal(volume::dirs_ok);
    let v = core.vol@;
    let s = v.listing(dir);
    let shown = volume::real_entries(s);
    volume::lemma_entry_pos(s, name);
    let pos = volume::entry_pos(s, name) as int;
    let e = s[pos];
    let p = |e: Entry| !volume::is_dot(e);
    assert(volume::distinct_names(s));
    s.lemma_filter_contains(p, pos);
    let k = choose|k: int| 0 <= k < shown.len() && shown[k] == e;
    let kind = vfs_impl::attr_of(v.inodes[e.ino]).kind;
    let lines = vfs_impl::listing_lines(core, dir);
    listing_has_every_entry(core, dir, k);
    assert(lines[k + 2] == ListLine { ino: e.ino, kind, name });
    assert forall|i: int|
        e.ino != SCRUB_INO && e.ino != HEALTH_INO && 0 <= i < lines.len() && (
        #[trigger] lines[i]).name == name && lines[i].ino == e.ino implies lines[i].kind
        == kind by {
        listing_has_every_entry(core, dir, i - 2);
        if 2 <= i < shown.len() + 2 {
            s.lemma_filter_contains_rev(p, shown[i - 2]);
            let q = choose|q: int| 0 <= q < s.len() && s[q] == shown[i - 2];
            if q != pos {
                if q < pos {
                    assert(s[q].name != s[pos].name);
                } else {
                    assert(s[pos].name != s[q].name);
                }
            }
        }
    }
}

/// The byte that marks a directory's entry is set exactly for a mode of a
/// directory.
proof fn lemma_type_byte(mode: u32)
    ensures
        (posix::entry_type(mode) == 2) == (mode & 0o170000 == 0o040000),
{
}

/// What was created is listed as a regular file, and that is the kind that its
/// attributes show.
pub proof fn created_file_is_listed_as_a_file(
    v: VolumeView,
    after: SharedCore,
    parent: u64,
    name: Seq<char>,
    made: Inode,
    create: VfsCreate,
    now: u64,
)
    requires
        names_laws::sound(v),
        v.inodes.contains_key(parent),
        v.sb.next_ino < u64::MAX,
        names_laws::shown(name),
        v.takes_entry(parent, name),
        vfs_names::is_new_inode(
            made,
            v.sb.next_ino,
            create.mode | 0o100000,
            create,
            1,
            now,
        ),
        after.vol@ == v.with_number_taken().with_inode(made).with_entry(
            parent,
            vfs_names::new_entry(name, made.ino, made.mode),
        ).touched(v.inodes[parent], now),
    ensures
        after.vol@.inodes.contains_key(made.ino),
        vfs_impl::shadowed_attr(after, after.vol@.inodes[made.ino]).kind is RegularFile,
        listed_as(after, parent, name, made.ino, VfsKind::RegularFile),
{
    reveal(volume::inodes_ok);
    let mode = create.mode;
    assert((mode | 0o100000) & 0o170000 != 0o040000) by (bit_vector);
    let e = vfs_names::new_entry(name, made.ino, made.mode);
    lemma_type_byte(made.mode);
    let mid = v.with_number_taken().with_inode(made);
    volume::lemma_entry_pos(v.listing(parent), name);
    volume::lemma_dirs_grown(v.dirs, parent, v.listing(parent), e, v.limits.dir_entries);
    lemma_entry_added(mid, parent, e);
    assert(after.vol@.dirs == mid.with_entry(parent, e).dirs);
    lemma_listed(after, parent, name);
}

proof fn lemma_entry_added(v: VolumeView, dir: u64, e: Entry)
    requires
        !v.has_entry(dir, e.name),
    ensures
        ({
            let w = v.with_entry(dir, e);
            &&& w.has_entry(dir, e.name)
            &&& w.listing(dir)[volume::entry_pos(w.listing(dir), e.name) as int] == e
        }),
{
    let s = v.listing(dir);
    let t = v.with_entry(dir, e).listing(dir);
    volume::lemma_entry_pos(s, e.name);
    volume::lemma_entry_pos(t, e.name);
    assert(t == s.push(e));
    assert(t[s.len() as int] == e);
    let p = volume::entry_pos(t, e.name) as int;
    if p < s.len() {
        assert(t[p] == s[p]);
    }
}

/// What mkdir made is listed with the kind that its attributes show, and that
/// is a directory whenever the mode asks for no other type. The access lists
/// that it gets from its parent do not change that.
pub proof fn made_directory_is_listed_as_a_directory(
    v: VolumeView,
    after: SharedCore,
    parent: u64,
    name: Seq<char>,
    made: Inode,
    create: VfsCreate,
    gift: Option<AclGift>,
    now: u64,
)
    requires
        names_laws::sound(v),
        v.inodes.contains_key(parent),
        v.sb.next_ino < u64::MAX,
        names_laws::shown(name),
        v.takes_entry(parent, name),
        gift matches Some(g) ==> g.mode_bits <= 0o777,
        made.ino == v.sb.next_ino,
        made.mode == (match gift {
            Some(g) => vfs_names::with_acl_bits(create.mode | 0o040000, g.mode_bits),
            None => create.mode | 0o040000,
        }),
        after.vol@ == vfs_names::with_dots(
            (match gift {
                Some(g) => vfs_names::acl_inherited(v.with_number_taken(), v.sb.next_ino, g),
                None => v.with_number_taken(),
            }).with_inode(made).with_entry(
                parent,
                vfs_names::new_entry(name, made.ino, create.mode | 0o040000),
            ).touched(v.inodes[parent], now),
            made.ino,
            parent,
        ),
    ensures
        after.vol@.inodes.contains_key(made.ino),
        ({
            let kind = vfs_impl::shadowed_attr(after, after.vol@.inodes[made.ino]).kind;
            &&& listed_as(after, parent, name, made.ino, kind)
            &&& create.mode & 0o130000 == 0 ==> kind is Directory
        }),
{
    reveal(volume::inodes_ok);
    reveal(vfs_names::with_dots);
    let mode = create.mode;
    let plain = mode | 0o040000;
    assert(mode & 0o130000 == 0 ==> (mode | 0o040000) & 0o170000 == 0o040000) by (bit_vector);
    if let Some(g) = gift {
        let bits = g.mode_bits;
        vfs_names::lemma_acl_keeps_names(v.with_number_taken(), v.sb.next_ino, g);
        assert(((plain & !0o777u32) | bits) & 0o170000 == plain & 0o170000) by (bit_vector)
            requires
                bits <= 0o777,
        ;
    }
    let e = vfs_names::new_entry(name, made.ino, plain);
    lemma_type_byte(plain);
    let v2 = match gift {
        Some(g) => vfs_names::acl_inherited(v.with_number_taken(), v.sb.next_ino, g),
        None => v.with_number_taken(),
    };
    let mid = v2.with_inode(made);
    let linked = mid.with_entry(parent, e);
    let dot = Entry { name: seq!['.'], ino: made.ino, file_type: 2 };
    let dots = Entry { name: seq!['.', '.'], ino: parent, file_type: 2 };
    let x = linked.touched(v.inodes[parent], now);
    let y = x.with_entry_if_taken(made.ino, dot);
    volume::lemma_entry_pos(v.listing(parent), name);
    volume::lemma_dirs_grown(v.dirs, parent, v.listing(parent), e, v.limits.dir_entries);
    lemma_entry_added(mid, parent, e);
    assert(linked.has_entry(parent, name));
    volume::lemma_entry_pos(x.listing(made.ino), dot.name);
    if x.takes_entry(made.ino, dot.name) {
        volume::lemma_dirs_grown(x.dirs, made.ino, x.listing(made.ino), dot, v.limits.dir_entries);
    }
    volume::lemma_entry_pos(y.listing(made.ino), dots.name);
    if y.takes_entry(made.ino, dots.name) {
        volume::lemma_dirs_grown(y.dirs, made.ino, y.listing(made.ino), dots, v.limits.dir_entries);
    }
    assert(made.ino != parent);
    assert(after.vol@.listing(parent) == linked.listing(parent));
    assert(after.vol@.inodes == x.inodes);
    assert(after.vol@.inodes[made.ino] == made);
    lemma_listed(after, parent, name);
}

/// What was renamed is listed under its new name with the kind that its
/// attributes show.
pub proof fn renamed_entry_is_listed_as_what_it_is(
    v: VolumeView,
    after: SharedCore,
    parent: u64,
    name: Seq<char>,
    newparent: u64,
    newname: Seq<char>,
    now: u64,
)
    requires
        names_laws::sound(v),
        names_laws::shown(newname),
        vfs_names::rename_outcome(v, parent, name, newparent, newname, now) == (true, after.vol@),
    ensures
        ({
            let ino = v.entry_ino(parent, name);
            &&& after.vol@.inodes.contains_key(ino)
            &&& listed_as(
                after,
                newparent,
                newname,
                ino,
                vfs_impl::shadowed_attr(after, after.vol@.inodes[ino]).kind,
            )
            &&& vfs_impl::attr_of(after.vol@.inodes[ino]).kind == vfs_impl::attr_of(
                v.inodes[ino],
            ).kind
        }),
{
    reveal(volume::inodes_ok);
    let target = v.entry_ino(parent, name);
    let mode = v.inodes[target].mode;
    let moved = Entry {
        name: newname,
        ino: target,
        file_type: posix::entry_type(mode),
    };
    lemma_type_byte(mode);
    let v1 = v.without_entry(parent, name);
    let s = v.listing(parent);
    volume::lemma_entry_pos(s, name);
    volume::lemma_dirs_shrunk(
        v.dirs,
        parent,
        volume::entry_pos(s, name) as int,
        v.limits.dir_entries,
    );
    volume::lemma_entry_pos(v1.listing(newparent), newname);
    volume::lemma_dirs_grown(
        v1.dirs,
        newparent,
        v1.listing(newparent),
        moved,
        v.limits.dir_entries,
    );
    lemma_entry_added(v1, newparent, moved);
    assert(after.vol@.dirs == v1.with_entry(newparent, moved).dirs);
    lemma_listed(after, newparent, newname);
}

/// A name stands for the inode of the first entry of that name whose inode is
/// there; without such an entry it stands for none.
pub proof fn first_entry_that_is_there_is_found(
    entries: Seq<Entry>,
    name: Seq<char>,
    inodes: Map<u64, Inode>,
    i: int,
)
    ensures
        0 <= i < entries.len() && entries[i].name == name && inodes.contains_key(entries[i].ino)
            && (forall|k: int|
            0 <= k < i ==> (#[trigger] entries[k]).name != name || !inodes.contains_key(
                entries[k].ino,
            )) ==> vfs_impl::found_inode(entries, name, inodes) == Some(inodes[entries[i].ino]),
        (forall|k: int|
            0 <= k < entries.len() ==> (#[trigger] entries[k]).name != name
                || !inodes.contains_key(entries[k].ino)) ==> vfs_impl::found_inode(
            entries,
            name,
            inodes,
        ) is None,
    decreases entries.len(),
{
    if entries.len() > 0 {
        let rest = entries.drop_first();
        first_entry_that_is_there_is_found(rest, name, inodes, i - 1);
        assert(forall|k: int| 0 <= k < rest.len() ==> #[trigger] rest[k] == entries[k + 1]);
        if 0 < i < entries.len() {
            assert(rest[i - 1] == entries[i]);
        }
    }
}

} // verus!
