//! What a mounted image holds: inodes, directory entries, file contents and
//! extended attributes, and the room that is left for more.

use crate::bytes;
use crate::common::text;
use crate::error::{Error, ErrorKind};
use crate::file::area::DataArea;
use crate::fs::extents;
use crate::fs::placement;
use crate::integrity::refcount::RefCountManager;
use crate::ondisk::serialization::{CloneRecord, Extent, Inode, Superblock};
use crate::ondisk::xattr;
use crate::ondisk::xattr::XattrEntry;
use crate::ordmap;
use crate::ordmap::OrdMap;
use vstd::prelude::*;
use vstd::string::StringExecFns;

verus! {

/// Node type of the attribute tree.
pub const XATTR_TREE_NODE_TYPE: u64 = 10;

/// Node type of the clone registry.
pub const CLONE_TREE_NODE_TYPE: u64 = 9;

/// One entry of a directory.
#[derive(Debug)]
pub struct DirEntry {
    /// Name.
    pub name: String,
    /// Inode.
    pub ino: u64,
    /// Type byte.
    pub file_type: u8,
}

/// What a directory entry says.
pub struct Entry {
    /// Name.
    pub name: Seq<char>,
    /// Inode.
    pub ino: u64,
    /// Type byte.
    pub file_type: u8,
}

impl DirEntry {
    /// What the entry says.
    pub open spec fn view(&self) -> Entry {
        Entry { name: self.name@, ino: self.ino, file_type: self.file_type }
    }
}

/// What an extended attribute says.
pub struct Attr {
    /// Full name.
    pub name: Seq<char>,
    /// Value.
    pub value: Seq<u8>,
    /// Namespace class.
    pub ns_flags: u8,
}

impl Attr {
    /// The bytes of the attribute.
    pub open spec fn raw(self) -> xattr::RawEntry {
        xattr::RawEntry {
            name: vstd::utf8::encode_utf8(self.name),
            value: self.value,
            ns_flags: self.ns_flags,
        }
    }
}

/// What a list of entries says.
pub open spec fn entries_of(v: Seq<DirEntry>) -> Seq<Entry> {
    v.map_values(|e: DirEntry| e@)
}

/// What a list of attributes says.
pub open spec fn attrs_of(v: Seq<XattrEntry>) -> Seq<Attr> {
    v.map_values(
        |e: XattrEntry| Attr { name: e.name@, value: e.value@, ns_flags: e.ns_flags },
    )
}

/// The position of the first entry that has the name, the length if none has.
pub open spec fn entry_pos(s: Seq<Entry>, name: Seq<char>) -> nat
    decreases s.len(),
{
    if s.len() == 0 {
        0
    } else if s[0].name == name {
        0
    } else {
        1 + entry_pos(s.drop_first(), name)
    }
}

/// The position of the first attribute that has the name, the length if none
/// has.
pub open spec fn attr_pos(s: Seq<Attr>, name: Seq<char>) -> nat
    decreases s.len(),
{
    if s.len() == 0 {
        0
    } else if s[0].name == name {
        0
    } else {
        1 + attr_pos(s.drop_first(), name)
    }
}

/// No name occurs twice.
pub open spec fn distinct_names(s: Seq<Entry>) -> bool {
    forall|i: int, j: int|
        0 <= i < j < s.len() ==> (#[trigger] s[i]).name != (#[trigger] s[j]).name
}

/// No entry has the name.
pub open spec fn absent(s: Seq<Entry>, name: Seq<char>) -> bool {
    forall|i: int| 0 <= i < s.len() ==> (#[trigger] s[i]).name != name
}

/// In no directory does a name occur twice, and none has more entries than it
/// may.
#[verifier::opaque]
pub open spec fn dirs_ok(dirs: Map<u64, Seq<Entry>>, limit: u64) -> bool {
    forall|dir: u64| #[trigger]
        dirs.contains_key(dir) ==> distinct_names(dirs[dir]) && dirs[dir].len() <= limit
}

/// Where the first entry of a name is.
pub proof fn lemma_entry_pos(s: Seq<Entry>, name: Seq<char>)
    ensures
        entry_pos(s, name) <= s.len(),
        entry_pos(s, name) < s.len() ==> s[entry_pos(s, name) as int].name == name,
        entry_pos(s, name) == s.len() <==> absent(s, name),
    decreases s.len(),
{
    if s.len() > 0 {
        let t = s.drop_first();
        lemma_entry_pos(t, name);
        if s[0].name != name {
            assert forall|i: int| absent(t, name) && 0 <= i < s.len() implies (
            #[trigger] s[i]).name != name by {
                if i > 0 {
                    assert(t[i - 1] == s[i]);
                }
            }
            assert forall|i: int| absent(s, name) && 0 <= i < t.len() implies (
            #[trigger] t[i]).name != name by {
                assert(t[i] == s[i + 1]);
            }
        }
    }
}

/// Names stay distinct when one that is not there is added.
pub proof fn lemma_dirs_grown(dirs: Map<u64, Seq<Entry>>, dir: u64, s: Seq<Entry>, e: Entry, limit: u64)
    requires
        dirs_ok(dirs, limit),
        dirs.contains_key(dir) ==> s == dirs[dir],
        !dirs.contains_key(dir) ==> s.len() == 0,
        absent(s, e.name),
        s.len() < limit,
    ensures
        dirs_ok(dirs.insert(dir, s.push(e)), limit),
{
    reveal(dirs_ok);
    let t = s.push(e);
    assert(distinct_names(s));
    assert forall|i: int, j: int| 0 <= i < j < t.len() implies (#[trigger] t[i]).name != (
    #[trigger] t[j]).name by {
        assert(t[i] == s[i]);
        if j < s.len() {
            assert(t[j] == s[j]);
        }
    }
    let after = dirs.insert(dir, t);
    assert forall|d: u64| #[trigger] after.contains_key(d) implies distinct_names(after[d])
        && after[d].len() <= limit by {
        if d != dir {
            assert(dirs.contains_key(d));
        }
    }
}

/// Names stay distinct when one is taken out.
pub proof fn lemma_dirs_shrunk(dirs: Map<u64, Seq<Entry>>, dir: u64, pos: int, limit: u64)
    requires
        dirs_ok(dirs, limit),
        dirs.contains_key(dir),
        0 <= pos < dirs[dir].len(),
    ensures
        dirs_ok(dirs.insert(dir, dirs[dir].remove(pos)), limit),
{
    reveal(dirs_ok);
    let s = dirs[dir];
    let t = s.remove(pos);
    assert(distinct_names(s));
    assert forall|i: int, j: int| 0 <= i < j < t.len() implies (#[trigger] t[i]).name != (
    #[trigger] t[j]).name by {
        let a = if i < pos {
            i
        } else {
            i + 1
        };
        let b = if j < pos {
            j
        } else {
            j + 1
        };
        assert(t[i] == s[a]);
        assert(t[j] == s[b]);
    }
    let after = dirs.insert(dir, t);
    assert forall|d: u64| #[trigger] after.contains_key(d) implies distinct_names(after[d])
        && after[d].len() <= limit by {
        if d != dir {
            assert(dirs.contains_key(d));
        }
    }
}

/// The entry is the directory itself or its parent.
pub open spec fn is_dot(e: Entry) -> bool {
    e.name == seq!['.'] || e.name == seq!['.', '.']
}

/// The entries other than the directory itself and its parent.
pub open spec fn real_entries(s: Seq<Entry>) -> Seq<Entry> {
    s.filter(|e: Entry| !is_dot(e))
}

/// `base` with `data` written at `at`, with zeros between if `base` ends
/// before.
pub open spec fn written(base: Seq<u8>, at: int, data: Seq<u8>) -> Seq<u8> {
    Seq::new(
        if base.len() > at + data.len() {
            base.len()
        } else {
            (at + data.len()) as nat
        },
        |i: int|
            if at <= i < at + data.len() {
                data[i - at]
            } else if i < base.len() {
                base[i]
            } else {
                0
            },
    )
}

/// `base` cut or filled with zeros to `len`.
pub open spec fn resized(base: Seq<u8>, len: int) -> Seq<u8> {
    Seq::new(
        len as nat,
        |i: int|
            if i < base.len() {
                base[i]
            } else {
                0
            },
    )
}

/// How much an image can hold.
#[derive(Debug, Clone, Copy, PartialEq, Eq, Structural)]
pub struct Limits {
    /// Inodes.
    pub inodes: u64,
    /// Entries of one directory.
    pub dir_entries: u64,
    /// Bytes of one file.
    pub file_bytes: u64,
    /// Data blocks that are addressed.
    pub blocks: u64,
}

/// What a volume holds.
pub struct VolumeView {
    /// The superblock.
    pub sb: Superblock,
    /// Inodes by number.
    pub inodes: Map<u64, Inode>,
    /// Spill extents by root block.
    pub spills: Map<u64, Seq<Extent>>,
    /// Directory entries by inode.
    pub dirs: Map<u64, Seq<Entry>>,
    /// Stored bytes by inode.
    pub data: Map<u64, Seq<u8>>,
    /// The data blocks, where the stored bytes are.
    pub area: DataArea,
    /// Attributes by inode.
    pub xattrs: Map<u64, Seq<Attr>>,
    /// Clone records by the inode that was made.
    pub clones: Map<u64, CloneRecord>,
    /// Blocks of which the stored bytes cannot be read, by inode.
    pub damaged: Map<u64, Seq<u64>>,
    /// Tree roots that the open transaction has moved, by node type.
    pub root_cells: Map<u64, u64>,
    /// Metadata blocks that the allocator gives next, last first.
    pub fresh: Seq<u64>,
    /// How much fits.
    pub limits: Limits,
}

impl VolumeView {
    /// The entries of a directory.
    pub open spec fn listing(self, dir: u64) -> Seq<Entry> {
        if self.dirs.contains_key(dir) {
            self.dirs[dir]
        } else {
            Seq::empty()
        }
    }

    /// The stored bytes of a file.
    pub open spec fn stored(self, ino: u64) -> Seq<u8> {
        stored_in(self.data, ino)
    }

    /// The attributes of an inode.
    pub open spec fn attrs(self, ino: u64) -> Seq<Attr> {
        if self.xattrs.contains_key(ino) {
            self.xattrs[ino]
        } else {
            Seq::empty()
        }
    }

    /// The spill extents at `root`.
    pub open spec fn spilled(self, root: u64) -> Seq<Extent> {
        if root != 0 && self.spills.contains_key(root) {
            self.spills[root]
        } else {
            Seq::empty()
        }
    }

    /// An inode of this number can be written.
    pub open spec fn room_for_inode(self, ino: u64) -> bool {
        self.inodes.contains_key(ino) || self.inodes.dom().len() < self.limits.inodes
    }

    /// The directory takes another entry.
    pub open spec fn room_in_dir(self, dir: u64) -> bool {
        self.listing(dir).len() < self.limits.dir_entries
    }

    /// The directory takes an entry of this name: there is room, and the name
    /// is not there yet.
    pub open spec fn takes_entry(self, dir: u64, name: Seq<char>) -> bool {
        self.room_in_dir(dir) && !self.has_entry(dir, name)
    }

    /// The runs of a file.
    pub open spec fn runs(self, ino: u64) -> Seq<Extent> {
        placement::runs_of(self.inodes[ino], self.spills)
    }

    /// The runs of all files.
    pub open spec fn all_runs(self) -> Map<u64, Seq<Extent>> {
        placement::all_runs(self.inodes, self.spills)
    }

    /// The inode has the blocks that it had; a new one has none.
    pub open spec fn keeps_blocks(self, inode: Inode) -> bool {
        if self.inodes.contains_key(inode.ino) {
            placement::same_blocks(self.inodes[inode.ino], inode)
        } else {
            placement::no_blocks(inode)
        }
    }

    /// The volume with the inode written.
    pub open spec fn with_inode(self, inode: Inode) -> VolumeView {
        VolumeView { inodes: self.inodes.insert(inode.ino, inode), ..self }
    }

    /// The volume with the entry at the end of the directory.
    pub open spec fn with_entry(self, dir: u64, e: Entry) -> VolumeView {
        VolumeView { dirs: self.dirs.insert(dir, self.listing(dir).push(e)), ..self }
    }

    /// The volume with the entry at the end of the directory, if the directory
    /// takes it.
    pub open spec fn with_entry_if_taken(self, dir: u64, e: Entry) -> VolumeView {
        if self.takes_entry(dir, e.name) {
            self.with_entry(dir, e)
        } else {
            self
        }
    }

    /// The volume with the next inode number given out.
    pub open spec fn with_number_taken(self) -> VolumeView {
        VolumeView {
            sb: Superblock { next_ino: (self.sb.next_ino + 1) as u64, ..self.sb },
            ..self
        }
    }

    /// The volume with the time of the last change of an inode's contents set.
    pub open spec fn touched(self, inode: Inode, now: u64) -> VolumeView {
        self.with_inode(Inode { mtime: now as i64, ..inode })
    }

    /// The volume with the entry of the name taken out of the directory.
    pub open spec fn without_entry(self, dir: u64, name: Seq<char>) -> VolumeView {
        VolumeView {
            dirs: self.dirs.insert(
                dir,
                self.listing(dir).remove(entry_pos(self.listing(dir), name) as int),
            ),
            ..self
        }
    }

    /// The directory has an entry of the name.
    pub open spec fn has_entry(self, dir: u64, name: Seq<char>) -> bool {
        entry_pos(self.listing(dir), name) < self.listing(dir).len()
    }

    /// The inode that the name stands for.
    pub open spec fn entry_ino(self, dir: u64, name: Seq<char>) -> u64 {
        self.listing(dir)[entry_pos(self.listing(dir), name) as int].ino
    }

    /// The volume with the stored bytes of a file replaced.
    pub open spec fn with_data(self, ino: u64, content: Seq<u8>) -> VolumeView {
        VolumeView { data: self.data.insert(ino, content), ..self }
    }

    /// The blocks of a file that cannot be read.
    pub open spec fn unreadable_of(self, ino: u64) -> Seq<u64> {
        if self.damaged.contains_key(ino) {
            self.damaged[ino]
        } else {
            Seq::empty()
        }
    }

    /// The block of the file cannot be read.
    pub open spec fn unreadable(self, ino: u64, block: u64) -> bool {
        self.unreadable_of(ino).contains(block)
    }

    /// A block of the file from `first` to `last` cannot be read.
    pub open spec fn unreadable_in(self, ino: u64, first: int, last: int) -> bool {
        exists|k: u64| first <= k <= last && #[trigger] self.unreadable(ino, k)
    }

    /// The volume with the blocks of a file that cannot be read replaced.
    pub open spec fn with_unreadable(self, ino: u64, blocks: Seq<u64>) -> VolumeView {
        VolumeView { damaged: self.damaged.insert(ino, blocks), ..self }
    }

    /// The inode has an attribute of the name.
    pub open spec fn has_attr(self, ino: u64, name: Seq<char>) -> bool {
        attr_pos(self.attrs(ino), name) < self.attrs(ino).len()
    }

    /// The attributes of an inode once `name` is set.
    pub open spec fn attrs_after_set(
        self,
        ino: u64,
        name: Seq<char>,
        value: Seq<u8>,
        class: u8,
    ) -> Seq<Attr> {
        let attrs = self.attrs(ino);
        let a = Attr { name, value, ns_flags: class };
        if self.has_attr(ino, name) {
            attrs.update(attr_pos(attrs, name) as int, a)
        } else {
            attrs.push(a)
        }
    }

    /// Why an attribute cannot be set, if it cannot: the name is of no known
    /// namespace, a symbolic link takes no user attributes, the attribute is
    /// there and was to be made, or is not there and was to be replaced, or
    /// the attributes no longer fit their block.
    #[verifier::opaque]
    pub open spec fn set_refused(
        self,
        ino: u64,
        name: Seq<char>,
        value: Seq<u8>,
        flags: i32,
        is_symlink: bool,
    ) -> Option<ErrorKind> {
        match xattr::class_of(name) {
            None => Some(ErrorKind::InvalidInput),
            Some(class) => {
                let raws = self.attrs_after_set(ino, name, value, class).map_values(
                    |a: Attr| a.raw(),
                );
                if is_symlink && class == xattr::NS_USER {
                    Some(ErrorKind::Unsupported)
                } else if flags == xattr::XATTR_CREATE && self.has_attr(ino, name) {
                    Some(ErrorKind::AlreadyExists)
                } else if flags == xattr::XATTR_REPLACE && !self.has_attr(ino, name) {
                    Some(ErrorKind::NotFound)
                } else if !xattr::all_fit(raws) {
                    Some(ErrorKind::InvalidInput)
                } else if xattr::region(raws).len() > xattr::XATTR_CAPACITY {
                    Some(ErrorKind::StorageFull)
                } else {
                    None
                }
            },
        }
    }

    /// The volume with the attributes of an inode replaced.
    pub open spec fn with_attrs(self, ino: u64, attrs: Seq<Attr>) -> VolumeView {
        VolumeView { xattrs: self.xattrs.insert(ino, attrs), ..self }
    }
}

/// The stamp that writes get after a mount: later than that of any snapshot.
pub open spec fn next_stamp(sb: Superblock) -> u64 {
    let last = if sb.node_generation > sb.last_snapshot_generation {
        sb.node_generation
    } else {
        sb.last_snapshot_generation
    };
    if last == u64::MAX {
        last
    } else {
        (last + 1) as u64
    }
}

/// How many data blocks are addressed.
pub open spec fn area_blocks(sb: Superblock, limits: Limits) -> int {
    if sb.total_blocks < limits.blocks {
        sb.total_blocks as int
    } else {
        limits.blocks as int
    }
}

/// How many of the data blocks are not free: those that the superblock says,
/// and at least one.
pub open spec fn area_reserved(sb: Superblock, limits: Limits) -> int {
    let blocks = area_blocks(sb, limits);
    if sb.free_blocks < blocks {
        blocks - sb.free_blocks
    } else {
        1
    }
}

/// How many of the free blocks are set aside for metadata: one, and one more for
/// every 64, unless fewer than two are free.
pub open spec fn area_aside(sb: Superblock, limits: Limits) -> int {
    let free = area_blocks(sb, limits) - area_reserved(sb, limits);
    if free < 2 {
        0
    } else {
        1 + free / 64
    }
}

/// The volume has nothing in it but what the superblock says.
pub open spec fn is_empty_volume(v: VolumeView, sb: Superblock, limits: Limits) -> bool {
    &&& v == (VolumeView {
        sb,
        inodes: Map::empty(),
        spills: Map::empty(),
        dirs: Map::empty(),
        data: Map::empty(),
        area: v.area,
        xattrs: Map::empty(),
        clones: Map::empty(),
        damaged: Map::empty(),
        root_cells: Map::empty(),
        fresh: Seq::new(
            area_aside(sb, limits) as nat,
            |i: int|
                (area_reserved(sb, limits) + area_aside(sb, limits) - 1 - i) as u64,
        ),
        limits,
    })
    &&& v.area.used@ == Seq::new(
        area_blocks(sb, limits) as nat,
        |i: int| i < area_reserved(sb, limits) + area_aside(sb, limits),
    )
    &&& v.area.blocks@ == Map::<u64, Vec<u8>>::empty()
    &&& v.area.births@ == Seq::<crate::fs::snapshots::BlockChecksum>::empty()
    &&& v.area.checked == (sb.checksum_tree_root != 0)
    &&& v.area.barrier == sb.last_snapshot_generation
    &&& v.area.stamp == next_stamp(sb)
}

/// The `n` numbers from `from` on, last first.
fn count_down(from: u64, n: u64) -> (r: Vec<u64>)
    requires
        from + n <= u64::MAX,
    ensures
        r@ == Seq::new(n as nat, |i: int| (from + n - 1 - i) as u64),
{
    let mut r: Vec<u64> = Vec::new();
    let mut left: u64 = n;
    while left > 0
        invariant
            left <= n,
            from + n <= u64::MAX,
            r@ == Seq::new((n - left) as nat, |i: int| (from + n - 1 - i) as u64),
        decreases left,
    {
        left = left - 1;
        r.push(from + left);
        assert(r@ =~= Seq::new((n - left) as nat, |i: int| (from + n - 1 - i) as u64));
    }
    r
}

/// The stamp that the first writes after a mount get.
fn stamp_after(sb: &Superblock) -> (r: u64)
    ensures
        r == next_stamp(*sb),
{
    if sb.node_generation > sb.last_snapshot_generation {
        sb.node_generation.saturating_add(1)
    } else {
        sb.last_snapshot_generation.saturating_add(1)
    }
}

/// A volume.
pub struct Volume {
    /// The superblock.
    pub sb: Superblock,
    /// Inodes by number.
    pub inodes: OrdMap<Inode>,
    /// Spill extents by root block.
    pub spills: OrdMap<Vec<Extent>>,
    /// Directory entries by inode.
    pub dirs: OrdMap<Vec<DirEntry>>,
    /// Stored bytes by inode, as the runs of the inodes find them in the data
    /// blocks.
    pub data: Ghost<Map<u64, Seq<u8>>>,
    /// The data blocks. Their barrier and stamp are those of the mount; what a
    /// snapshot freezes later is kept by its pins.
    pub area: DataArea,
    /// Attributes by inode.
    pub xattrs: OrdMap<Vec<XattrEntry>>,
    /// Clone records by the inode that was made.
    pub clones: OrdMap<CloneRecord>,
    /// Blocks of which the stored bytes cannot be read, by inode.
    pub damaged: OrdMap<Vec<u64>>,
    /// Tree roots that the open transaction has moved, by node type.
    pub root_cells: OrdMap<u64>,
    /// Metadata blocks that the allocator gives next, last first.
    pub fresh: Vec<u64>,
    /// How much fits.
    pub limits: Limits,
}

/// The bytes that are stored under a number.
pub open spec fn stored_in(data: Map<u64, Seq<u8>>, ino: u64) -> Seq<u8> {
    if data.contains_key(ino) {
        data[ino]
    } else {
        Seq::empty()
    }
}

/// An inode may be stored under a number: it has the number, which has been
/// given out, no more extents than slots, and no byte stored past its size.
pub open spec fn inode_fits(
    inode: Inode,
    ino: u64,
    data: Map<u64, Seq<u8>>,
    next_ino: u64,
) -> bool {
    &&& inode.ino == ino
    &&& ino < next_ino
    &&& extents::inode_ok(inode)
    &&& stored_in(data, ino).len() <= inode.size
}

/// Every inode fits its number, and nothing else stores bytes.
#[verifier::opaque]
pub open spec fn inodes_ok(
    inodes: Map<u64, Inode>,
    data: Map<u64, Seq<u8>>,
    next_ino: u64,
) -> bool {
    &&& forall|k: u64| #[trigger]
        inodes.contains_key(k) ==> inode_fits(inodes[k], k, data, next_ino)
    &&& forall|k: u64| #[trigger] data.contains_key(k) ==> inodes.contains_key(k)
}

/// What is known of one number.
pub proof fn lemma_inode_fits(v: Volume, ino: u64)
    requires
        v.wf(),
    ensures
        v@.inodes.contains_key(ino) ==> inode_fits(
            v@.inodes[ino],
            ino,
            v@.data,
            v@.sb.next_ino,
        ) && v@.stored(ino).len() <= v@.inodes[ino].size,
        !v@.inodes.contains_key(ino) ==> v@.stored(ino).len() == 0,
        ino >= v@.sb.next_ino ==> !v@.inodes.contains_key(ino),
{
    reveal(inodes_ok);
}

/// Writing an inode that fits keeps the inodes sound.
proof fn lemma_inode_written(
    inodes: Map<u64, Inode>,
    data: Map<u64, Seq<u8>>,
    next_ino: u64,
    inode: Inode,
)
    requires
        inodes_ok(inodes, data, next_ino),
        inode_fits(inode, inode.ino, data, next_ino),
    ensures
        inodes_ok(inodes.insert(inode.ino, inode), data, next_ino),
{
    reveal(inodes_ok);
}

/// Giving out numbers keeps the inodes sound.
proof fn lemma_numbers_given(
    inodes: Map<u64, Inode>,
    data: Map<u64, Seq<u8>>,
    next_ino: u64,
    later: u64,
)
    requires
        inodes_ok(inodes, data, next_ino),
        next_ino <= later,
    ensures
        inodes_ok(inodes, data, later),
{
    reveal(inodes_ok);
}

/// Writing a file that fits keeps the inodes sound.
pub proof fn lemma_file_written(
    inodes: Map<u64, Inode>,
    data: Map<u64, Seq<u8>>,
    next_ino: u64,
    inode: Inode,
    content: Seq<u8>,
)
    requires
        inodes_ok(inodes, data, next_ino),
        inodes.contains_key(inode.ino),
        extents::inode_ok(inode),
        content.len() <= inode.size,
    ensures
        inodes_ok(
            inodes.insert(inode.ino, inode),
            data.insert(inode.ino, content),
            next_ino,
        ),
{
    reveal(inodes_ok);
    let new_inodes = inodes.insert(inode.ino, inode);
    let new_data = data.insert(inode.ino, content);
    assert forall|k: u64| #[trigger] new_inodes.contains_key(k) implies inode_fits(
        new_inodes[k],
        k,
        new_data,
        next_ino,
    ) by {
        assert(inodes.contains_key(k));
        if k != inode.ino {
            assert(stored_in(new_data, k) == stored_in(data, k));
        }
    }
    assert forall|k: u64| #[trigger] new_data.contains_key(k) implies new_inodes.contains_key(
        k,
    ) by {
        if k != inode.ino {
            assert(data.contains_key(k));
        }
    }
}

impl Volume {
    /// What the volume holds.
    pub open spec fn view(&self) -> VolumeView {
        VolumeView {
            sb: self.sb,
            inodes: self.inodes@,
            spills: self.spills@.map_values(|v: Vec<Extent>| v@),
            dirs: self.dirs@.map_values(|v: Vec<DirEntry>| entries_of(v@)),
            data: self.data@,
            area: self.area,
            xattrs: self.xattrs@.map_values(|v: Vec<XattrEntry>| attrs_of(v@)),
            clones: self.clones@,
            damaged: self.damaged@.map_values(|v: Vec<u64>| v@),
            root_cells: self.root_cells@,
            fresh: self.fresh@,
            limits: self.limits,
        }
    }

    /// The maps are in order, the inodes are sound, the stored bytes are in the
    /// data blocks, and a name occurs once in a directory.
    pub open spec fn wf(&self) -> bool {
        &&& self.inodes.wf()
        &&& self.spills.wf()
        &&& self.dirs.wf()
        &&& self.area.wf()
        &&& self.area.used@.len() <= isize::MAX
        &&& self.xattrs.wf()
        &&& self.clones.wf()
        &&& self.damaged.wf()
        &&& self.root_cells.wf()
        &&& self.limits.file_bytes <= isize::MAX
        &&& self.limits.dir_entries <= isize::MAX
        &&& placement::layout_ok(self@.inodes, self@.spills, self@.fresh)
        &&& placement::blocks_ok(
            placement::all_runs(self@.inodes, self@.spills),
            self.area,
            self@.data,
        )
        &&& inodes_ok(self@.inodes, self@.data, self@.sb.next_ino)
        &&& dirs_ok(self@.dirs, self@.limits.dir_entries)
    }

    /// A volume with nothing in it but what the superblock says. Some of its
    /// free blocks are set aside for metadata.
    pub fn new(sb: Superblock, limits: Limits) -> (r: Self)
        requires
            limits.dir_entries <= isize::MAX,
            limits.file_bytes <= isize::MAX,
            limits.blocks <= isize::MAX,
        ensures
            r.wf(),
            is_empty_volume(r@, sb, limits),
    {
        let blocks: u64 = if sb.total_blocks < limits.blocks {
            sb.total_blocks
        } else {
            limits.blocks
        };
        let reserved: u64 = if sb.free_blocks < blocks {
            blocks - sb.free_blocks
        } else {
            1
        };
        let aside: u64 = if blocks < reserved || blocks - reserved < 2 {
            0
        } else {
            1 + (blocks - reserved) / 64
        };
        let mut area = DataArea::new(
            blocks as usize,
            (reserved + aside) as usize,
            sb.checksum_tree_root != 0,
        );
        let fresh = count_down(reserved, aside);
        area.barrier = sb.last_snapshot_generation;
        area.stamp = stamp_after(&sb);
        let r = Volume {
            sb,
            inodes: OrdMap::new(),
            spills: OrdMap::new(),
            dirs: OrdMap::new(),
            data: Ghost(Map::empty()),
            area,
            xattrs: OrdMap::new(),
            clones: OrdMap::new(),
            damaged: OrdMap::new(),
            root_cells: OrdMap::new(),
            fresh,
            limits,
        };
        assert(r@.spills =~= Map::empty());
        assert(r@.dirs =~= Map::empty());
        assert(r@.xattrs =~= Map::empty());
        assert(r@.damaged =~= Map::empty());
        proof {
            reveal(inodes_ok);
            reveal(dirs_ok);
            reveal(placement::layout_ok);
            reveal(placement::blocks_ok);
        }
        r
    }

    /// Opens what was read from an image under its newest superblock: no tree
    /// root has moved yet, and blocks that are written from now on are newer than
    /// all that it holds.
    pub fn reopen(&mut self, sb: Superblock)
        requires
            old(self).wf(),
            old(self)@.sb.next_ino <= sb.next_ino,
        ensures
            final(self).wf(),
            final(self)@ == (VolumeView {
                sb,
                area: DataArea {
                    barrier: sb.last_snapshot_generation,
                    stamp: next_stamp(sb),
                    ..old(self)@.area
                },
                root_cells: Map::empty(),
                ..old(self)@
            }),
            final(self)@.all_runs() == old(self)@.all_runs(),
    {
        let ghost v = self@;
        self.area.barrier = sb.last_snapshot_generation;
        self.area.stamp = stamp_after(&sb);
        self.root_cells = OrdMap::new();
        self.sb = sb;
        proof {
            lemma_numbers_given(v.inodes, v.data, v.sb.next_ino, sb.next_ino);
            placement::lemma_same_bytes(v.all_runs(), v.area, self.area, v.data);
            assert(self@.all_runs() =~= v.all_runs());
        }
    }

    /// The inode of a number.
    pub fn read_inode(&self, ino: u64) -> (r: Option<Inode>)
        requires
            self.wf(),
        ensures
            r == (if self@.inodes.contains_key(ino) {
                Some(self@.inodes[ino])
            } else {
                None
            }),
            r matches Some(inode) ==> inode_fits(inode, ino, self@.data, self@.sb.next_ino),
    {
        proof {
            lemma_inode_fits(*self, ino);
        }
        self.inodes.lookup(ino)
    }

    /// Writes an inode; whether there was room for it.
    pub fn write_inode(&mut self, inode: Inode) -> (ok: bool)
        requires
            old(self).wf(),
            inode.ino < old(self)@.sb.next_ino,
            extents::inode_ok(inode),
            old(self)@.stored(inode.ino).len() <= inode.size,
            old(self)@.keeps_blocks(inode),
        ensures
            final(self).wf(),
            ok == old(self)@.room_for_inode(inode.ino),
            final(self)@ == (if ok {
                old(self)@.with_inode(inode)
            } else {
                old(self)@
            }),
            forall|rc: RefCountManager|
                placement::shares_pinned(old(self)@.all_runs(), rc)
                    ==> #[trigger] placement::shares_pinned(final(self)@.all_runs(), rc),
    {
        proof {
            ordmap::lemma_map_len(self.inodes.entries());
        }
        if self.inodes.get(inode.ino).is_none() && self.inodes.len() as u64 >= self.limits.inodes {
            return false;
        }
        self.inodes.insert(inode.ino, inode);
        proof {
            let v = old(self)@;
            lemma_inode_fits(*old(self), inode.ino);
            lemma_inode_written(v.inodes, v.data, self@.sb.next_ino, inode);
            placement::lemma_inode_kept(v.inodes, v.spills, v.fresh, v.area, v.data, inode);
        }
        true
    }

    /// Whether another inode fits.
    pub fn room_for_new(&self) -> (r: bool)
        requires
            self.wf(),
        ensures
            r == (self@.inodes.dom().len() < self@.limits.inodes),
    {
        proof {
            ordmap::lemma_map_len(self.inodes.entries());
        }
        (self.inodes.len() as u64) < self.limits.inodes
    }

    /// The next inode number, if there is one.
    pub fn allocate_inode(&mut self) -> (r: Option<u64>)
        requires
            old(self).wf(),
        ensures
            final(self).wf(),
            r == (if old(self)@.sb.next_ino < u64::MAX {
                Some(old(self)@.sb.next_ino)
            } else {
                None
            }),
            final(self)@ == (match r {
                Some(ino) => old(self)@.with_number_taken(),
                None => old(self)@,
            }),
    {
        let ino = self.sb.next_ino;
        if ino == u64::MAX {
            return None;
        }
        self.sb.next_ino = ino + 1;
        proof {
            lemma_numbers_given(self@.inodes, self@.data, ino, self@.sb.next_ino);
        }
        Some(ino)
    }

    /// A block for metadata, if the allocator has one.
    pub fn allocate_block(&mut self) -> (r: Option<u64>)
        requires
            old(self).wf(),
        ensures
            final(self).wf(),
            r == (if old(self)@.fresh.len() > 0 {
                Some(old(self)@.fresh.last())
            } else {
                None
            }),
            final(self)@ == (if old(self)@.fresh.len() > 0 {
                VolumeView { fresh: old(self)@.fresh.drop_last(), ..old(self)@ }
            } else {
                old(self)@
            }),
            r matches Some(b) ==> b != 0 && !final(self)@.spills.contains_key(b)
                && !final(self)@.fresh.contains(b),
    {
        proof {
            if self@.fresh.len() > 0 {
                placement::lemma_fresh_taken(self@.inodes, self@.spills, self@.fresh);
            }
        }
        self.fresh.pop()
    }

    /// Replaces the superblock.
    pub fn set_superblock(&mut self, sb: Superblock)
        requires
            old(self).wf(),
            sb.next_ino >= old(self)@.sb.next_ino,
        ensures
            final(self).wf(),
            final(self)@ == (VolumeView { sb, ..old(self)@ }),
    {
        self.sb = sb;
        proof {
            lemma_numbers_given(self@.inodes, self@.data, old(self)@.sb.next_ino, sb.next_ino);
        }
    }

    /// Records that the open transaction has moved a tree root.
    pub fn set_root_cell(&mut self, node_type: u64, root: u64)
        requires
            old(self).wf(),
        ensures
            final(self).wf(),
            final(self)@ == (VolumeView {
                root_cells: old(self)@.root_cells.insert(node_type, root),
                ..old(self)@
            }),
    {
        self.root_cells.insert(node_type, root);
    }

    /// Hands out the roots that the open transaction has moved.
    pub fn take_root_cells(&mut self) -> (r: OrdMap<u64>)
        requires
            old(self).wf(),
        ensures
            final(self).wf(),
            r.wf(),
            r@ == old(self)@.root_cells,
            final(self)@ == (VolumeView { root_cells: Map::empty(), ..old(self)@ }),
    {
        let mut cells: OrdMap<u64> = OrdMap::new();
        std::mem::swap(&mut cells, &mut self.root_cells);
        cells
    }

    /// Stores the spill extents of a file at `root`, where none are yet.
    pub fn set_spill(&mut self, root: u64, runs: Vec<Extent>)
        requires
            old(self).wf(),
            !old(self)@.spills.contains_key(root),
            !old(self)@.fresh.contains(root),
        ensures
            final(self).wf(),
            final(self)@ == (VolumeView {
                spills: old(self)@.spills.insert(root, runs@),
                ..old(self)@
            }),
            final(self)@.all_runs() == old(self)@.all_runs(),
    {
        proof {
            placement::lemma_list_added(
                self@.inodes,
                self@.spills,
                self@.fresh,
                root,
                runs@,
            );
        }
        self.spills.insert(root, runs);
        assert(self@.spills =~= old(self)@.spills.insert(root, runs@));
    }

    /// A copy of the spill extents at `root`.
    pub fn read_spill(&self, root: u64) -> (r: Vec<Extent>)
        requires
            self.wf(),
            root != 0,
        ensures
            r@ == self@.spilled(root),
    {
        match self.spills.get(root) {
            Some(v) => {
                let mut out: Vec<Extent> = Vec::new();
                let mut i: usize = 0;
                while i < v.len()
                    invariant
                        i <= v@.len(),
                        out@ == v@.take(i as int),
                    decreases v@.len() - i,
                {
                    out.push(v[i]);
                    i = i + 1;
                    assert(out@ =~= v@.take(i as int));
                }
                assert(out@ =~= v@);
                out
            },
            None => Vec::new(),
        }
    }

    /// Records a clone.
    pub fn record_clone(&mut self, dst_ino: u64, record: CloneRecord)
        requires
            old(self).wf(),
        ensures
            final(self).wf(),
            final(self)@ == (VolumeView {
                clones: old(self)@.clones.insert(dst_ino, record),
                ..old(self)@
            }),
    {
        self.clones.insert(dst_ino, record);
    }

    /// Adds an entry at the end of a directory; whether the directory took it.
    /// It has to have room, and no entry of the name.
    pub fn add_entry(&mut self, dir: u64, name: &str, ino: u64, file_type: u8) -> (ok: bool)
        requires
            old(self).wf(),
        ensures
            final(self).wf(),
            ok == old(self)@.takes_entry(dir, name@),
            final(self)@ == (if ok {
                old(self)@.with_entry(dir, Entry { name: name@, ino, file_type })
            } else {
                old(self)@
            }),
    {
        let ghost before = self@;
        proof {
            lemma_entry_pos(before.listing(dir), name@);
        }
        let n: usize = match self.dirs.get(dir) {
            Some(v) => {
                if find_entry(v, name) < v.len() {
                    return false;
                }
                v.len()
            },
            None => 0,
        };
        if n as u64 >= self.limits.dir_entries {
            return false;
        }
        let mut list = match self.dirs.take(dir) {
            Some(v) => v,
            None => Vec::new(),
        };
        let ghost old_list = list@;
        assert(entries_of(old_list) =~= before.listing(dir));
        list.push(DirEntry { name: String::from_str(name), ino, file_type });
        assert(entries_of(list@) =~= before.listing(dir).push(
            Entry { name: name@, ino, file_type },
        ));
        self.dirs.insert(dir, list);
        assert(self@.dirs =~= before.with_entry(dir, Entry { name: name@, ino, file_type }).dirs);
        proof {
            lemma_dirs_grown(
                before.dirs,
                dir,
                before.listing(dir),
                Entry { name: name@, ino, file_type },
                before.limits.dir_entries,
            );
        }
        true
    }

    /// Takes the entry of the name out of a directory; its inode.
    pub fn remove_entry(&mut self, dir: u64, name: &str) -> (r: Option<u64>)
        requires
            old(self).wf(),
        ensures
            final(self).wf(),
            r == (if old(self)@.has_entry(dir, name@) {
                Some(old(self)@.entry_ino(dir, name@))
            } else {
                None
            }),
            final(self)@ == (if old(self)@.has_entry(dir, name@) {
                old(self)@.without_entry(dir, name@)
            } else {
                old(self)@
            }),
    {
        let ghost before = self@;
        let pos: usize = match self.dirs.get(dir) {
            Some(v) => {
                let pos = find_entry(v, name);
                if pos == v.len() {
                    return None;
                }
                pos
            },
            None => {
                return None;
            },
        };
        match self.dirs.take(dir) {
            Some(mut list) => {
                let ghost old_list = list@;
                let e = list.remove(pos);
                assert(entries_of(list@) =~= entries_of(old_list).remove(pos as int));
                self.dirs.insert(dir, list);
                assert(self@.dirs =~= before.without_entry(dir, name@).dirs);
                proof {
                    lemma_dirs_shrunk(before.dirs, dir, pos as int, before.limits.dir_entries);
                }
                Some(e.ino)
            },
            None => None,
        }
    }

    /// The entries of a directory other than itself and its parent.
    pub fn read_entries(&self, dir: u64) -> (r: Vec<DirEntry>)
        requires
            self.wf(),
        ensures
            entries_of(r@) == real_entries(self@.listing(dir)),
    {
        match self.dirs.get(dir) {
            Some(v) => real_of(v),
            None => {
                let r: Vec<DirEntry> = Vec::new();
                proof {
                    reveal(Seq::filter);
                    assert(entries_of(r@) =~= real_entries(Seq::empty()));
                }
                r
            },
        }
    }

    /// The blocks of a file that cannot be read.
    pub fn unreadable_blocks(&self, ino: u64) -> (r: Vec<u64>)
        requires
            self.wf(),
        ensures
            r@ == self@.unreadable_of(ino),
    {
        match self.damaged.get(ino) {
            Some(blocks) => {
                let mut out: Vec<u64> = Vec::new();
                let mut i: usize = 0;
                while i < blocks.len()
                    invariant
                        i <= blocks@.len(),
                        out@ == blocks@.take(i as int),
                    decreases blocks@.len() - i,
                {
                    out.push(blocks[i]);
                    i = i + 1;
                    assert(out@ =~= blocks@.take(i as int));
                }
                assert(out@ =~= blocks@);
                out
            },
            None => Vec::new(),
        }
    }

    /// Sets the blocks of a file that cannot be read.
    pub fn set_unreadable(&mut self, ino: u64, blocks: Vec<u64>)
        requires
            old(self).wf(),
        ensures
            final(self).wf(),
            final(self)@ == old(self)@.with_unreadable(ino, blocks@),
    {
        let ghost before = self@;
        self.damaged.insert(ino, blocks);
        assert(self@.damaged =~= before.damaged.insert(ino, blocks@));
    }

    /// Whether a block of the file from `first` to `last` cannot be read.
    pub fn has_unreadable(&self, ino: u64, first: u64, last: u64) -> (r: bool)
        requires
            self.wf(),
        ensures
            r == self@.unreadable_in(ino, first as int, last as int),
    {
        let blocks = self.unreadable_blocks(ino);
        let mut i: usize = 0;
        while i < blocks.len()
            invariant
                i <= blocks@.len(),
                blocks@ == self@.unreadable_of(ino),
                forall|j: int| 0 <= j < i ==> !(first <= #[trigger] blocks@[j] <= last),
            decreases blocks@.len() - i,
        {
            if first <= blocks[i] && blocks[i] <= last {
                assert(blocks@.contains(blocks@[i as int]));
                assert(self@.unreadable(ino, blocks@[i as int]));
                return true;
            }
            i = i + 1;
        }
        false
    }

    /// The value of an attribute.
    pub fn get_attr(&self, ino: u64, name: &str) -> (r: Option<Vec<u8>>)
        requires
            self.wf(),
        ensures
            r is Some <==> self@.has_attr(ino, name@),
            r matches Some(v) ==> v@ == self@.attrs(ino)[attr_pos(
                self@.attrs(ino),
                name@,
            ) as int].value,
    {
        match self.xattrs.get(ino) {
            Some(v) => {
                let pos = find_attr(v, name);
                if pos == v.len() {
                    None
                } else {
                    let value = &v[pos].value;
                    let r = bytes::copy_range(value.as_slice(), 0, value.len());
                    assert(r@ =~= value@);
                    Some(r)
                }
            },
            None => None,
        }
    }

    /// The names of the attributes of an inode.
    pub fn list_attrs(&self, ino: u64) -> (r: Vec<String>)
        requires
            self.wf(),
        ensures
            r@.len() == self@.attrs(ino).len(),
            forall|i: int|
                0 <= i < r@.len() ==> (#[trigger] r@[i])@ == self@.attrs(ino)[i].name,
    {
        let mut out: Vec<String> = Vec::new();
        match self.xattrs.get(ino) {
            Some(v) => {
                let mut i: usize = 0;
                while i < v.len()
                    invariant
                        i <= v@.len(),
                        out@.len() == i,
                        forall|j: int|
                            0 <= j < i ==> (#[trigger] out@[j])@ == attrs_of(v@)[j].name,
                    decreases v@.len() - i,
                {
                    out.push(String::from_str(v[i].name.as_str()));
                    i = i + 1;
                }
            },
            None => {},
        }
        out
    }

    /// Sets an attribute.
    pub fn set_attr(&mut self, ino: u64, name: &str, value: &[u8], flags: i32, is_symlink: bool) -> (r:
        Result<(), Error>)
        requires
            old(self).wf(),
        ensures
            final(self).wf(),
            match old(self)@.set_refused(ino, name@, value@, flags, is_symlink) {
                Some(kind) => {
                    &&& r matches Err(e) && e.kind == kind
                    &&& final(self)@ == old(self)@
                },
                None => {
                    &&& r is Ok
                    &&& final(self)@ == old(self)@.with_attrs(
                        ino,
                        old(self)@.attrs_after_set(
                            ino,
                            name@,
                            value@,
                            xattr::class_of(name@)->0,
                        ),
                    )
                },
            },
    {
        let ghost before = self@;
        proof {
            reveal(VolumeView::set_refused);
        }
        let class = match xattr::classify_name(name) {
            Ok(class) => class,
            Err(e) => {
                return Err(e);
            },
        };
        if is_symlink && class == xattr::NS_USER {
            return Err(
                Error::new(ErrorKind::Unsupported, "a symbolic link takes no user attributes"),
            );
        }
        let (pos, n): (usize, usize) = match self.xattrs.get(ino) {
            Some(v) => {
                assert(attrs_of(v@) =~= before.attrs(ino));
                (find_attr(v, name), v.len())
            },
            None => (0, 0),
        };
        let exists_already = pos < n;
        assert(exists_already == before.has_attr(ino, name@));
        if flags == xattr::XATTR_CREATE && exists_already {
            return Err(Error::new(ErrorKind::AlreadyExists, "xattr exists"));
        }
        if flags == xattr::XATTR_REPLACE && !exists_already {
            return Err(Error::new(ErrorKind::NotFound, "xattr not found"));
        }
        let value_copy = bytes::copy_range(value, 0, value.len());
        assert(value_copy@ =~= value@);
        let entry = XattrEntry { name: String::from_str(name), value: value_copy, ns_flags: class };
        let mut list = match self.xattrs.get(ino) {
            Some(v) => copy_attrs(v),
            None => Vec::new(),
        };
        assert(attrs_of(list@) =~= before.attrs(ino));
        let ghost old_list = list@;
        if exists_already {
            list.set(pos, entry);
        } else {
            list.push(entry);
        }
        let ghost after = before.attrs_after_set(ino, name@, value@, class);
        assert(attrs_of(list@) =~= after);
        assert(xattr::raws(list@) =~= after.map_values(|a: Attr| a.raw()));
        match xattr::write_block(list.as_slice()) {
            Ok(_) => {},
            Err(e) => {
                return Err(e);
            },
        }
        self.xattrs.insert(ino, list);
        assert(self@.xattrs =~= before.with_attrs(ino, after).xattrs);
        Ok(())
    }

    /// Removes an attribute; whether it was there.
    pub fn remove_attr(&mut self, ino: u64, name: &str) -> (existed: bool)
        requires
            old(self).wf(),
        ensures
            final(self).wf(),
            existed == old(self)@.has_attr(ino, name@),
            final(self)@ == (if existed {
                old(self)@.with_attrs(
                    ino,
                    old(self)@.attrs(ino).remove(attr_pos(old(self)@.attrs(ino), name@) as int),
                )
            } else {
                old(self)@
            }),
    {
        let ghost before = self@;
        let pos: usize = match self.xattrs.get(ino) {
            Some(v) => {
                let pos = find_attr(v, name);
                if pos == v.len() {
                    return false;
                }
                pos
            },
            None => {
                return false;
            },
        };
        match self.xattrs.take(ino) {
            Some(mut list) => {
                let ghost old_list = list@;
                let _ = list.remove(pos);
                assert(attrs_of(list@) =~= attrs_of(old_list).remove(pos as int));
                self.xattrs.insert(ino, list);
                assert(self@.xattrs =~= before.with_attrs(
                    ino,
                    before.attrs(ino).remove(pos as int),
                ).xattrs);
                true
            },
            None => false,
        }
    }
}

/// The position of the first entry that has the name.
pub(crate) fn find_entry(v: &Vec<DirEntry>, name: &str) -> (pos: usize)
    ensures
        pos == entry_pos(entries_of(v@), name@),
        pos <= v@.len(),
{
    let ghost s = entries_of(v@);
    let mut i: usize = 0;
    assert(s.skip(0) =~= s);
    while i < v.len()
        invariant
            s == entries_of(v@),
            i <= v@.len(),
            entry_pos(s, name@) == i + entry_pos(s.skip(i as int), name@),
        decreases v@.len() - i,
    {
        assert(s.skip(i as int)[0] == v@[i as int]@);
        if text::same_text(v[i].name.as_str(), name) {
            return i;
        }
        assert(s.skip(i as int).drop_first() =~= s.skip(i + 1));
        i = i + 1;
    }
    i
}

/// The position of the first attribute that has the name.
fn find_attr(v: &Vec<XattrEntry>, name: &str) -> (pos: usize)
    ensures
        pos == attr_pos(attrs_of(v@), name@),
        pos <= v@.len(),
{
    let ghost s = attrs_of(v@);
    let mut i: usize = 0;
    assert(s.skip(0) =~= s);
    while i < v.len()
        invariant
            s == attrs_of(v@),
            i <= v@.len(),
            attr_pos(s, name@) == i + attr_pos(s.skip(i as int), name@),
        decreases v@.len() - i,
    {
        assert(s.skip(i as int)[0].name == v@[i as int].name@);
        if text::same_text(v[i].name.as_str(), name) {
            return i;
        }
        assert(s.skip(i as int).drop_first() =~= s.skip(i + 1));
        i = i + 1;
    }
    i
}

/// The entries other than the directory itself and its parent.
fn real_of(v: &Vec<DirEntry>) -> (r: Vec<DirEntry>)
    ensures
        entries_of(r@) == real_entries(entries_of(v@)),
{
    let ghost s = entries_of(v@);
    let ghost keep = |e: Entry| !is_dot(e);
    let mut out: Vec<DirEntry> = Vec::new();
    let mut i: usize = 0;
    proof {
        reveal(Seq::filter);
        reveal_strlit(".");
        reveal_strlit("..");
        assert("."@ =~= seq!['.']);
        assert(".."@ =~= seq!['.', '.']);
        assert(entries_of(out@) =~= s.take(0).filter(keep));
    }
    while i < v.len()
        invariant
            s == entries_of(v@),
            keep == (|e: Entry| !is_dot(e)),
            "."@ == seq!['.'],
            ".."@ == seq!['.', '.'],
            i <= v@.len(),
            entries_of(out@) == s.take(i as int).filter(keep),
        decreases v@.len() - i,
    {
        let e = &v[i];
        let ghost before = out@;
        proof {
            s.take(i as int).lemma_filter_push(e@, keep);
            assert(s.take(i + 1) =~= s.take(i as int).push(e@));
        }
        if !text::same_text(e.name.as_str(), ".") && !text::same_text(e.name.as_str(), "..") {
            let copy = DirEntry {
                name: String::from_str(e.name.as_str()),
                ino: e.ino,
                file_type: e.file_type,
            };
            assert(copy@ == e@);
            out.push(copy);
            assert(entries_of(out@) =~= entries_of(before).push(e@));
        }
        i = i + 1;
    }
    assert(s.take(i as int) =~= s);
    out
}

/// A copy of a list of attributes.
fn copy_attrs(v: &Vec<XattrEntry>) -> (r: Vec<XattrEntry>)
    ensures
        attrs_of(r@) == attrs_of(v@),
{
    let mut out: Vec<XattrEntry> = Vec::new();
    let mut i: usize = 0;
    while i < v.len()
        invariant
            i <= v@.len(),
            attrs_of(out@) == attrs_of(v@).take(i as int),
        decreases v@.len() - i,
    {
        let e = &v[i];
        let ghost before = out@;
        let value = bytes::copy_range(e.value.as_slice(), 0, e.value.len());
        assert(value@ =~= e.value@);
        out.push(
            XattrEntry { name: String::from_str(e.name.as_str()), value, ns_flags: e.ns_flags },
        );
        i = i + 1;
        assert(attrs_of(out@) =~= attrs_of(before).push(attrs_of(v@)[i - 1]));
        assert(attrs_of(v@).take(i as int) =~= attrs_of(v@).take(i - 1).push(attrs_of(v@)[i - 1]));
    }
    assert(attrs_of(v@).take(i as int) =~= attrs_of(v@));
    out
}

/// After a mount writes get a stamp past that of every node and every snapshot,
/// as long as there is one.
pub proof fn next_stamp_is_past_all(sb: Superblock)
    ensures
        sb.node_generation < u64::MAX && sb.last_snapshot_generation < u64::MAX ==> next_stamp(sb)
            > sb.node_generation && next_stamp(sb) > sb.last_snapshot_generation,
        next_stamp(sb) == sb.node_generation + 1 || next_stamp(sb) == sb.last_snapshot_generation
            + 1 || next_stamp(sb) == u64::MAX,
{
}

/// A new volume has as many blocks as the superblock says or as can be
/// addressed; as many of them free as the superblock says, if there are more
/// than that, and else all but one; and of the free ones one, and one more for
/// every 64, are kept for metadata, unless fewer than two are free.
pub proof fn new_volume_shares_out_its_blocks(sb: Superblock, limits: Limits)
    ensures
        area_blocks(sb, limits) <= sb.total_blocks && area_blocks(sb, limits) <= limits.blocks,
        area_blocks(sb, limits) == sb.total_blocks || area_blocks(sb, limits) == limits.blocks,
        sb.free_blocks < area_blocks(sb, limits) ==> area_blocks(sb, limits) - area_reserved(
            sb,
            limits,
        ) == sb.free_blocks,
        sb.free_blocks >= area_blocks(sb, limits) ==> area_reserved(sb, limits) == 1,
        ({
            let free = area_blocks(sb, limits) - area_reserved(sb, limits);
            let aside = area_aside(sb, limits);
            &&& free < 2 ==> aside == 0
            &&& free >= 2 ==> 64 * (aside - 1) <= free < 64 * aside && 1 <= aside < free
        }),
{
}

} // verus!
