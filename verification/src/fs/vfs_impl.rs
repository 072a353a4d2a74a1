//! The operations of a mounted image.

use crate::bytes;
use crate::common::text;
use crate::fs::filesystem;
use crate::fs::filesystem::{LionFS, SharedCore};
use crate::fs::page_cache;
use crate::fs::stat;
use crate::fs::vfs::{VfsAttr, VfsDirEntry, VfsError, VfsKind, VfsStatFs};
use crate::fs::vfs_acl;
use crate::fs::volume;
use crate::fs::volume::DirEntry;
use crate::inode::permissions;
use crate::integrity::bad_blocks;
use crate::ondisk::serialization::{Inode, BLOCK_SIZE};
use crate::posix;
use crate::security::posix_acl::{PERM_EXECUTE, PERM_READ, PERM_WRITE};
use vstd::prelude::*;
use vstd::string::StringExecFns;

verus! {

/// The control file that shows the scrubber.
pub const SCRUB_INO: u64 = 999_999;

/// The control file that shows the health of the image.
pub const HEALTH_INO: u64 = 999_998;

/// Seconds since the epoch, with times before it taken for the epoch.
pub open spec fn since_epoch(secs: i64) -> u64 {
    if secs >= 0 {
        secs as u64
    } else {
        0
    }
}

/// The blocks that `size` bytes take.
pub open spec fn blocks_of(size: u64) -> u64 {
    ((size + 4095) / 4096) as u64
}

/// The attributes that an inode has.
pub open spec fn attr_of(inode: Inode) -> VfsAttr {
    VfsAttr {
        ino: inode.ino,
        size: inode.size,
        blocks: blocks_of(inode.size),
        kind: if posix::type_of(inode.mode) == posix::S_IFDIR {
            VfsKind::Directory
        } else {
            VfsKind::RegularFile
        },
        perm: inode.mode & 0o7777,
        nlink: inode.links_count,
        uid: inode.uid,
        gid: inode.gid,
        atime: since_epoch(inode.atime),
        mtime: since_epoch(inode.mtime),
        ctime: since_epoch(inode.ctime),
        blksize: 4096,
        flags: 0,
    }
}

/// The attributes of a control file.
pub open spec fn control_attr(ino: u64) -> VfsAttr {
    VfsAttr {
        ino,
        size: 0,
        blocks: 0,
        kind: VfsKind::RegularFile,
        perm: 0o444,
        nlink: 1,
        uid: 0,
        gid: 0,
        atime: 0,
        mtime: 0,
        ctime: 0,
        blksize: 4096,
        flags: 0,
    }
}

/// The attributes that an inode has with what is buffered: the size grows to
/// that of the buffered writes, and the time is theirs.
pub open spec fn shadowed_attr(core: SharedCore, inode: Inode) -> VfsAttr {
    let attr = attr_of(inode);
    match core.page_cache.shadow_of(inode.ino) {
        Some((shadow_size, shadow_mtime)) => VfsAttr {
            size: if shadow_size > attr.size {
                shadow_size
            } else {
                attr.size
            },
            blocks: if shadow_size > attr.size {
                blocks_of(shadow_size)
            } else {
                attr.blocks
            },
            mtime: if shadow_mtime > 0 {
                shadow_mtime
            } else {
                attr.mtime
            },
            ..attr
        },
        None => attr,
    }
}

/// What reading `n` bytes at `offset` of `s` gives.
pub open spec fn window(s: Seq<u8>, offset: int, n: int) -> Seq<u8> {
    if offset >= s.len() {
        Seq::empty()
    } else if offset + n <= s.len() {
        s.subrange(offset, offset + n)
    } else {
        s.subrange(offset, s.len() as int)
    }
}

/// Every block from `first` to `last` is buffered.
pub open spec fn all_buffered(core: SharedCore, ino: u64, first: int, last: int) -> bool {
    forall|k: u64| first <= k <= last ==> #[trigger] core.page_cache.pages(ino).contains_key(k)
}

/// `out`, which begins at file offset `start`, with the part of one page that
/// falls into it laid over.
pub open spec fn page_laid(out: Seq<u8>, start: int, block: u64, page: Seq<u8>) -> Seq<u8> {
    Seq::new(
        out.len(),
        |i: int|
            if block * BLOCK_SIZE <= start + i < block * BLOCK_SIZE + BLOCK_SIZE {
                page[start + i - block * BLOCK_SIZE]
            } else {
                out[i]
            },
    )
}

/// `out` with the pages laid over, one after the other.
pub open spec fn pages_laid(out: Seq<u8>, start: int, cached: Seq<(u64, Vec<u8>)>) -> Seq<u8>
    decreases cached.len(),
{
    if cached.len() == 0 {
        out
    } else {
        page_laid(
            pages_laid(out, start, cached.drop_last()),
            start,
            cached.last().0,
            cached.last().1@,
        )
    }
}

/// How many of the `len` bytes from `start` lie in a block.
pub open spec fn overlap(start: int, len: int, block: u64) -> int {
    let from = if start > block * BLOCK_SIZE {
        start
    } else {
        block * BLOCK_SIZE
    };
    let to = if start + len < block * BLOCK_SIZE + BLOCK_SIZE {
        start + len
    } else {
        block * BLOCK_SIZE + BLOCK_SIZE
    };
    if from < to {
        to - from
    } else {
        0
    }
}

/// How many bytes the pages lay over.
pub open spec fn overlap_sum(start: int, len: int, cached: Seq<(u64, Vec<u8>)>) -> int
    decreases cached.len(),
{
    if cached.len() == 0 {
        0
    } else {
        overlap_sum(start, len, cached.drop_last()) + overlap(start, len, cached.last().0)
    }
}

/// Pages are whole blocks that begin within the number range.
pub open spec fn pages_whole(cached: Seq<(u64, Vec<u8>)>) -> bool {
    forall|j: int|
        0 <= j < cached.len() ==> (#[trigger] cached[j]).1@.len() == BLOCK_SIZE && cached[j].0
            * BLOCK_SIZE <= u64::MAX
}

proof fn lemma_pages_laid_len(out: Seq<u8>, start: int, cached: Seq<(u64, Vec<u8>)>)
    ensures
        pages_laid(out, start, cached).len() == out.len(),
    decreases cached.len(),
{
    if cached.len() > 0 {
        lemma_pages_laid_len(out, start, cached.drop_last());
    }
}

proof fn lemma_overlap_nonneg(start: int, len: int, cached: Seq<(u64, Vec<u8>)>)
    ensures
        0 <= overlap_sum(start, len, cached),
    decreases cached.len(),
{
    if cached.len() > 0 {
        lemma_overlap_nonneg(start, len, cached.drop_last());
    }
}

/// Laying pages of one map over gives each byte of the page of its block, if
/// that is among them.
proof fn lemma_laid_byte(
    out: Seq<u8>,
    start: int,
    cached: Seq<(u64, Vec<u8>)>,
    pages: Map<u64, Vec<u8>>,
    i: int,
)
    requires
        0 <= i < out.len(),
        start >= 0,
        forall|j: int|
            0 <= j < cached.len() ==> pages.contains_key((#[trigger] cached[j]).0) && cached[j].1@
                == pages[cached[j].0]@,
    ensures
        pages_laid(out, start, cached).len() == out.len(),
        ({
            let k = (start + i) / (BLOCK_SIZE as int);
            let hit = exists|j: int| 0 <= j < cached.len() && (#[trigger] cached[j]).0 == k;
            &&& hit ==> pages_laid(out, start, cached)[i] == pages[k as u64]@[(start + i) % (
            BLOCK_SIZE as int)]
            &&& !hit ==> pages_laid(out, start, cached)[i] == out[i]
        }),
    decreases cached.len(),
{
    lemma_pages_laid_len(out, start, cached);
    if cached.len() > 0 {
        let rest = cached.drop_last();
        assert forall|j: int| 0 <= j < rest.len() implies pages.contains_key(
            (#[trigger] rest[j]).0,
        ) && rest[j].1@ == pages[rest[j].0]@ by {
            assert(rest[j] == cached[j]);
        }
        lemma_laid_byte(out, start, rest, pages, i);
        lemma_pages_laid_len(out, start, rest);
        let k = (start + i) / (BLOCK_SIZE as int);
        let last = cached.last();
        assert(cached[cached.len() - 1] == last);
        assert((last.0 == k) == (last.0 * BLOCK_SIZE <= start + i < last.0 * BLOCK_SIZE
            + BLOCK_SIZE)) by {
            assert(start + i == k * 4096 + (start + i) % 4096);
        }
        if last.0 == k {
            assert(start + i - last.0 * BLOCK_SIZE == (start + i) % (BLOCK_SIZE as int));
        } else {
            assert forall|j: int| 0 <= j < cached.len() && (#[trigger] cached[j]).0 == k implies (
            exists|q: int| 0 <= q < rest.len() && (#[trigger] rest[q]).0 == k) by {
                assert(rest[j] == cached[j]);
            }
            assert forall|j: int| 0 <= j < rest.len() && (#[trigger] rest[j]).0 == k implies (
            exists|q: int| 0 <= q < cached.len() && (#[trigger] cached[q]).0 == k) by {
                assert(cached[j] == rest[j]);
            }
        }
    }
}

/// A filter that drops nothing keeps only what passes.
proof fn lemma_filter_all(s: Seq<u64>, p: spec_fn(u64) -> bool)
    ensures
        s.filter(p).len() == s.len() <==> (forall|i: int| 0 <= i < s.len() ==> p(#[trigger] s[i])),
    decreases s.len(),
{
    reveal(Seq::filter);
    if s.len() > 0 {
        let t = s.drop_last();
        lemma_filter_all(t, p);
        t.lemma_filter_len(p);
        if s.filter(p).len() == s.len() {
            assert forall|i: int| 0 <= i < s.len() implies p(#[trigger] s[i]) by {
                if i < t.len() {
                    assert(t[i] == s[i]);
                }
            }
        }
        if forall|i: int| 0 <= i < s.len() ==> p(#[trigger] s[i]) {
            assert forall|i: int| 0 <= i < t.len() implies p(#[trigger] t[i]) by {
                assert(t[i] == s[i]);
            }
            assert(p(s[s.len() - 1]));
        }
    }
}

/// The permission word of an access mask.
pub open spec fn perm_of_mask(mask: i32) -> u16 {
    let r: u16 = if mask & 4 != 0 {
        PERM_READ
    } else {
        0
    };
    let w: u16 = if mask & 2 != 0 {
        PERM_WRITE
    } else {
        0
    };
    let x: u16 = if mask & 1 != 0 {
        PERM_EXECUTE
    } else {
        0
    };
    (r + w + x) as u16
}

/// The permission word of an access mask.
pub fn mask_to_perm(mask: i32) -> (r: u16)
    ensures
        r == perm_of_mask(mask),
{
    let mut perm: u16 = 0;
    if mask & 4 != 0 {
        perm = perm + PERM_READ;
    }
    if mask & 2 != 0 {
        perm = perm + PERM_WRITE;
    }
    if mask & 1 != 0 {
        perm = perm + PERM_EXECUTE;
    }
    perm
}

/// The blocks from `first` to `last`.
fn block_list(first: u64, last: u64) -> (r: Vec<u64>)
    requires
        first <= last < u64::MAX,
        last - first < 0x20_0000,
    ensures
        r@ == Seq::new((last - first + 1) as nat, |i: int| (first + i) as u64),
{
    let mut out: Vec<u64> = Vec::new();
    let mut b: u64 = first;
    while b <= last
        invariant
            first <= b <= last + 1,
            last < u64::MAX,
            out@ == Seq::new((b - first) as nat, |i: int| (first + i) as u64),
        decreases last + 1 - b,
    {
        out.push(b);
        b = b + 1;
        assert(out@ =~= Seq::new((b - first) as nat, |i: int| (first + i) as u64));
    }
    out
}

/// What reading `n` bytes at `offset` of `data` gives.
fn read_window(data: &[u8], offset: u64, n: u32) -> (r: Vec<u8>)
    ensures
        r@ == window(data@, offset as int, n as int),
{
    if offset >= data.len() as u64 {
        return Vec::new();
    }
    let from: usize = offset as usize;
    let left: usize = data.len() - from;
    let end: usize = if (n as usize) < left {
        from + n as usize
    } else {
        data.len()
    };
    bytes::copy_range(data, from, end)
}

/// The kind that the type byte of an entry stands for.
pub open spec fn entry_kind(file_type: u8) -> VfsKind {
    if file_type == 2 {
        VfsKind::Directory
    } else {
        VfsKind::RegularFile
    }
}

/// What one line of a listing says.
pub struct ListLine {
    /// Inode.
    pub ino: u64,
    /// Kind.
    pub kind: VfsKind,
    /// Name.
    pub name: Seq<char>,
}

/// The lines of entries.
pub open spec fn entry_lines(s: Seq<volume::Entry>) -> Seq<ListLine> {
    s.map_values(
        |e: volume::Entry|
            ListLine { ino: e.ino, kind: entry_kind(e.file_type), name: e.name },
    )
}

/// The whole listing of a directory: itself, its parent, its entries, and at
/// the root the control files.
pub open spec fn listing_lines(core: SharedCore, ino: u64) -> Seq<ListLine> {
    let own = core.vol@.inodes[ino].ino;
    let head = seq![
        ListLine { ino: own, kind: VfsKind::Directory, name: seq!['.'] },
        ListLine { ino: own, kind: VfsKind::Directory, name: seq!['.', '.'] },
    ];
    let body = head + entry_lines(volume::real_entries(core.vol@.listing(ino)));
    if ino == 1 {
        body.push(
            ListLine { ino: SCRUB_INO, kind: VfsKind::RegularFile, name: ".lfs_scrub"@ },
        ).push(ListLine { ino: HEALTH_INO, kind: VfsKind::RegularFile, name: ".lfs_health"@ })
    } else {
        body
    }
}

/// The lines of a listing from `offset` on, at most `max` of them.
pub open spec fn lines_from(lines: Seq<ListLine>, offset: int, max: int) -> Seq<ListLine> {
    if offset >= lines.len() {
        Seq::empty()
    } else if offset + max <= lines.len() {
        lines.subrange(offset, offset + max)
    } else {
        lines.subrange(offset, lines.len() as int)
    }
}

/// The first inode that an entry of the name stands for and that is there.
pub open spec fn found_inode(
    entries: Seq<volume::Entry>,
    name: Seq<char>,
    inodes: Map<u64, Inode>,
) -> Option<Inode>
    decreases entries.len(),
{
    if entries.len() == 0 {
        None
    } else if entries[0].name == name && inodes.contains_key(entries[0].ino) {
        Some(inodes[entries[0].ino])
    } else {
        found_inode(entries.drop_first(), name, inodes)
    }
}

impl LionFS {
    /// The attributes that an inode has.
    pub fn to_vfs_attr(inode: &Inode) -> (r: VfsAttr)
        ensures
            r == attr_of(*inode),
    {
        let kind = if posix::is_dir(inode.mode) {
            VfsKind::Directory
        } else {
            VfsKind::RegularFile
        };
        VfsAttr {
            ino: inode.ino,
            size: inode.size,
            blocks: Self::block_count(inode.size),
            kind,
            perm: inode.mode & 0o7777,
            nlink: inode.links_count,
            uid: inode.uid,
            gid: inode.gid,
            atime: Self::clock(inode.atime),
            mtime: Self::clock(inode.mtime),
            ctime: Self::clock(inode.ctime),
            blksize: 4096,
            flags: 0,
        }
    }

    fn clock(secs: i64) -> (r: u64)
        ensures
            r == since_epoch(secs),
    {
        if secs >= 0 {
            secs as u64
        } else {
            0
        }
    }

    fn block_count(size: u64) -> (r: u64)
        ensures
            r == blocks_of(size),
    {
        let whole: u64 = size / 4096;
        if size % 4096 == 0 {
            whole
        } else {
            whole + 1
        }
    }

    /// The attributes that an inode has with what is buffered.
    pub fn attr_with_shadow(&self, inode: &Inode) -> (r: VfsAttr)
        requires
            self.wf(),
        ensures
            r == shadowed_attr(self.core, *inode),
    {
        proof {
            reveal(filesystem::cache_ok);
        }
        let mut attr = Self::to_vfs_attr(inode);
        if let Some((shadow_size, shadow_mtime)) = self.core.page_cache.shadow(inode.ino) {
            if shadow_size > attr.size {
                attr.size = shadow_size;
                attr.blocks = Self::block_count(shadow_size);
            }
            if shadow_mtime > 0 {
                attr.mtime = shadow_mtime;
            }
        }
        attr
    }

    /// The size of a file with what is buffered.
    pub fn effective_size(&self, inode: &Inode) -> (r: u64)
        requires
            self.wf(),
            self.core.vol@.inodes.contains_key(inode.ino),
            self.core.vol@.inodes[inode.ino] == *inode,
        ensures
            r == self.core.eff_size(inode.ino),
    {
        proof {
            reveal(filesystem::cache_ok);
        }
        match self.core.page_cache.shadow(inode.ino) {
            Some((shadow, _)) => if shadow > inode.size {
                shadow
            } else {
                inode.size
            },
            None => inode.size,
        }
    }

    /// The attributes of a control file.
    pub fn virtual_attr(ino: u64) -> (r: VfsAttr)
        ensures
            r == control_attr(ino),
    {
        VfsAttr {
            ino,
            size: 0,
            blocks: 0,
            kind: VfsKind::RegularFile,
            perm: 0o444,
            nlink: 1,
            uid: 0,
            gid: 0,
            atime: 0,
            mtime: 0,
            ctime: 0,
            blksize: 4096,
            flags: 0,
        }
    }

    /// Lays pages over `out`, which begins at file offset `start`; how many
    /// bytes they cover, or the greatest number there is if they cover more.
    pub fn overlay_pages(out: &mut Vec<u8>, start: u64, cached: &[(u64, Vec<u8>)]) -> (n: usize)
        requires
            start + old(out)@.len() <= u64::MAX,
            pages_whole(cached@),
        ensures
            final(out)@ == pages_laid(old(out)@, start as int, cached@),
            n == (if overlap_sum(start as int, old(out)@.len() as int, cached@) <= usize::MAX {
                overlap_sum(start as int, old(out)@.len() as int, cached@)
            } else {
                usize::MAX as int
            }),
    {
        let ghost len = out@.len() as int;
        let mut overlaid: usize = 0;
        let mut i: usize = 0;
        assert(cached@.take(0) =~= Seq::<(u64, Vec<u8>)>::empty());
        while i < cached.len()
            invariant
                start + len <= u64::MAX,
                len == old(out)@.len(),
                out@.len() == len,
                pages_whole(cached@),
                i <= cached@.len(),
                out@ == pages_laid(old(out)@, start as int, cached@.take(i as int)),
                overlaid == (if overlap_sum(start as int, len, cached@.take(i as int))
                    <= usize::MAX {
                    overlap_sum(start as int, len, cached@.take(i as int))
                } else {
                    usize::MAX as int
                }),
            decreases cached@.len() - i,
        {
            let block: u64 = cached[i].0;
            let page: &Vec<u8> = &cached[i].1;
            let ghost before = out@;
            proof {
                assert(cached@.take(i + 1).drop_last() =~= cached@.take(i as int));
                assert(cached@.take(i + 1).last() == cached@[i as int]);
                lemma_overlap_nonneg(start as int, len, cached@.take(i as int));
                assert(page@.len() == BLOCK_SIZE);
            }
            let block_start: u64 = block * 4096;
            let end: u64 = start + out.len() as u64;
            if block_start >= end || (start >= block_start && start - block_start >= 4096) {
                assert(page_laid(before, start as int, block, page@) =~= before);
            } else {
                let from: usize = if start > block_start {
                    (start - block_start) as usize
                } else {
                    0
                };
                let avail: u64 = end - block_start;
                let to: usize = if avail < 4096 {
                    avail as usize
                } else {
                    4096
                };
                let out_from: usize = if block_start > start {
                    (block_start - start) as usize
                } else {
                    0
                };
                bytes::overwrite(out, out_from, page.as_slice(), from, to);
                assert(out@ =~= page_laid(before, start as int, block, page@));
                overlaid = overlaid.saturating_add(to - from);
            }
            i = i + 1;
        }
        assert(cached@.take(i as int) =~= cached@);
        overlaid
    }

    /// The stored bytes of a file from `start` on, zeros where none is stored.
    fn stored_window(&self, ino: u64, start: u64, len: usize) -> (r: Vec<u8>)
        requires
            self.wf(),
            start + len <= u64::MAX,
        ensures
            r@ == Seq::new(
                len as nat,
                |i: int| filesystem::stored_byte(self.core.vol@.stored(ino), start + i),
            ),
    {
        self.core.vol.read_range(ino, start, len)
    }

    /// Looks up a name in a directory. The control files are at the root.
    pub fn lookup(&self, parent: u64, name: &str) -> (r: Result<VfsAttr, VfsError>)
        requires
            self.wf(),
        ensures
            if parent == 1 && name@ == ".lfs_scrub"@ {
                r == Ok::<VfsAttr, VfsError>(control_attr(SCRUB_INO))
            } else if parent == 1 && name@ == ".lfs_health"@ {
                r == Ok::<VfsAttr, VfsError>(control_attr(HEALTH_INO))
            } else if self.core.vol@.inodes.contains_key(parent) {
                match found_inode(
                    volume::real_entries(self.core.vol@.listing(parent)),
                    name@,
                    self.core.vol@.inodes,
                ) {
                    Some(inode) => r == Ok::<VfsAttr, VfsError>(attr_of(inode)),
                    None => r matches Err(e) && e.errno == posix::ENOENT,
                }
            } else {
                r matches Err(e) && e.errno == posix::ENOENT
            },
    {
        if parent == 1 {
            if text::same_text(name, ".lfs_scrub") {
                return Ok(Self::virtual_attr(SCRUB_INO));
            } else if text::same_text(name, ".lfs_health") {
                return Ok(Self::virtual_attr(HEALTH_INO));
            }
        }
        if self.core.vol.read_inode(parent).is_none() {
            return Err(VfsError::new(posix::ENOENT));
        }
        let entries = self.core.vol.read_entries(parent);
        match self.find_inode(&entries, name) {
            Some(inode) => Ok(Self::to_vfs_attr(&inode)),
            None => Err(VfsError::new(posix::ENOENT)),
        }
    }

    fn find_inode(&self, entries: &Vec<DirEntry>, name: &str) -> (r: Option<Inode>)
        requires
            self.wf(),
        ensures
            r == found_inode(volume::entries_of(entries@), name@, self.core.vol@.inodes),
    {
        let ghost s = volume::entries_of(entries@);
        let ghost inodes = self.core.vol@.inodes;
        let mut i: usize = 0;
        assert(s.skip(0) =~= s);
        while i < entries.len()
            invariant
                self.wf(),
                s == volume::entries_of(entries@),
                inodes == self.core.vol@.inodes,
                i <= entries@.len(),
                found_inode(s, name@, inodes) == found_inode(s.skip(i as int), name@, inodes),
            decreases entries@.len() - i,
        {
            assert(s.skip(i as int)[0] == entries@[i as int]@);
            if text::same_text(entries[i].name.as_str(), name) {
                if let Some(inode) = self.core.vol.read_inode(entries[i].ino) {
                    return Some(inode);
                }
            }
            assert(s.skip(i as int).drop_first() =~= s.skip(i + 1));
            i = i + 1;
        }
        None
    }

    /// The attributes of an inode, with what is buffered.
    pub fn getattr(&self, ino: u64) -> (r: Result<VfsAttr, VfsError>)
        requires
            self.wf(),
        ensures
            if ino == SCRUB_INO || ino == HEALTH_INO {
                r == Ok::<VfsAttr, VfsError>(control_attr(ino))
            } else if self.core.vol@.inodes.contains_key(ino) {
                r == Ok::<VfsAttr, VfsError>(
                    shadowed_attr(self.core, self.core.vol@.inodes[ino]),
                )
            } else {
                r matches Err(e) && e.errno == posix::ENOENT
            },
    {
        if ino == SCRUB_INO || ino == HEALTH_INO {
            return Ok(Self::virtual_attr(ino));
        }
        match self.core.get_inode(ino) {
            Ok(inode) => Ok(self.attr_with_shadow(&inode)),
            Err(_) => Err(VfsError::new(posix::ENOENT)),
        }
    }

    /// Lists a directory from `offset` on, at most `max_entries` entries. Each
    /// entry carries the offset at which the listing goes on after it.
    pub fn readdir(&self, ino: u64, offset: u64, max_entries: usize) -> (r: Result<
        Vec<VfsDirEntry>,
        VfsError,
    >)
        requires
            self.wf(),
        ensures
            if self.core.vol@.inodes.contains_key(ino) {
                let want = lines_from(
                    listing_lines(self.core, ino),
                    offset as int,
                    max_entries as int,
                );
                &&& r is Ok
                &&& r->Ok_0@.len() == want.len()
                &&& forall|i: int|
                    0 <= i < want.len() ==> {
                        &&& (#[trigger] r->Ok_0@[i]).ino == want[i].ino
                        &&& r->Ok_0@[i].kind == want[i].kind
                        &&& r->Ok_0@[i].name@ == want[i].name
                        &&& r->Ok_0@[i].next_offset == offset + i + 1
                    }
            } else {
                r matches Err(e) && e.errno == posix::ENOENT
            },
    {
        let own = match self.core.vol.read_inode(ino) {
            Some(inode) => inode.ino,
            None => {
                return Err(VfsError::new(posix::ENOENT));
            },
        };
        let entries = self.core.vol.read_entries(ino);
        let ghost shown = volume::real_entries(self.core.vol@.listing(ino));
        let ghost want_all = listing_lines(self.core, ino);
        let n: usize = entries.len();
        proof {
            self.core.vol@.listing(ino).lemma_filter_len(|e: volume::Entry| !volume::is_dot(e));
            assert(entries@.len() == volume::entries_of(entries@).len());
            reveal(volume::dirs_ok);
            assert(self.core.vol@.listing(ino).len() <= self.core.vol@.limits.dir_entries);
        }
        let mut out: Vec<VfsDirEntry> = Vec::new();
        proof {
            reveal_strlit(".");
            reveal_strlit("..");
            assert("."@ =~= seq!['.']);
            assert(".."@ =~= seq!['.', '.']);
        }
        let extra: u64 = if ino == 1 {
            4
        } else {
            2
        };
        assert(want_all.len() == n + extra);
        let total: u64 = n as u64 + extra;
        let mut i: u64 = offset;
        while i < total && out.len() < max_entries
            invariant
                offset <= i,
                total == n + extra,
                n == entries@.len(),
                n == shown.len(),
                entries@.len() == n,
                volume::entries_of(entries@) == shown,
                extra == (if ino == 1 {
                    4
                } else {
                    2int
                }),
                want_all == listing_lines(self.core, ino),
                want_all.len() == total,
                shown == volume::real_entries(self.core.vol@.listing(ino)),
                own == self.core.vol@.inodes[ino].ino,
                "."@ == seq!['.'],
                ".."@ == seq!['.', '.'],
                out@.len() == i - offset,
                out@.len() <= max_entries,
                i > offset ==> i <= total,
                forall|j: int|
                    0 <= j < out@.len() ==> {
                        &&& (#[trigger] out@[j]).ino == want_all[offset + j].ino
                        &&& out@[j].kind == want_all[offset + j].kind
                        &&& out@[j].name@ == want_all[offset + j].name
                        &&& out@[j].next_offset == offset + j + 1
                    },
            decreases total - i,
        {
            let ghost line = want_all[i as int];
            let entry = if i == 0 {
                VfsDirEntry {
                    ino: own,
                    kind: VfsKind::Directory,
                    name: String::from_str("."),
                    next_offset: i + 1,
                }
            } else if i == 1 {
                VfsDirEntry {
                    ino: own,
                    kind: VfsKind::Directory,
                    name: String::from_str(".."),
                    next_offset: i + 1,
                }
            } else if i < n as u64 + 2 {
                let e = &entries[(i - 2) as usize];
                assert(shown[i - 2] == e@);
                let kind = if e.file_type == 2 {
                    VfsKind::Directory
                } else {
                    VfsKind::RegularFile
                };
                VfsDirEntry {
                    ino: e.ino,
                    kind,
                    name: String::from_str(e.name.as_str()),
                    next_offset: i + 1,
                }
            } else if i == n as u64 + 2 {
                VfsDirEntry {
                    ino: SCRUB_INO,
                    kind: VfsKind::RegularFile,
                    name: String::from_str(".lfs_scrub"),
                    next_offset: i + 1,
                }
            } else {
                VfsDirEntry {
                    ino: HEALTH_INO,
                    kind: VfsKind::RegularFile,
                    name: String::from_str(".lfs_health"),
                    next_offset: i + 1,
                }
            };
            assert(entry.ino == line.ino && entry.kind == line.kind && entry.name@ == line.name);
            out.push(entry);
            i = i + 1;
        }
        Ok(out)
    }

    /// What a read gives of a file: its content within the range, or the error
    /// of a file that is not there or cannot be read.
    pub open spec fn read_of(&self, core: SharedCore, ino: u64, offset: int, size: int) -> Result<
        Seq<u8>,
        VfsError,
    > {
        if ino == SCRUB_INO {
            Ok(window(vstd::utf8::encode_utf8(self.scrub_status@), offset, size))
        } else if ino == HEALTH_INO {
            Ok(
                window(
                    vstd::utf8::encode_utf8(
                        bad_blocks::report_text(
                            self.bad_blocks.btree.root_block,
                            self.bad_blocks.btree.entries(),
                        ),
                    ),
                    offset,
                    size,
                ),
            )
        } else if !core.vol@.inodes.contains_key(ino) {
            Err(VfsError { errno: posix::ENOENT })
        } else if read_fails(core, ino, offset, size) {
            Err(VfsError { errno: posix::EIO })
        } else {
            Ok(window(core.content(ino), offset, size))
        }
    }

    /// Reads from a file: the buffered pages over what is stored. Bytes that
    /// cannot be read are an error unless the buffered pages cover the range.
    pub fn read(&self, ino: u64, offset: u64, size: u32) -> (r: Result<Vec<u8>, VfsError>)
        requires
            self.wf(),
        ensures
            match r {
                Ok(v) => self.read_of(self.core, ino, offset as int, size as int) == Ok::<
                    Seq<u8>,
                    VfsError,
                >(v@),
                Err(e) => self.read_of(self.core, ino, offset as int, size as int) == Err::<
                    Seq<u8>,
                    VfsError,
                >(e),
            },
    {
        if ino == SCRUB_INO {
            return Ok(read_window(self.scrub_status.as_str().as_bytes(), offset, size));
        }
        if ino == HEALTH_INO {
            let report = self.bad_blocks.get_health_report();
            return Ok(read_window(report.as_str().as_bytes(), offset, size));
        }
        let inode = match self.core.get_inode(ino) {
            Ok(inode) => inode,
            Err(_) => {
                return Err(VfsError::new(posix::ENOENT));
            },
        };
        let eff_size = self.effective_size(&inode);
        if offset >= eff_size || size == 0 {
            let none: Vec<u8> = Vec::new();
            assert(none@ =~= window(self.core.content(ino), offset as int, size as int));
            return Ok(none);
        }
        let left: u64 = eff_size - offset;
        let len: usize = if (size as u64) < left {
            size as usize
        } else {
            left as usize
        };
        let first: u64 = offset / 4096;
        let last: u64 = (offset + len as u64 - 1) / 4096;
        let ghost pages = self.core.page_cache.pages(ino);
        proof {
            reveal(filesystem::cache_ok);
        }
        let blocks = block_list(first, last);
        let cached = self.core.page_cache.get_pages(ino, blocks.as_slice());
        let complete = cached.len() == blocks.len();
        proof {
            let is_cached = |b: u64| pages.contains_key(b);
            lemma_filter_all(blocks@, is_cached);
            assert(cached@.map_values(|e: (u64, Vec<u8>)| e.0).len() == cached@.len());
            blocks@.lemma_filter_len(is_cached);
            assert(complete == all_buffered(self.core, ino, first as int, last as int)) by {
                if complete {
                    assert forall|k: u64| first <= k <= last implies #[trigger] self.core.page_cache.pages(
                        ino,
                    ).contains_key(k) by {
                        assert(blocks@[k - first] == k);
                    }
                } else {
                    let i = choose|i: int| 0 <= i < blocks@.len() && !is_cached(#[trigger] blocks@[i]);
                    assert(!self.core.page_cache.pages(ino).contains_key(blocks@[i]));
                }
            }
        }
        if !complete && self.core.vol.has_unreadable(ino, first, last) {
            return Err(VfsError::new(posix::EIO));
        }
        let mut out = self.stored_window(ino, offset, len);
        let ghost base = out@;
        proof {
            assert forall|j: int| 0 <= j < cached@.len() implies (#[trigger] cached@[j]).1@.len()
                == BLOCK_SIZE && cached@[j].0 * BLOCK_SIZE <= u64::MAX by {
                assert(cached@.map_values(|e: (u64, Vec<u8>)| e.0)[j] == cached@[j].0);
                lemma_cached_block(self.core, ino, cached@[j].0);
                let is_cached = |b: u64| pages.contains_key(b);
                assert(blocks@.filter(is_cached).contains(cached@[j].0));
                blocks@.lemma_filter_contains_rev(is_cached, cached@[j].0);
                let q = choose|q: int| 0 <= q < blocks@.len() && blocks@[q] == cached@[j].0;
                assert(cached@[j].0 <= last);
            }
        }
        let _ = Self::overlay_pages(&mut out, offset, cached.as_slice());
        proof {
            let content = self.core.content(ino);
            let is_cached = |b: u64| pages.contains_key(b);
            lemma_pages_laid_len(base, offset as int, cached@);
            assert forall|i: int| 0 <= i < len implies out@[i] == content[offset + i] by {
                lemma_laid_byte(base, offset as int, cached@, pages, i);
                let k = (offset + i) / 4096;
                assert(first <= k <= last);
                let hit = exists|j: int| 0 <= j < cached@.len() && (#[trigger] cached@[j]).0 == k;
                assert(blocks@[k - first] == k);
                if pages.contains_key(k as u64) {
                    blocks@.lemma_filter_contains(is_cached, k - first);
                    let f = blocks@.filter(is_cached);
                    let j = choose|j: int| 0 <= j < f.len() && f[j] == k as u64;
                    assert(cached@.map_values(|e: (u64, Vec<u8>)| e.0)[j] == cached@[j].0);
                    assert(cached@[j].0 == k);
                    assert(hit);
                } else {
                    assert(!hit);
                }
            }
            assert(out@ =~= window(content, offset as int, size as int));
        }
        Ok(out)
    }

    /// The space of the image.
    pub fn statfs(&self, _ino: u64) -> (r: Result<VfsStatFs, VfsError>)
        ensures
            r == Ok::<VfsStatFs, VfsError>(
                VfsStatFs {
                    total_blocks: self.core.vol@.sb.total_blocks,
                    free_blocks: self.core.vol@.sb.free_blocks,
                    avail_blocks: self.core.vol@.sb.free_blocks,
                    total_inodes: self.core.vol@.sb.inode_count,
                    free_inodes: self.core.vol@.sb.free_blocks,
                    block_size: 4096,
                    max_name_len: stat::MAX_NAME_LEN,
                },
            ),
    {
        let stats = stat::compute_stats(&self.core.vol.sb);
        Ok(
            VfsStatFs {
                total_blocks: stats.total_blocks,
                free_blocks: stats.free_blocks,
                avail_blocks: stats.free_blocks,
                total_inodes: stats.total_inodes,
                free_inodes: stats.free_inodes_estimate,
                block_size: stats.block_size,
                max_name_len: stats.max_name_len,
            },
        )
    }

    /// Whether the caller may access an inode. The access list of the inode
    /// decides if it has one, and the mode if it has none.
    pub fn access(&self, ino: u64, uid: u32, gid: u32, mask: i32) -> (r: Result<(), VfsError>)
        requires
            self.wf(),
        ensures
            if ino == SCRUB_INO || ino == HEALTH_INO {
                r is Ok
            } else if !self.core.vol@.inodes.contains_key(ino) {
                r matches Err(e) && e.errno == posix::ENOENT
            } else {
                let allowed = match vfs_acl::acl_verdict(self.core.vol@, ino, uid, gid, mask) {
                    Some(allowed) => allowed,
                    None => permissions::may_access(self.core.vol@.inodes[ino], uid, gid, mask),
                };
                if allowed {
                    r is Ok
                } else {
                    r matches Err(e) && e.errno == posix::EACCES
                }
            },
    {
        if ino == SCRUB_INO || ino == HEALTH_INO {
            return Ok(());
        }
        let inode = match self.core.get_inode(ino) {
            Ok(inode) => inode,
            Err(_) => {
                return Err(VfsError::new(posix::ENOENT));
            },
        };
        let allowed = match self.acl_allows(ino, uid, gid, mask) {
            Some(allowed) => allowed,
            None => permissions::check_access(&inode, uid, gid, mask),
        };
        if allowed {
            Ok(())
        } else {
            Err(VfsError::new(posix::EACCES))
        }
    }

    /// Symbolic links are not part of the format.
    pub fn readlink(&self, _ino: u64) -> (r: Result<String, VfsError>)
        ensures
            r matches Err(e) && e.errno == posix::ENOSYS,
    {
        Err(VfsError::nosys())
    }

    /// Symbolic links are not part of the format.
    pub fn symlink(&self, _parent: u64, _name: &str, _target: &str, _uid: u32, _gid: u32) -> (r:
        Result<VfsAttr, VfsError>)
        ensures
            r matches Err(e) && e.errno == posix::ENOSYS,
    {
        Err(VfsError::nosys())
    }

    /// The value of an attribute, `None` if the inode has none of the name.
    pub fn getxattr(&self, ino: u64, name: &str) -> (r: Result<Option<Vec<u8>>, VfsError>)
        requires
            self.wf(),
        ensures
            if ino == SCRUB_INO || ino == HEALTH_INO || !self.core.vol@.has_attr(ino, name@) {
                r == Ok::<Option<Vec<u8>>, VfsError>(None)
            } else {
                &&& r matches Ok(Some(v))
                &&& v@ == self.core.vol@.attrs(ino)[volume::attr_pos(
                    self.core.vol@.attrs(ino),
                    name@,
                ) as int].value
            },
    {
        if ino == SCRUB_INO || ino == HEALTH_INO {
            return Ok(None);
        }
        Ok(self.core.vol.get_attr(ino, name))
    }

    /// The names of the attributes of an inode.
    pub fn listxattr(&self, ino: u64) -> (r: Result<Vec<String>, VfsError>)
        requires
            self.wf(),
        ensures
            ({
                let attrs = if ino == SCRUB_INO || ino == HEALTH_INO {
                    Seq::empty()
                } else {
                    self.core.vol@.attrs(ino)
                };
                &&& r matches Ok(names)
                &&& names@.len() == attrs.len()
                &&& forall|i: int|
                    0 <= i < names@.len() ==> (#[trigger] names@[i])@ == attrs[i].name
            }),
    {
        if ino == SCRUB_INO || ino == HEALTH_INO {
            return Ok(Vec::new());
        }
        Ok(self.core.vol.list_attrs(ino))
    }
}

/// Reading fails: a block of the range cannot be read, and the buffered pages
/// do not cover the range.
pub open spec fn read_fails(core: SharedCore, ino: u64, offset: int, size: int) -> bool {
    let end = if offset + size < core.eff_size(ino) {
        offset + size
    } else {
        core.eff_size(ino) as int
    };
    &&& offset < end
    &&& core.vol@.unreadable_in(
        ino,
        offset / (BLOCK_SIZE as int),
        (end - 1) / (BLOCK_SIZE as int),
    )
    &&& !all_buffered(
        core,
        ino,
        offset / (BLOCK_SIZE as int),
        (end - 1) / (BLOCK_SIZE as int),
    )
}

/// A buffered page is a whole block.
proof fn lemma_cached_block(core: SharedCore, ino: u64, k: u64)
    requires
        core.wf(),
        core.page_cache.pages(ino).contains_key(k),
    ensures
        core.page_cache.pages(ino)[k]@.len() == BLOCK_SIZE,
        k * BLOCK_SIZE < core.eff_size(ino),
{
    reveal(filesystem::cache_ok);
    assert(core.page_cache.inodes@.contains_key(ino));
    assert(core.page_cache.inodes@[ino].wf());
}

/// The permissions that an access mask asks for are its three lowest bits.
pub proof fn mask_asks_for_its_bits(mask: i32)
    ensures
        perm_of_mask(mask) == mask & 7,
        perm_of_mask(mask) <= 7,
{
    assert((mask & 7) == (if mask & 4 != 0 {
        4i32
    } else {
        0
    }) + (if mask & 2 != 0 {
        2i32
    } else {
        0
    }) + (if mask & 1 != 0 {
        1i32
    } else {
        0
    })) by (bit_vector);
}

/// A read gives the bytes of the content from the offset on, as many as were
/// asked for or as there are.
pub proof fn read_gives_what_is_there(s: Seq<u8>, offset: int, n: int, i: int)
    requires
        0 <= offset,
        0 <= n,
    ensures
        ({
            let r = window(s, offset, n);
            &&& r.len() <= n
            &&& offset >= s.len() ==> r.len() == 0
            &&& offset + n <= s.len() ==> r.len() == n
            &&& offset <= s.len() < offset + n ==> r.len() == s.len() - offset
            &&& 0 <= i < r.len() ==> r[i] == s[offset + i]
        }),
{
}

/// Reading fails exactly if something of the range is there, a block of that
/// part cannot be read, and some block of it is not buffered.
pub proof fn unreadable_blocks_fail_the_read(
    core: SharedCore,
    ino: u64,
    offset: int,
    size: int,
    bad: u64,
    stored: u64,
)
    requires
        0 <= offset < core.content(ino).len(),
        0 < size,
        core.vol@.unreadable_of(ino).contains(bad),
        !core.page_cache.pages(ino).contains_key(stored),
        offset / 4096 <= bad,
        bad * 4096 < offset + size,
        bad * 4096 < core.content(ino).len(),
        offset / 4096 <= stored,
        stored * 4096 < offset + size,
        stored * 4096 < core.content(ino).len(),
    ensures
        read_fails(core, ino, offset, size),
{
    let end = if offset + size < core.eff_size(ino) {
        offset + size
    } else {
        core.eff_size(ino) as int
    };
    assert(bad <= (end - 1) / 4096);
    assert(stored <= (end - 1) / 4096);
    assert(core.vol@.unreadable(ino, bad));
}

/// A file without unreadable blocks never fails to be read.
pub proof fn sound_files_can_be_read(core: SharedCore, ino: u64, offset: int, size: int)
    requires
        forall|k: u64| !(#[trigger] core.vol@.unreadable_of(ino).contains(k)),
    ensures
        !read_fails(core, ino, offset, size),
{
    if read_fails(core, ino, offset, size) {
        let k = choose|k: u64| #[trigger] core.vol@.unreadable(ino, k);
        assert(core.vol@.unreadable_of(ino).contains(k));
    }
}

/// A control file is an empty regular file that everyone may read and nobody
/// may write, and it belongs to the superuser.
pub proof fn control_files_can_only_be_read(ino: u64)
    ensures
        control_attr(ino).ino == ino,
        control_attr(ino).kind == VfsKind::RegularFile,
        control_attr(ino).perm == 0o444,
        control_attr(ino).uid == 0,
        control_attr(ino).gid == 0,
        control_attr(ino).size == 0,
        control_attr(ino).blocks == 0,
        control_attr(ino).nlink == 1,
{
}

} // verus!
