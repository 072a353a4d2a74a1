//! Copying between files.

use crate::fs::damage;
use crate::fs::filesystem;
use crate::fs::filesystem::{LionFS, SharedCore};
use crate::fs::page_cache;
use crate::fs::reflink;
use crate::fs::vfs;
use crate::fs::vfs::VfsError;
use crate::fs::vfs_data;
use crate::fs::vfs_impl::{HEALTH_INO, SCRUB_INO};
use crate::fs::volume;
use crate::ondisk::serialization::BLOCK_SIZE;
use crate::posix;
use vstd::prelude::*;

verus! {

/// How many bytes are copied at a time.
pub const COPY_CHUNK: u64 = 1_048_576;

/// There is no room to buffer another chunk.
pub open spec fn buffer_full(core: SharedCore) -> bool {
    core.page_cache.total_dirty + COPY_CHUNK + 2 * BLOCK_SIZE > usize::MAX
}

/// A write to the file is what a read of it then finds: it is buffered, or
/// nothing of the file is.
pub open spec fn steady(core: SharedCore, ino: u64) -> bool {
    vfs_data::cacheable(core, ino) || !core.page_cache.inodes@.contains_key(ino)
}

/// A block of the file that holds a byte from `start` on and before `end`
/// cannot be read.
pub open spec fn range_unreadable(core: SharedCore, ino: u64, start: int, end: int) -> bool {
    core.vol@.unreadable_in(ino, start / 4096, (end - 1) / 4096)
}

/// What is copied can land: both files are there, and the destination stays
/// within its limit.
pub open spec fn copy_lands(
    core: SharedCore,
    ino_in: u64,
    ino_out: u64,
    offset_out: int,
    total: int,
) -> bool {
    &&& ino_in != SCRUB_INO && ino_in != HEALTH_INO
    &&& ino_out != SCRUB_INO && ino_out != HEALTH_INO
    &&& core.vol@.inodes.contains_key(ino_in)
    &&& core.vol@.inodes.contains_key(ino_out)
    &&& core.eff_size(ino_out) <= core.vol@.limits.file_bytes
    &&& offset_out + total <= core.vol@.limits.file_bytes
    &&& steady(core, ino_out)
}

/// The byte at `i` is not copied, but is in a block that takes some of the `n`
/// bytes and cannot be read.
pub open spec fn beside_copied(core: SharedCore, ino: u64, offset: int, n: int, i: int) -> bool {
    &&& !(offset <= i < offset + n)
    &&& page_cache::touched(i / 4096, offset, n)
    &&& core.vol@.unreadable(ino, (i / 4096) as u64)
}

/// What the copy leaves of the files after `n` bytes: the destination has them
/// and else what it held, or zeros beside them in a block that could not be
/// read, and every other file holds what it held.
pub open spec fn copied(
    a: SharedCore,
    b: SharedCore,
    ino_in: u64,
    offset_in: int,
    ino_out: u64,
    offset_out: int,
    n: int,
) -> bool {
    let want = vfs_data::content_after(
        a.content(ino_out),
        offset_out,
        a.content(ino_in).subrange(offset_in, offset_in + n),
    );
    &&& b.content(ino_out).len() == want.len()
    &&& forall|i: int|
        0 <= i < want.len() ==> #[trigger] b.content(ino_out)[i] == want[i] || (b.content(
            ino_out,
        )[i] == 0 && beside_copied(a, ino_out, offset_out, n, i))
    &&& forall|x: u64| x != ino_out ==> #[trigger] b.content(x) == a.content(x)
}

/// How a copy that can land ends: with all of it, or with less if the buffer
/// is full; with an error only if the source cannot be read where the copy
/// reads it, and then with a part of it.
pub open spec fn copy_landed(
    a: SharedCore,
    b: SharedCore,
    ino_in: u64,
    offset_in: int,
    ino_out: u64,
    offset_out: int,
    total: int,
    r: Result<u64, VfsError>,
) -> bool {
    match r {
        Ok(n) => {
            &&& n <= total
            &&& copied(a, b, ino_in, offset_in, ino_out, offset_out, n as int)
            &&& n == total || buffer_full(b)
        },
        Err(_) => {
            &&& range_unreadable(a, ino_in, offset_in, offset_in + total)
            &&& exists|n: int|
                0 <= n <= total && #[trigger] copied(
                    a,
                    b,
                    ino_in,
                    offset_in,
                    ino_out,
                    offset_out,
                    n,
                )
        },
    }
}

/// A write finds what the block holds: of it a page is buffered, or it can be
/// read.
pub open spec fn held(core: SharedCore, ino: u64, k: u64) -> bool {
    core.page_cache.pages(ino).contains_key(k) || !core.vol@.unreadable(ino, k)
}

/// A write makes nothing unreadable, blocks that are found stay so, and those
/// that it buffers are found.
proof fn lemma_blocks_found(
    a: SharedCore,
    b: SharedCore,
    ino: u64,
    offset: u64,
    data: Seq<u8>,
    now: u64,
    r: Result<u32, VfsError>,
)
    requires
        a.wf(),
        a.vol@.inodes.contains_key(ino),
        ino != SCRUB_INO && ino != HEALTH_INO,
        a.eff_size(ino) <= a.vol@.limits.file_bytes,
        offset + data.len() <= a.vol@.limits.file_bytes,
        offset + data.len() <= u64::MAX,
        write_finds_room(a, ino, offset, data, now),
        vfs_data::wrote(a, b, ino, offset, data, now, r),
    ensures
        forall|x: u64, k: u64| #[trigger] b.vol@.unreadable(x, k) ==> a.vol@.unreadable(x, k),
        forall|k: u64| held(a, ino, k) ==> #[trigger] held(b, ino, k),
        vfs_data::cacheable(a, ino) ==> forall|k: u64|
            page_cache::touched(k as int, offset as int, data.len() as int)
                ==> #[trigger] held(b, ino, k),
{
    volume::lemma_inode_fits(a.vol, ino);
    let blocks = a.vol@.unreadable_of(ino);
    if vfs_data::cacheable(a, ino) {
        let mid = choose|mid: SharedCore| #[trigger]
            vfs_data::buffered(a, mid, ino, offset, data, now) && mid.wf()
                && if page_cache::sum_dirty(mid.page_cache.inodes.entries())
                > page_cache::FLUSH_HARD_LIMIT_BYTES && mid.page_cache.inodes@.contains_key(ino) {
                vfs_data::flushed(mid, b, ino, now) && b.commit_due
                    == vfs_data::due_after_flush(mid, b, ino)
            } else {
                b == mid
            };
        assert forall|k: u64|
            held(a, ino, k) || page_cache::touched(
                k as int,
                offset as int,
                data.len() as int,
            ) implies #[trigger] held(mid, ino, k) by {}
        if page_cache::sum_dirty(mid.page_cache.inodes.entries())
            > page_cache::FLUSH_HARD_LIMIT_BYTES && mid.page_cache.inodes@.contains_key(ino) {
            vfs_data::lemma_room_to_flush(a, mid, ino, offset, data, now);
            assert(vfs_data::flush_fails(mid, ino) is None);
            let pages = mid.page_cache.pages(ino);
            assert forall|x: u64, k: u64| #[trigger]
                b.vol@.unreadable(x, k) implies mid.vol@.unreadable(x, k) && (x == ino
                ==> !pages.contains_key(k)) by {
                damage::lemma_kept(blocks, |k: u64| !pages.contains_key(k), k);
            }
            assert forall|k: u64| held(mid, ino, k) implies #[trigger] held(b, ino, k) by {}
        }
    } else {
        assert forall|x: u64, k: u64| #[trigger] b.vol@.unreadable(x, k) implies a.vol@.unreadable(
            x,
            k,
        ) by {
            damage::lemma_kept(
                blocks,
                |k: u64|
                    !page_cache::overwrites_block(k as int, offset as int, data.len() as int),
                k,
            );
        }
        assert forall|k: u64| held(a, ino, k) implies #[trigger] held(b, ino, k) by {}
    }
}

/// A write within the limit changes its file as it says and no other, and a
/// copy can go on.
proof fn lemma_write_step(
    a: SharedCore,
    b: SharedCore,
    ino_in: u64,
    ino_out: u64,
    offset_out: int,
    total: int,
    offset: u64,
    data: Seq<u8>,
    now: u64,
    r: Result<u32, VfsError>,
)
    requires
        a.wf(),
        b.wf(),
        ino_in != ino_out,
        copy_lands(a, ino_in, ino_out, offset_out, total),
        0 <= offset_out <= offset,
        offset + data.len() <= offset_out + total,
        offset + data.len() <= u64::MAX,
        write_finds_room(a, ino_out, offset, data, now),
        vfs_data::wrote(a, b, ino_out, offset, data, now, r),
    ensures
        r == Ok::<u32, VfsError>(data.len() as u32),
        copy_lands(b, ino_in, ino_out, offset_out, total),
        chunk_landed(a, b, ino_out, offset as int, data),
        forall|x: u64| x != ino_out ==> #[trigger] b.content(x) == a.content(x),
        forall|x: u64, k: u64| #[trigger] b.vol@.unreadable(x, k) ==> a.vol@.unreadable(x, k),
        forall|k: u64| held(a, ino_out, k) ==> #[trigger] held(b, ino_out, k),
        vfs_data::cacheable(b, ino_out) == vfs_data::cacheable(a, ino_out),
        vfs_data::cacheable(a, ino_out) ==> forall|k: u64|
            page_cache::touched(k as int, offset as int, data.len() as int)
                ==> #[trigger] held(b, ino_out, k),
{
    volume::lemma_inode_fits(a.vol, ino_out);
    lemma_blocks_found(a, b, ino_out, offset, data, now, r);
    assert forall|x: u64| x != ino_out implies #[trigger] b.content(x) == a.content(x) by {
        vfs_data::write_leaves_other_files(a, b, ino_out, offset, data, now, r, x);
    }
    if vfs_data::cacheable(a, ino_out) {
        vfs_data::read_your_own_write(a, b, ino_out, offset, data, now, ino_out);
        let mid = choose|mid: SharedCore| #[trigger]
            vfs_data::buffered(a, mid, ino_out, offset, data, now) && mid.wf()
                && if page_cache::sum_dirty(mid.page_cache.inodes.entries())
                > page_cache::FLUSH_HARD_LIMIT_BYTES && mid.page_cache.inodes@.contains_key(
                ino_out,
            ) {
                vfs_data::flushed(mid, b, ino_out, now) && b.commit_due
                    == vfs_data::due_after_flush(mid, b, ino_out)
            } else {
                b == mid
            };
        volume::lemma_inode_fits(mid.vol, ino_out);
    } else {
        vfs_data::write_through_contents(a, b, ino_out, offset, data, now, ino_out);
    }
    assert(b.content(ino_out).len() == b.eff_size(ino_out));
    assert(a.content(ino_out).len() == a.eff_size(ino_out));
}

/// The file holds the chunk, and else what it held, or zeros where the write
/// could not find that.
pub open spec fn chunk_landed(
    a: SharedCore,
    b: SharedCore,
    ino: u64,
    offset: int,
    data: Seq<u8>,
) -> bool {
    let want = vfs_data::content_after(a.content(ino), offset, data);
    &&& b.content(ino).len() == want.len()
    &&& forall|i: int|
        0 <= i < want.len() ==> #[trigger] b.content(ino)[i] == want[i] || (b.content(ino)[i] == 0
            && vfs_data::cacheable(a, ino) && vfs_data::found_zero(
            a,
            ino,
            offset,
            data.len() as int,
            i,
        ))
}

/// The size of the next chunk when `total` bytes are left.
pub open spec fn chunk_of(total: int) -> int {
    if total < COPY_CHUNK {
        total
    } else {
        COPY_CHUNK as int
    }
}

/// `b` and `r` are what reading and writing chunk by chunk makes of `a` when
/// `done` bytes are copied and `total` are left. The first read or write that
/// fails ends the copy with its error; a read that gives nothing, a short
/// chunk and a full buffer end it with what was copied.
pub open spec fn copy_run(
    fs: LionFS,
    a: SharedCore,
    b: SharedCore,
    ino_in: u64,
    offset_in: int,
    ino_out: u64,
    offset_out: int,
    total: int,
    done: int,
    now: u64,
    r: Result<u64, VfsError>,
) -> bool
    decreases total,
{
    if total <= 0 {
        b == a && r == Ok::<u64, VfsError>(done as u64)
    } else {
        let n = chunk_of(total);
        match fs.read_of(a, ino_in, offset_in, n) {
            Err(e) => b == a && r == Err::<u64, VfsError>(e),
            Ok(data) => if data.len() == 0 || buffer_full(a) {
                b == a && r == Ok::<u64, VfsError>(done as u64)
            } else {
                exists|mid: SharedCore, w: Result<u32, VfsError>| #[trigger]
                    vfs_data::wrote(a, mid, ino_out, offset_out as u64, data, now, w) && match w {
                        Err(e) => b == mid && r == Err::<u64, VfsError>(e),
                        Ok(k) => if k < n {
                            b == mid && r == Ok::<u64, VfsError>((done + k) as u64)
                        } else {
                            copy_run(
                                fs,
                                mid,
                                b,
                                ino_in,
                                offset_in + n,
                                ino_out,
                                offset_out + n,
                                total - n,
                                done + n,
                                now,
                                r,
                            )
                        },
                    }
            },
        }
    }
}

/// There is room for a write: what it buffers stays, or the blocks that it
/// stores find room.
pub open spec fn write_finds_room(
    core: SharedCore,
    ino: u64,
    offset: u64,
    data: Seq<u8>,
    now: u64,
) -> bool {
    if vfs_data::cacheable(core, ino) {
        vfs_data::write_stays(core, ino, offset, data, now)
    } else {
        data.len() > 0 ==> vfs_data::range_has_room(core, ino, offset as int, data.len() as int)
    }
}

/// Every write of a copy of the next `total` bytes finds room.
pub open spec fn finds_room(
    fs: LionFS,
    a: SharedCore,
    ino_in: u64,
    offset_in: int,
    ino_out: u64,
    offset_out: int,
    total: int,
    now: u64,
) -> bool
    decreases total,
{
    total <= 0 || {
        let n = chunk_of(total);
        match fs.read_of(a, ino_in, offset_in, n) {
            Err(_) => true,
            Ok(data) => data.len() == 0 || buffer_full(a) || {
                &&& write_finds_room(a, ino_out, offset_out as u64, data, now)
                &&& forall|mid: SharedCore, w: Result<u32, VfsError>| #[trigger]
                    vfs_data::wrote(a, mid, ino_out, offset_out as u64, data, now, w)
                        ==> finds_room(
                        fs,
                        mid,
                        ino_in,
                        offset_in + n,
                        ino_out,
                        offset_out + n,
                        total - n,
                        now,
                    )
            },
        }
    }
}

impl LionFS {
    fn copy_bytes(
        &mut self,
        ino_in: u64,
        offset_in: u64,
        ino_out: u64,
        offset_out: u64,
        total: u64,
        now: u64,
    ) -> (r: Result<u64, VfsError>)
        requires
            old(self).wf(),
            old(self).core.can_stage(),
            ino_in != ino_out,
            offset_in + total <= old(self).core.eff_size(ino_in),
            offset_out + total <= u64::MAX,
        ensures
            final(self).wf(),
            final(self).same_storage(old(self)),
            copy_run(
                *old(self),
                old(self).core,
                final(self).core,
                ino_in,
                offset_in as int,
                ino_out,
                offset_out as int,
                total as int,
                0,
                now,
                r,
            ),
            copy_lands(
                old(self).core,
                ino_in,
                ino_out,
                offset_out as int,
                total as int,
            ) && finds_room(
                *old(self),
                old(self).core,
                ino_in,
                offset_in as int,
                ino_out,
                offset_out as int,
                total as int,
                now,
            ) ==> copy_landed(
                old(self).core,
                final(self).core,
                ino_in,
                offset_in as int,
                ino_out,
                offset_out as int,
                total as int,
                r,
            ),
    {
        let ghost a = self.core;
        let ghost fs = *self;
        let ghost possible = copy_lands(
            self.core,
            ino_in,
            ino_out,
            offset_out as int,
            total as int,
        ) && finds_room(
            fs,
            a,
            ino_in,
            offset_in as int,
            ino_out,
            offset_out as int,
            total as int,
            now,
        );
        let mut copied_bytes: u64 = 0;
        proof {
            assert(a.content(ino_in).subrange(offset_in as int, offset_in as int) =~= Seq::<
                u8,
            >::empty());
            assert(copied(a, a, ino_in, offset_in as int, ino_out, offset_out as int, 0));
        }
        while copied_bytes < total
            invariant
                self.wf(),
                self.core.can_stage(),
                self.same_storage(old(self)),
                ino_in != ino_out,
                fs == *old(self),
                a == old(self).core,
                offset_out + total <= u64::MAX,
                offset_in + total <= a.eff_size(ino_in),
                copied_bytes <= total,
                possible == (copy_lands(a, ino_in, ino_out, offset_out as int, total as int)
                    && finds_room(
                    fs,
                    a,
                    ino_in,
                    offset_in as int,
                    ino_out,
                    offset_out as int,
                    total as int,
                    now,
                )),
                possible ==> finds_room(
                    fs,
                    self.core,
                    ino_in,
                    offset_in + copied_bytes,
                    ino_out,
                    offset_out + copied_bytes,
                    total - copied_bytes,
                    now,
                ),
                possible ==> copy_lands(
                    self.core,
                    ino_in,
                    ino_out,
                    offset_out as int,
                    total as int,
                ),
                possible ==> forall|x: u64, k: u64| #[trigger]
                    self.core.vol@.unreadable(x, k) ==> a.vol@.unreadable(x, k),
                possible && vfs_data::cacheable(self.core, ino_out) ==> forall|k: u64|
                    page_cache::touched(k as int, offset_out as int, copied_bytes as int)
                        ==> #[trigger] held(self.core, ino_out, k),
                possible ==> copied(
                    a,
                    self.core,
                    ino_in,
                    offset_in as int,
                    ino_out,
                    offset_out as int,
                    copied_bytes as int,
                ),
                forall|b: SharedCore, r: Result<u64, VfsError>|
                    copy_run(
                        fs,
                        self.core,
                        b,
                        ino_in,
                        offset_in + copied_bytes,
                        ino_out,
                        offset_out + copied_bytes,
                        total - copied_bytes,
                        copied_bytes as int,
                        now,
                        r,
                    ) ==> #[trigger] copy_run(
                        fs,
                        a,
                        b,
                        ino_in,
                        offset_in as int,
                        ino_out,
                        offset_out as int,
                        total as int,
                        0,
                        now,
                        r,
                    ),
            decreases total - copied_bytes,
        {
            let left: u64 = total - copied_bytes;
            let n: u64 = if left < COPY_CHUNK {
                left
            } else {
                COPY_CHUNK
            };
            let ghost c_in = a.content(ino_in);
            let ghost before = self.core;
            let data = match self.read(ino_in, offset_in + copied_bytes, n as u32) {
                Ok(data) => data,
                Err(e) => {
                    proof {
                        if possible {
                            let first = (offset_in + copied_bytes) / 4096;
                            let last = (offset_in + copied_bytes + n - 1) / 4096;
                            assert(before.content(ino_in).len() == before.eff_size(ino_in));
                            assert(c_in.len() == a.eff_size(ino_in));
                            assert(before.vol@.unreadable_in(ino_in, first, last));
                            let k = choose|k: u64|
                                first <= k <= last && #[trigger] before.vol@.unreadable(
                                    ino_in,
                                    k,
                                );
                            assert(a.vol@.unreadable(ino_in, k));
                        }
                    }
                    return Err(e);
                },
            };
            proof {
                if possible {
                    assert(self.core.content(ino_in) == c_in);
                    assert(c_in.len() == a.eff_size(ino_in));
                    assert(data@ =~= c_in.subrange(
                        offset_in + copied_bytes,
                        offset_in + copied_bytes + n,
                    ));
                }
            }
            if data.len() == 0 {
                return Ok(copied_bytes);
            }
            if self.core.page_cache.total_dirty > usize::MAX - COPY_CHUNK as usize - 2 * BLOCK_SIZE {
                return Ok(copied_bytes);
            }
            let w = self.write(ino_out, offset_out + copied_bytes, data.as_slice(), now);
            assert(vfs_data::wrote(
                before,
                self.core,
                ino_out,
                (offset_out + copied_bytes) as u64,
                data@,
                now,
                w,
            ));
            proof {
                if possible {
                    lemma_write_step(
                        before,
                        self.core,
                        ino_in,
                        ino_out,
                        offset_out as int,
                        total as int,
                        (offset_out + copied_bytes) as u64,
                        data@,
                        now,
                        w,
                    );
                    lemma_copied_more(
                        a,
                        before,
                        self.core,
                        ino_in,
                        offset_in as int,
                        ino_out,
                        offset_out as int,
                        copied_bytes as int,
                        data@,
                    );
                }
            }
            let written = match w {
                Ok(written) => written,
                Err(e) => {
                    return Err(e);
                },
            };
            copied_bytes = copied_bytes + written as u64;
            if (written as u64) < n {
                return Ok(copied_bytes);
            }
        }
        Ok(copied_bytes)
    }
}

/// How many bytes there are to copy.
pub open spec fn copy_total(core: SharedCore, ino_in: u64, offset_in: u64, len: u64) -> u64 {
    let left: int = if core.eff_size(ino_in) > offset_in {
        core.eff_size(ino_in) - offset_in
    } else {
        0
    };
    if len < left {
        len
    } else {
        left as u64
    }
}

/// The request is for a whole file into an empty one of which nothing is
/// buffered.
pub open spec fn copies_whole_file(
    core: SharedCore,
    ino_in: u64,
    offset_in: u64,
    ino_out: u64,
    offset_out: u64,
    len: u64,
) -> bool {
    &&& offset_in == 0
    &&& offset_out == 0
    &&& len >= core.eff_size(ino_in)
    &&& core.vol@.inodes[ino_out].size == 0
    &&& !core.page_cache.inodes@.contains_key(ino_out)
}

/// The request is met by a clone, if there is room for one.
pub open spec fn clones(
    core: SharedCore,
    ino_in: u64,
    offset_in: u64,
    ino_out: u64,
    offset_out: u64,
    len: u64,
) -> bool {
    copies_whole_file(core, ino_in, offset_in, ino_out, offset_out, len) && reflink::cloneable(
        core.vol@.inodes[ino_in],
    )
}

/// Why the source cannot be flushed before it is cloned, if it cannot.
pub open spec fn flush_refused(core: SharedCore, ino: u64) -> Option<crate::error::ErrorKind> {
    if core.page_cache.inodes@.contains_key(ino) {
        vfs_data::flush_fails(core, ino)
    } else {
        None
    }
}

/// `mid` is `fs` with what is buffered of the source flushed.
pub open spec fn source_settled(fs: LionFS, mid: LionFS, ino_in: u64, now: u64) -> bool {
    if fs.core.page_cache.inodes@.contains_key(ino_in) {
        &&& mid.wf()
        &&& mid.same_storage(&fs)
        &&& vfs_data::flushed(fs.core, mid.core, ino_in, now)
        &&& mid.core.commit_due == vfs_data::due_after_flush(fs.core, mid.core, ino_in)
    } else {
        mid == fs
    }
}

/// `b` and `r` are what cloning a file that is flushed makes of `a`.
pub open spec fn cloned(
    a: SharedCore,
    b: SharedCore,
    ino_in: u64,
    ino_out: u64,
    now: u64,
    r: Result<u64, VfsError>,
) -> bool {
    exists|mid: SharedCore, res: Result<u64, crate::error::Error>| #[trigger]
        reflink::reflinked(a, mid, ino_in, ino_out, res) && {
            &&& b.vol == mid.vol
            &&& b.pins == mid.pins
            &&& b.node_stamp == mid.node_stamp
            &&& b.page_cache == a.page_cache
            &&& filesystem::staged(mid, b, now, 1)
            &&& reflink::same_pipeline(a, mid)
            &&& match res {
                Ok(_) => {
                    &&& r == Ok::<u64, VfsError>(a.eff_size(ino_in))
                    &&& b.commit_due
                },
                Err(e) => r == Err::<u64, VfsError>(VfsError { errno: vfs::errno_of(e.kind) }),
            }
        }
}

/// `after` and `r` are what reading and writing `total` bytes makes of `fs`.
pub open spec fn bytes_copied(
    fs: LionFS,
    after: LionFS,
    ino_in: u64,
    offset_in: u64,
    ino_out: u64,
    offset_out: u64,
    total: u64,
    now: u64,
    r: Result<u64, VfsError>,
) -> bool {
    let a = fs.core;
    let b = after.core;
    &&& after.same_storage(&fs)
    &&& copy_run(
        fs,
        a,
        b,
        ino_in,
        offset_in as int,
        ino_out,
        offset_out as int,
        total as int,
        0,
        now,
        r,
    )
    &&& copy_lands(a, ino_in, ino_out, offset_out as int, total as int) && finds_room(
        fs,
        a,
        ino_in,
        offset_in as int,
        ino_out,
        offset_out as int,
        total as int,
        now,
    ) ==> copy_landed(
        a,
        b,
        ino_in,
        offset_in as int,
        ino_out,
        offset_out as int,
        total as int,
        r,
    )
}

/// `after` and `r` are what a request to copy makes of `fs`. What is buffered
/// of a source that is to be cloned is flushed first, so that the clone has it.
pub open spec fn range_copied(
    fs: LionFS,
    after: LionFS,
    ino_in: u64,
    offset_in: u64,
    ino_out: u64,
    offset_out: u64,
    len: u64,
    now: u64,
    r: Result<u64, VfsError>,
) -> bool {
    let a = fs.core;
    let b = after.core;
    let total = copy_total(a, ino_in, offset_in, len);
    if ino_in == ino_out {
        &&& r matches Err(e) && e.errno == posix::EINVAL
        &&& after == fs
    } else if !a.vol@.inodes.contains_key(ino_in) || !a.vol@.inodes.contains_key(
        ino_out,
    ) {
        &&& r matches Err(e) && e.errno == posix::ENOENT
        &&& after == fs
    } else if total == 0 {
        &&& r == Ok::<u64, VfsError>(0)
        &&& after == fs
    } else if clones(a, ino_in, offset_in, ino_out, offset_out, len) {
        exists|mid: LionFS| #[trigger]
            source_settled(fs, mid, ino_in, now) && {
                if flush_refused(a, ino_in) is Some {
                    &&& r == Err::<u64, VfsError>(
                        VfsError { errno: vfs::errno_of(flush_refused(a, ino_in)->0) },
                    )
                    &&& after == mid
                } else if mid.core.node_stamp < u64::MAX && reflink::room_to_clone(
                    mid.core,
                    ino_in,
                ) {
                    cloned(mid.core, b, ino_in, ino_out, now, r)
                } else {
                    bytes_copied(mid, after, ino_in, 0, ino_out, 0, total, now, r)
                }
            }
    } else {
        bytes_copied(fs, after, ino_in, offset_in, ino_out, offset_out, total, now, r)
    }
}

impl LionFS {
    /// Copies bytes between two files; how many. A whole file into an empty
    /// one is flushed and cloned if it can be; else the bytes are read and
    /// written.
    pub fn copy_file_range(
        &mut self,
        ino_in: u64,
        offset_in: u64,
        ino_out: u64,
        offset_out: u64,
        len: u64,
        now: u64,
    ) -> (r: Result<u64, VfsError>)
        requires
            old(self).wf(),
            old(self).core.can_stage(),
            offset_out + copy_total(old(self).core, ino_in, offset_in, len) <= u64::MAX,
        ensures
            final(self).wf(),
            final(self).same_shell(old(self)),
            range_copied(
                *old(self),
                *final(self),
                ino_in,
                offset_in,
                ino_out,
                offset_out,
                len,
                now,
                r,
            ),
    {
        if ino_in == ino_out {
            return Err(VfsError::new(posix::EINVAL));
        }
        let src = match self.core.get_inode(ino_in) {
            Ok(inode) => inode,
            Err(_) => {
                return Err(VfsError::new(posix::ENOENT));
            },
        };
        let dst = match self.core.get_inode(ino_out) {
            Ok(inode) => inode,
            Err(_) => {
                return Err(VfsError::new(posix::ENOENT));
            },
        };
        let src_eff = self.effective_size(&src);
        proof {
            reveal(filesystem::cache_ok);
        }
        let whole_file = offset_in == 0 && offset_out == 0 && len >= src_eff && dst.size == 0
            && !self.core.page_cache.has_pages(ino_out);
        let src_len: u64 = src_eff.saturating_sub(offset_in);
        let total: u64 = if len < src_len {
            len
        } else {
            src_len
        };
        if total == 0 {
            return Ok(0);
        }
        if whole_file && reflink::feasibility(&src).supported {
            let ghost fs = *self;
            if self.core.page_cache.has_pages(ino_in) {
                match self.flush_ino(ino_in, now) {
                    Ok(_) => {},
                    Err(e) => {
                        assert(source_settled(fs, *self, ino_in, now));
                        return Err(VfsError::from_io(&e));
                    },
                }
                proof {
                    vfs_data::flush_keeps_contents(fs.core, self.core, ino_in, now, ino_in);
                    assert(fs.core.content(ino_in).len() == fs.core.eff_size(ino_in));
                    assert(self.core.content(ino_in).len() == self.core.eff_size(ino_in));
                }
            }
            let ghost mid = *self;
            assert(source_settled(fs, mid, ino_in, now));
            if self.core.node_stamp < u64::MAX && reflink::can_clone(&self.core, ino_in) {
                let res = reflink::reflink_file_in_ctx(&mut self.core, ino_in, ino_out);
                let ghost made = self.core;
                let _ = self.core.stage(now, 1);
                assert(reflink::reflinked(mid.core, made, ino_in, ino_out, res));
                let r = match res {
                    Ok(_) => {
                        self.core.commit_due = true;
                        Ok(src_eff)
                    },
                    Err(e) => Err(VfsError::from_io(&e)),
                };
                assert(cloned(mid.core, self.core, ino_in, ino_out, now, r));
                return r;
            }
            let r = self.copy_bytes(ino_in, 0, ino_out, 0, total, now);
            assert(bytes_copied(mid, *self, ino_in, 0, ino_out, 0, total, now, r));
            return r;
        }
        self.copy_bytes(ino_in, offset_in, ino_out, offset_out, total, now)
    }
}

/// Copying on after `n` bytes.
proof fn lemma_copied_more(
    a: SharedCore,
    before: SharedCore,
    after: SharedCore,
    ino_in: u64,
    offset_in: int,
    ino_out: u64,
    offset_out: int,
    n: int,
    data: Seq<u8>,
)
    requires
        0 <= offset_in,
        0 <= offset_out,
        0 <= n,
        offset_out + n + data.len() <= u64::MAX,
        data.len() > 0,
        offset_in + n + data.len() <= a.content(ino_in).len(),
        data == a.content(ino_in).subrange(offset_in + n, offset_in + n + data.len()),
        copied(a, before, ino_in, offset_in, ino_out, offset_out, n),
        chunk_landed(before, after, ino_out, offset_out + n, data),
        forall|k: u64| #[trigger]
            before.vol@.unreadable(ino_out, k) ==> a.vol@.unreadable(ino_out, k),
        vfs_data::cacheable(before, ino_out) ==> forall|k: u64|
            page_cache::touched(k as int, offset_out, n) ==> #[trigger] held(before, ino_out, k),
        forall|x: u64| x != ino_out ==> #[trigger] after.content(x) == before.content(x),
    ensures
        copied(a, after, ino_in, offset_in, ino_out, offset_out, n + data.len()),
{
    let c_in = a.content(ino_in);
    let c_out = a.content(ino_out);
    let len = data.len() as int;
    let first = c_in.subrange(offset_in, offset_in + n);
    let all = c_in.subrange(offset_in, offset_in + n + len);
    let mid = vfs_data::content_after(c_out, offset_out, first);
    let want = vfs_data::content_after(c_out, offset_out, all);
    let step = vfs_data::content_after(before.content(ino_out), offset_out + n, data);
    assert(vfs_data::content_after(mid, offset_out + n, data) =~= want);
    assert(step.len() == want.len());
    assert forall|i: int| 0 <= i < want.len() implies #[trigger] after.content(ino_out)[i]
        == want[i] || (after.content(ino_out)[i] == 0 && beside_copied(
        a,
        ino_out,
        offset_out,
        n + len,
        i,
    )) by {
        let k = (i / 4096) as u64;
        assert(after.content(ino_out)[i] == after.content(ino_out)[i]);
        if after.content(ino_out)[i] != step[i] {
            assert(vfs_data::found_zero(before, ino_out, offset_out + n, len, i));
            assert(!held(before, ino_out, k));
            assert(a.vol@.unreadable(ino_out, k));
            assert(!page_cache::touched(k as int, offset_out, n));
            if offset_out <= i < offset_out + n {
                assert(page_cache::touched(i / 4096, offset_out, n));
            }
        } else if step[i] != want[i] {
            assert(i < mid.len());
            assert(before.content(ino_out)[i] == 0 && beside_copied(
                a,
                ino_out,
                offset_out,
                n,
                i,
            ));
            assert(!(offset_out + n <= i < offset_out + n + len));
        }
    }
}

} // verus!
