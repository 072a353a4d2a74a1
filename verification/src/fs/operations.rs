//! Copying the contents of one file into another, byte for byte.

use crate::error::{Error, ErrorKind};
use crate::file::area;
use crate::file::writer;
use crate::fs::damage;
use crate::fs::placement;
use crate::fs::store;
use crate::fs::vfs_data;
use crate::fs::volume;
use crate::fs::volume::{Volume, VolumeView};
use crate::integrity::refcount::RefCountManager;
use crate::ondisk::serialization::Inode;
use vstd::prelude::*;

verus! {

/// What a file stores, filled with zeros to its size.
pub open spec fn stored_content(v: VolumeView, ino: u64) -> Seq<u8> {
    volume::resized(v.stored(ino), v.inodes[ino].size as int)
}

/// `w` is `v` with bytes stored at `offset` of a file, whose blocks are then
/// where there is room for them.
pub open spec fn part_written(
    v: VolumeView,
    w: VolumeView,
    rc: RefCountManager,
    ino: u64,
    offset: int,
    data: Seq<u8>,
) -> bool {
    &&& store::rewritten(
        v,
        VolumeView { damaged: v.damaged, ..w },
        rc,
        Inode {
            size: vfs_data::size_after(v.inodes[ino].size, offset, data.len() as int),
            ..v.inodes[ino]
        },
        volume::written(v.stored(ino), offset, data),
        store::range_blocks(offset, data.len() as int),
    )
    &&& w.damaged == v.damaged.insert(
        ino,
        damage::after_write(v.unreadable_of(ino), offset, data.len() as int),
    )
}

/// There is room for `n` bytes at `offset` of a file.
pub open spec fn part_has_room(
    v: VolumeView,
    rc: RefCountManager,
    ino: u64,
    offset: int,
    n: int,
) -> bool {
    &&& offset + n <= v.limits.file_bytes
    &&& store::has_room(
        v,
        rc,
        ino,
        store::range_blocks(offset, n),
        writer::end_block(offset, n),
    )
}

/// How many bytes the next chunk has.
pub open spec fn next_chunk(size: int, offset: int, chunk: int) -> int {
    if chunk < size - offset {
        chunk
    } else {
        size - offset
    }
}

/// `w` and `r` are what copying a file of `size` bytes from `offset` on,
/// `chunk` bytes at a time, makes of the volume, and how it ends. A chunk with
/// a block that cannot be read ends it, and one past the limit or without room.
pub open spec fn copy_chunks(
    v: VolumeView,
    w: VolumeView,
    rc: RefCountManager,
    src_ino: u64,
    dst_ino: u64,
    size: int,
    offset: int,
    chunk: int,
    r: Result<u64, ErrorKind>,
) -> bool
    decreases size - offset,
{
    let n = next_chunk(size, offset, chunk);
    if offset >= size || chunk <= 0 {
        w == v && r == Ok::<u64, ErrorKind>(offset as u64)
    } else if v.unreadable_in(src_ino, offset / 4096, (offset + n - 1) / 4096) {
        w == v && r == Err::<u64, ErrorKind>(ErrorKind::InvalidData)
    } else if !part_has_room(v, rc, dst_ino, offset, n) {
        w == v && r == Err::<u64, ErrorKind>(ErrorKind::StorageFull)
    } else {
        exists|mid: VolumeView| #[trigger]
            part_written(
                v,
                mid,
                rc,
                dst_ino,
                offset,
                stored_content(v, src_ino).subrange(offset, offset + n),
            ) && copy_chunks(mid, w, rc, src_ino, dst_ino, size, offset + n, chunk, r)
    }
}

/// Copying on from `offset` completes what was copied so far.
proof fn lemma_copied_on(
    v: VolumeView,
    w: VolumeView,
    after: VolumeView,
    rc: RefCountManager,
    src_ino: u64,
    dst_ino: u64,
    offset: int,
    chunk: int,
    r: Result<u64, ErrorKind>,
)
    requires
        src_ino != dst_ino,
        v.inodes.contains_key(dst_ino),
        0 <= offset <= v.inodes[src_ino].size,
        chunk > 0,
        v.inodes[src_ino].size > 0,
        w.inodes.contains_key(dst_ino),
        w.inodes[dst_ino].ino == dst_ino,
        w.inodes[src_ino] == v.inodes[src_ino],
        w.inodes[dst_ino].size == vfs_data::size_after(v.inodes[dst_ino].size, 0, offset),
        w.stored(src_ino) == v.stored(src_ino),
        w.unreadable_of(src_ino) == v.unreadable_of(src_ino),
        w.limits == v.limits,
        w.stored(dst_ino) == (if offset == 0 {
            v.stored(dst_ino)
        } else {
            volume::written(v.stored(dst_ino), 0, stored_content(v, src_ino).take(offset))
        }),
        copy_chunks(
            w,
            after,
            rc,
            src_ino,
            dst_ino,
            v.inodes[src_ino].size as int,
            offset,
            chunk,
            r,
        ),
    ensures
        copy_ended(v, after, src_ino, dst_ino, r),
    decreases v.inodes[src_ino].size - offset,
{
    let size = v.inodes[src_ino].size as int;
    let c = stored_content(v, src_ino);
    if offset < size {
        let n = next_chunk(size, offset, chunk);
        if w.unreadable_in(src_ino, offset / 4096, (offset + n - 1) / 4096) {
            let k = choose|k: u64|
                offset / 4096 <= k <= (offset + n - 1) / 4096 && #[trigger] w.unreadable(
                    src_ino,
                    k,
                );
            assert(v.unreadable(src_ino, k));
            assert(v.unreadable_in(src_ino, 0, (size - 1) / 4096));
        } else if part_has_room(w, rc, dst_ino, offset, n) {
            let part = c.subrange(offset, offset + n);
            assert(stored_content(w, src_ino) == c);
            if offset == 0 {
                assert(part =~= c.take(n));
            } else {
                assert(volume::written(
                    volume::written(v.stored(dst_ino), 0, c.take(offset)),
                    offset,
                    part,
                ) =~= volume::written(v.stored(dst_ino), 0, c.take(offset + n)));
            }
            let next = choose|next: VolumeView| #[trigger]
                part_written(w, next, rc, dst_ino, offset, part) && copy_chunks(
                    next,
                    after,
                    rc,
                    src_ino,
                    dst_ino,
                    size,
                    offset + n,
                    chunk,
                    r,
                );
            lemma_copied_on(v, next, after, rc, src_ino, dst_ino, offset + n, chunk, r);
        }
    } else {
        assert(c.take(offset) =~= c);
    }
}

/// How a copy ends. One that succeeds gives the destination all that the source
/// stores, which is as it was; one of a file that can be read fails only for
/// want of room.
pub open spec fn copy_ended(
    v: VolumeView,
    after: VolumeView,
    src_ino: u64,
    dst_ino: u64,
    r: Result<u64, ErrorKind>,
) -> bool {
    let size = v.inodes[src_ino].size;
    match r {
        Ok(n) => {
            &&& n == size
            &&& after.inodes[dst_ino].size == vfs_data::size_after(
                v.inodes[dst_ino].size,
                0,
                size as int,
            )
            &&& after.stored(dst_ino) == volume::written(
                v.stored(dst_ino),
                0,
                stored_content(v, src_ino),
            )
            &&& after.stored(src_ino) == v.stored(src_ino)
        },
        Err(kind) => {
            ||| kind == ErrorKind::StorageFull
            ||| kind == ErrorKind::InvalidData && v.unreadable_in(
                src_ino,
                0,
                (size - 1) / 4096,
            )
        },
    }
}

/// A copy of a file that succeeds is a copy of all of it: the destination
/// starts with what the source stores, which is as it was. One of a file that
/// can be read fails only for want of room.
pub proof fn copied_file_is_the_same(
    v: VolumeView,
    after: VolumeView,
    rc: RefCountManager,
    src_ino: u64,
    dst_ino: u64,
    chunk: int,
    r: Result<u64, ErrorKind>,
)
    requires
        src_ino != dst_ino,
        v.inodes.contains_key(dst_ino),
        v.inodes[dst_ino].ino == dst_ino,
        0 < v.inodes[src_ino].size,
        chunk > 0,
        copy_chunks(
            v,
            after,
            rc,
            src_ino,
            dst_ino,
            v.inodes[src_ino].size as int,
            0,
            chunk,
            r,
        ),
    ensures
        copy_ended(v, after, src_ino, dst_ino, r),
{
    lemma_copied_on(v, v, after, rc, src_ino, dst_ino, 0, chunk, r);
}

/// How a copy ended, without the words of its error.
pub open spec fn kind_of(r: Result<u64, Error>) -> Result<u64, ErrorKind> {
    match r {
        Ok(n) => Ok(n),
        Err(e) => Err(e.kind),
    }
}

/// Copies the stored contents of a file into another, at most `chunk_size`
/// bytes at a time; how many bytes. `rc` has the pins of the volume's blocks.
pub fn copy_file_contents(
    vol: &mut Volume,
    rc: &RefCountManager,
    src_ino: u64,
    dst_ino: u64,
    chunk_size: u64,
) -> (r: Result<u64, Error>)
    requires
        old(vol).wf(),
        rc.wf(),
        placement::shares_pinned(old(vol)@.all_runs(), *rc),
        src_ino != dst_ino,
        chunk_size <= usize::MAX,
    ensures
        final(vol).wf(),
        placement::shares_pinned(final(vol)@.all_runs(), *rc),
        ({
            let v = old(vol)@;
            if !v.inodes.contains_key(src_ino) || !v.inodes.contains_key(dst_ino) {
                &&& r matches Err(e) && e.kind == ErrorKind::NotFound
                &&& final(vol)@ == v
            } else {
                copy_chunks(
                    v,
                    final(vol)@,
                    *rc,
                    src_ino,
                    dst_ino,
                    v.inodes[src_ino].size as int,
                    0,
                    chunk_size as int,
                    kind_of(r),
                )
            }
        }),
{
    let ghost v = vol@;
    let src = match vol.read_inode(src_ino) {
        Some(inode) => inode,
        None => {
            return Err(Error::new(ErrorKind::NotFound, "inode not found"));
        },
    };
    match vol.read_inode(dst_ino) {
        Some(_) => {},
        None => {
            return Err(Error::new(ErrorKind::NotFound, "inode not found"));
        },
    }
    if src.size == 0 || chunk_size == 0 {
        return Ok(0);
    }
    let mut offset: u64 = 0;
    while offset < src.size
        invariant
            vol.wf(),
            rc.wf(),
            placement::shares_pinned(vol@.all_runs(), *rc),
            src_ino != dst_ino,
            0 < chunk_size <= usize::MAX,
            vol@.inodes.contains_key(src_ino),
            vol@.inodes.contains_key(dst_ino),
            vol@.inodes[src_ino] == src,
            offset <= src.size,
            v == old(vol)@,
            v.inodes.contains_key(src_ino),
            v.inodes.contains_key(dst_ino),
            v.inodes[src_ino] == src,
            forall|w: VolumeView, r: Result<u64, ErrorKind>|
                copy_chunks(
                    vol@,
                    w,
                    *rc,
                    src_ino,
                    dst_ino,
                    src.size as int,
                    offset as int,
                    chunk_size as int,
                    r,
                ) ==> #[trigger] copy_chunks(
                    v,
                    w,
                    *rc,
                    src_ino,
                    dst_ino,
                    src.size as int,
                    0,
                    chunk_size as int,
                    r,
                ),
        decreases src.size - offset,
    {
        let ghost before = vol@;
        let left: u64 = src.size - offset;
        let n: u64 = if chunk_size < left {
            chunk_size
        } else {
            left
        };
        if vol.has_unreadable(src_ino, offset / 4096, (offset + n - 1) / 4096) {
            return Err(Error::new(ErrorKind::InvalidData, "stored bytes cannot be read"));
        }
        if n > vol.limits.file_bytes || offset > vol.limits.file_bytes - n {
            return Err(Error::new(ErrorKind::StorageFull, "file too large"));
        }
        let part = vol.read_range(src_ino, offset, n as usize);
        assert(part@ =~= stored_content(vol@, src_ino).subrange(offset as int, offset + n));
        proof {
            volume::lemma_inode_fits(*vol, dst_ino);
        }
        if !write_part(vol, rc, dst_ino, offset, &part) {
            return Err(Error::new(ErrorKind::StorageFull, "no block for the data"));
        }
        assert(part_written(before, vol@, *rc, dst_ino, offset as int, part@));
        offset = offset + n;
    }
    Ok(offset)
}

/// Writes bytes into the stored contents of a file; whether there was room.
fn write_part(
    vol: &mut Volume,
    rc: &RefCountManager,
    ino: u64,
    offset: u64,
    data: &Vec<u8>,
) -> (ok: bool)
    requires
        old(vol).wf(),
        rc.wf(),
        placement::shares_pinned(old(vol)@.all_runs(), *rc),
        old(vol)@.inodes.contains_key(ino),
        data@.len() > 0,
        offset + data@.len() <= old(vol)@.limits.file_bytes,
    ensures
        final(vol).wf(),
        placement::shares_pinned(final(vol)@.all_runs(), *rc),
        ok == part_has_room(old(vol)@, *rc, ino, offset as int, data@.len() as int),
        !ok ==> final(vol)@ == old(vol)@,
        ok ==> part_written(old(vol)@, final(vol)@, *rc, ino, offset as int, data@),
{
    let mut inode = match vol.read_inode(ino) {
        Some(inode) => inode,
        None => {
            return false;
        },
    };
    proof {
        volume::lemma_inode_fits(*vol, ino);
    }
    let end: u64 = offset + data.len() as u64;
    if end > inode.size {
        inode.size = end;
    }
    if vol.write_blocks(rc, inode, offset, data.as_slice()).is_none() {
        return false;
    }
    let ghost written = vol@;
    let unreadable = vol.unreadable_blocks(ino);
    vol.set_unreadable(
        ino,
        damage::left_after_write(unreadable.as_slice(), offset, data.len() as u64),
    );
    assert(VolumeView { damaged: old(vol)@.damaged, ..vol@ } == written);
    assert(vol@.all_runs() == written.all_runs());
    true
}

/// There is room for a part of a file where the file may be as long, there are
/// as many free blocks as the part touches, and a block is set aside for the
/// extents. A part that goes beyond the longest file has none.
pub proof fn enough_free_blocks_are_room(
    v: VolumeView,
    rc: RefCountManager,
    ino: u64,
    offset: int,
    n: int,
)
    requires
        0 <= offset,
        0 < n,
    ensures
        offset + n <= v.limits.file_bytes && v.fresh.len() > 0 && (offset + n - 1) / 4096 - offset
            / 4096 + 1 <= area::free_in(v.area.used@) ==> part_has_room(v, rc, ino, offset, n),
        offset + n > v.limits.file_bytes ==> !part_has_room(v, rc, ino, offset, n),
{
    let w = store::range_blocks(offset, n);
    let end = writer::end_block(offset, n);
    let p = |l: int| w(l) && !placement::keeps(v.area, rc, ino, v.runs(ino), l);
    placement::lemma_count_split(p, 0, offset / 4096, end);
    placement::lemma_count_bound(p, 0, offset / 4096);
    placement::lemma_count_bound(p, offset / 4096, end);
}

} // verus!
