//! What copying between files promises.

use crate::error::Error;
use crate::fs::filesystem;
use crate::fs::filesystem::{LionFS, SharedCore};
use crate::fs::reflink;
use crate::fs::vfs;
use crate::fs::vfs::VfsError;
use crate::fs::vfs_copy;
use crate::fs::vfs_data;
use crate::fs::volume;
use crate::posix;
use vstd::prelude::*;

verus! {

/// The request was met by a clone: each one takes a stamp.
pub open spec fn was_cloned(fs: LionFS, after: LionFS) -> bool {
    after.core.node_stamp != fs.core.node_stamp
}

/// Every write of a copy that reads and writes finds room.
pub open spec fn copy_finds_room(
    fs: LionFS,
    ino_in: u64,
    offset_in: u64,
    ino_out: u64,
    offset_out: u64,
    len: u64,
    now: u64,
) -> bool {
    let total = vfs_copy::copy_total(fs.core, ino_in, offset_in, len) as int;
    if vfs_copy::clones(fs.core, ino_in, offset_in, ino_out, offset_out, len) {
        forall|mid: LionFS| #[trigger]
            vfs_copy::source_settled(fs, mid, ino_in, now) ==> vfs_copy::finds_room(
                mid,
                mid.core,
                ino_in,
                0,
                ino_out,
                0,
                total,
                now,
            )
    } else {
        vfs_copy::finds_room(
            fs,
            fs.core,
            ino_in,
            offset_in as int,
            ino_out,
            offset_out as int,
            total,
            now,
        )
    }
}

/// What is copied stays: the request was met by a clone, or the copy can land
/// and finds room.
pub open spec fn copy_stays(
    fs: LionFS,
    after: LionFS,
    ino_in: u64,
    offset_in: u64,
    ino_out: u64,
    offset_out: u64,
    len: u64,
    now: u64,
) -> bool {
    let total = vfs_copy::copy_total(fs.core, ino_in, offset_in, len) as int;
    ||| was_cloned(fs, after)
    ||| vfs_copy::copy_lands(fs.core, ino_in, ino_out, offset_out as int, total)
        && copy_finds_room(fs, ino_in, offset_in, ino_out, offset_out, len, now)
}

/// A copy gives the destination the bytes of the source. A file is not copied
/// into itself. Otherwise, if it succeeds with `n` bytes, `n` is no more than
/// was asked for, the destination holds the `n` bytes of the source from
/// `offset_in` on at `offset_out` and is else as it was, but for zeros beside
/// them in a block that could not be read, and every other file, the source with
/// them, holds what it held. A whole file that is asked for is copied whole,
/// unless it is not cloned and the buffer is full. This holds of every clone, and
/// of every other copy that can land and finds room.
pub proof fn copy_holds_the_source(
    fs: LionFS,
    after: LionFS,
    ino_in: u64,
    offset_in: u64,
    ino_out: u64,
    offset_out: u64,
    len: u64,
    now: u64,
    r: Result<u64, VfsError>,
)
    requires
        fs.core.wf(),
        after.core.wf(),
        vfs_copy::range_copied(
            fs,
            after,
            ino_in,
            offset_in,
            ino_out,
            offset_out,
            len,
            now,
            r,
        ),
        ino_in != ino_out && fs.core.vol@.inodes.contains_key(ino_in)
            && fs.core.vol@.inodes.contains_key(ino_out) ==> copy_stays(
            fs,
            after,
            ino_in,
            offset_in,
            ino_out,
            offset_out,
            len,
            now,
        ),
    ensures
        ino_in == ino_out ==> r == Err::<u64, VfsError>(VfsError { errno: posix::EINVAL }),
        r matches Ok(n) ==> {
            let a = fs.core;
            let b = after.core;
            &&& n <= len
            &&& n == 0 ==> b.content(ino_out) == a.content(ino_out)
            &&& n > 0 ==> {
                let want = volume::written(
                    a.content(ino_out),
                    offset_out as int,
                    a.content(ino_in).subrange(offset_in as int, offset_in + n),
                );
                &&& offset_in + n <= a.content(ino_in).len()
                &&& b.content(ino_out).len() == want.len()
                &&& forall|i: int|
                    0 <= i < n ==> #[trigger] b.content(ino_out)[offset_out + i] == a.content(
                        ino_in,
                    )[offset_in + i]
                &&& forall|i: int|
                    0 <= i < want.len() ==> #[trigger] b.content(ino_out)[i] == want[i] || (
                    b.content(ino_out)[i] == 0 && vfs_copy::beside_copied(
                        a,
                        ino_out,
                        offset_out as int,
                        n as int,
                        i,
                    ))
                &&& !vfs_copy::range_unreadable(
                    a,
                    ino_out,
                    offset_out as int,
                    offset_out + n,
                ) ==> b.content(ino_out) == want
            }
            &&& forall|x: u64| x != ino_out ==> #[trigger] b.content(x) == a.content(x)
            &&& offset_in == 0 && len >= a.content(ino_in).len() && (was_cloned(fs, after)
                || !vfs_copy::buffer_full(b)) ==> n == a.content(ino_in).len()
        },
{
    let a = fs.core;
    let b = after.core;
    let total = vfs_copy::copy_total(a, ino_in, offset_in, len);
    assert(a.content(ino_in).len() == a.eff_size(ino_in));
    assert(a.content(ino_out).len() == a.eff_size(ino_out));
    if ino_in != ino_out && a.vol@.inodes.contains_key(ino_in) && a.vol@.inodes.contains_key(
        ino_out,
    ) && r is Ok {
        if total > 0 && vfs_copy::clones(a, ino_in, offset_in, ino_out, offset_out, len) {
            let mid = choose|mid: LionFS| #[trigger]
                vfs_copy::source_settled(fs, mid, ino_in, now) && {
                    if vfs_copy::flush_refused(a, ino_in) is Some {
                        &&& r == Err::<u64, VfsError>(
                            VfsError {
                                errno: vfs::errno_of(vfs_copy::flush_refused(a, ino_in)->0),
                            },
                        )
                        &&& after == mid
                    } else if mid.core.node_stamp < u64::MAX && reflink::room_to_clone(
                        mid.core,
                        ino_in,
                    ) {
                        vfs_copy::cloned(mid.core, b, ino_in, ino_out, now, r)
                    } else {
                        vfs_copy::bytes_copied(mid, after, ino_in, 0, ino_out, 0, total, now, r)
                    }
                };
            let m = mid.core;
            lemma_settled(fs, mid, ino_in, ino_out, total as int, now);
            if m.node_stamp < u64::MAX && reflink::room_to_clone(m, ino_in) {
                let (made, res) = choose|made: SharedCore, res: Result<u64, Error>| #[trigger]
                    reflink::reflinked(m, made, ino_in, ino_out, res) && {
                        &&& b.vol == made.vol
                        &&& b.pins == made.pins
                        &&& b.node_stamp == made.node_stamp
                        &&& b.page_cache == m.page_cache
                        &&& filesystem::staged(made, b, now, 1)
                        &&& reflink::same_pipeline(m, made)
                        &&& match res {
                            Ok(_) => {
                                &&& r == Ok::<u64, VfsError>(m.eff_size(ino_in))
                                &&& b.commit_due
                            },
                            Err(e) => r == Err::<u64, VfsError>(
                                VfsError { errno: vfs::errno_of(e.kind) },
                            ),
                        }
                    };
                assert(reflink::reflinked(m, b, ino_in, ino_out, res));
                reflink::clone_shares_contents(m, b, ino_in, ino_out, res);
                let c = a.content(ino_in);
                assert(c.subrange(0, c.len() as int) =~= c);
                assert(a.eff_size(ino_out) == 0);
                assert(volume::written(a.content(ino_out), 0, c) =~= c);
            } else {
                let n = r->Ok_0;
                let part = a.content(ino_in).subrange(0, n as int);
                assert(part.len() == n);
            }
        } else if total > 0 {
            let n = r->Ok_0;
            let part = a.content(ino_in).subrange(offset_in as int, offset_in + n);
            assert(part.len() == n);
        }
    }
}

/// After a copy the two files stay apart: a write to the destination leaves the
/// source as it was before the copy, and a write to the source leaves the
/// destination as the copy made it, however the write ends.
pub proof fn copies_stay_apart(
    fs: LionFS,
    after: LionFS,
    later: SharedCore,
    ino_in: u64,
    offset_in: u64,
    ino_out: u64,
    offset_out: u64,
    len: u64,
    now: u64,
    r: Result<u64, VfsError>,
    ino: u64,
    offset: u64,
    data: Seq<u8>,
    at: u64,
    w: Result<u32, VfsError>,
)
    requires
        fs.core.wf(),
        after.core.wf(),
        ino_in != ino_out,
        vfs_copy::range_copied(
            fs,
            after,
            ino_in,
            offset_in,
            ino_out,
            offset_out,
            len,
            now,
            r,
        ),
        r is Ok,
        copy_stays(fs, after, ino_in, offset_in, ino_out, offset_out, len, now),
        vfs_data::wrote(after.core, later, ino, offset, data, at, w),
    ensures
        ino == ino_out ==> later.content(ino_in) == fs.core.content(ino_in),
        ino == ino_in ==> later.content(ino_out) == after.core.content(ino_out),
{
    copy_holds_the_source(fs, after, ino_in, offset_in, ino_out, offset_out, len, now, r);
    if ino == ino_out {
        vfs_data::write_leaves_other_files(
            after.core,
            later,
            ino,
            offset,
            data,
            at,
            w,
            ino_in,
        );
    }
    if ino == ino_in {
        vfs_data::write_leaves_other_files(
            after.core,
            later,
            ino,
            offset,
            data,
            at,
            w,
            ino_out,
        );
    }
}

/// Flushing the source changes no contents, and what can land still can.
proof fn lemma_settled(
    fs: LionFS,
    mid: LionFS,
    ino_in: u64,
    ino_out: u64,
    total: int,
    now: u64,
)
    requires
        fs.core.wf(),
        ino_in != ino_out,
        vfs_copy::source_settled(fs, mid, ino_in, now),
        vfs_copy::flush_refused(fs.core, ino_in) is None,
    ensures
        mid.core.wf(),
        mid.core.node_stamp == fs.core.node_stamp,
        !mid.core.page_cache.inodes@.contains_key(ino_in),
        mid.core.page_cache.inodes@.contains_key(ino_out)
            == fs.core.page_cache.inodes@.contains_key(ino_out),
        forall|x: u64| #[trigger] mid.core.content(x) == fs.core.content(x),
        vfs_copy::copy_lands(fs.core, ino_in, ino_out, 0, total) ==> vfs_copy::copy_lands(
            mid.core,
            ino_in,
            ino_out,
            0,
            total,
        ),
{
    let a = fs.core;
    let m = mid.core;
    if a.page_cache.inodes@.contains_key(ino_in) {
        volume::lemma_inode_fits(a.vol, ino_in);
        assert forall|x: u64| #[trigger] m.content(x) == a.content(x) by {
            vfs_data::flush_keeps_contents(a, m, ino_in, now, x);
        }
        assert(m.content(ino_out).len() == m.eff_size(ino_out));
        assert(a.content(ino_out).len() == a.eff_size(ino_out));
        assert forall|k: u64| #[trigger] m.vol@.unreadable(ino_out, k) implies a.vol@.unreadable(
            ino_out,
            k,
        ) by {
            vfs_data::flushed_blocks_are_readable(a, m, ino_in, now, ino_out, k);
        }
    }
}

/// What a copy answers besides what it copied: a file is not copied to itself,
/// a file that is not there is not found, and nothing is copied from behind the
/// end. As much is copied as was asked for, or as there is.
pub proof fn copies_are_refused_for_a_reason(
    fs: LionFS,
    after: LionFS,
    ino_in: u64,
    offset_in: u64,
    ino_out: u64,
    offset_out: u64,
    len: u64,
    now: u64,
    r: Result<u64, VfsError>,
)
    requires
        vfs_copy::range_copied(
            fs,
            after,
            ino_in,
            offset_in,
            ino_out,
            offset_out,
            len,
            now,
            r,
        ),
    ensures
        ({
            let there = fs.core.vol@.inodes.contains_key(ino_in)
                && fs.core.vol@.inodes.contains_key(ino_out);
            let total = vfs_copy::copy_total(fs.core, ino_in, offset_in, len);
            let size = fs.core.content(ino_in).len();
            &&& ino_in == ino_out ==> after == fs && (r matches Err(e) && e.errno == 22)
            &&& ino_in != ino_out && !there ==> after == fs && (r matches Err(e) && e.errno == 2)
            &&& ino_in != ino_out && there && (len == 0 || offset_in >= size) ==> after == fs && r
                == Ok::<u64, VfsError>(0)
            &&& total <= len
            &&& offset_in + len <= size ==> total == len
            &&& offset_in <= size < offset_in + len ==> total == size - offset_in
            &&& offset_in > size ==> total == 0
        }),
{
}

/// A whole plain file is cloned into an empty one, not copied, where nothing of
/// either is buffered and there is room for the records of a clone.
pub proof fn whole_files_are_cloned(
    fs: LionFS,
    after: LionFS,
    ino_in: u64,
    ino_out: u64,
    len: u64,
    now: u64,
    r: Result<u64, VfsError>,
)
    requires
        vfs_copy::range_copied(fs, after, ino_in, 0, ino_out, 0, len, now, r),
        ino_in != ino_out,
        fs.core.vol@.inodes.contains_key(ino_in),
        fs.core.vol@.inodes.contains_key(ino_out),
        !fs.core.page_cache.inodes@.contains_key(ino_in),
        !fs.core.page_cache.inodes@.contains_key(ino_out),
        fs.core.vol@.fresh.len() >= 3,
        fs.core.node_stamp < u64::MAX,
        reflink::room_to_clone(fs.core, ino_in),
        ({
            let src = fs.core.vol@.inodes[ino_in];
            let dst = fs.core.vol@.inodes[ino_out];
            &&& 0 < src.size <= len
            &&& src.mode & 0o170000 == 0o100000
            &&& src.compression_algo == 0
            &&& dst.mode & 0o170000 == 0o100000
            &&& dst.compression_algo == 0
            &&& dst.size == 0
            &&& dst.extent_count == 0
            &&& dst.spill_extent_root == 0
        }),
    ensures
        was_cloned(fs, after),
        r == Ok::<u64, VfsError>(fs.core.vol@.inodes[ino_in].size),
        after.core.vol@.inodes[ino_out].size == fs.core.vol@.inodes[ino_in].size,
        after.core.vol@.stored(ino_out) == fs.core.vol@.stored(ino_in),
        after.core.vol@.area == fs.core.vol@.area,
        after.core.vol@.clones.contains_key(ino_out),
        after.core.vol@.clones[ino_out].source_id == ino_in,
{
    reflink::clones_are_refused_for_a_reason(fs.core.vol@, ino_in, ino_out);
    reveal(reflink::with_pin_tree);
    reveal(reflink::with_clone_tree);
    reveal(reflink::with_spill_copied);
    assert(fs.core.eff_size(ino_in) == fs.core.vol@.inodes[ino_in].size);
    assert(vfs_copy::copy_total(fs.core, ino_in, 0, len) > 0);
    assert(vfs_copy::clones(fs.core, ino_in, 0, ino_out, 0, len));
    assert(vfs_copy::cloned(fs.core, after.core, ino_in, ino_out, now, r));
    let (mid, res) = choose|mid: SharedCore, res: Result<u64, Error>| #[trigger]
        reflink::reflinked(fs.core, mid, ino_in, ino_out, res) && after.core.vol == mid.vol
            && after.core.node_stamp == mid.node_stamp && filesystem::staged(mid, after.core, now, 1);
    assert(res is Ok);
}

} // verus!
