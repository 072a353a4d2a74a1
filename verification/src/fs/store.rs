//! Reading and writing the stored bytes of files, in the blocks where they are.

use crate::bytes;
use crate::file::area;
use crate::file::runs;
use crate::file::writer;
use crate::file::writer::{FileManager, OpenFile};
use crate::fs::extents;
use crate::fs::filesystem;
use crate::fs::page_cache;
use crate::fs::placement;
use crate::fs::volume;
use crate::fs::volume::{Volume, VolumeView};
use crate::integrity::refcount::RefCountManager;
use crate::ondisk::serialization::{Extent, Inode, BLOCK_SIZE};
use vstd::prelude::*;

verus! {

/// The file can have the runs that giving it `n` fresh blocks may make: it keeps
/// them in its inode, has a list of its own, or there is a block for one.
pub open spec fn room_for_runs(v: VolumeView, ino: u64, n: int) -> bool {
    ||| v.inodes[ino].spill_extent_root != 0
    ||| v.fresh.len() > 0
    ||| v.runs(ino).len() + 2 * n <= 7
}

/// There is room to write the blocks of a file in front of `end` that are to be
/// written.
pub open spec fn has_room(
    v: VolumeView,
    rc: RefCountManager,
    ino: u64,
    written: spec_fn(int) -> bool,
    end: int,
) -> bool {
    &&& placement::needed(v.area, rc, ino, v.runs(ino), written, 0, end) <= area::free_in(
        v.area.used@,
    )
    &&& room_for_runs(
        v,
        ino,
        placement::needed(v.area, rc, ino, v.runs(ino), written, 0, end) as int,
    )
}

/// `b` is `a` with some blocks of a file written: it has the inode, but for
/// where its blocks are now, and stores `stored`.
pub open spec fn rewritten(
    a: VolumeView,
    b: VolumeView,
    rc: RefCountManager,
    inode: Inode,
    stored: Seq<u8>,
    written: spec_fn(int) -> bool,
) -> bool {
    &&& restored(a, b, inode, stored)
    &&& placement::placed(
        a.area,
        b.area,
        rc,
        inode.ino,
        a.runs(inode.ino),
        b.runs(inode.ino),
        written,
    )
}

/// `b` is `a` with a file that has the inode, but for where its blocks are, and
/// stores `stored`. No other file's blocks moved.
pub open spec fn restored(a: VolumeView, b: VolumeView, inode: Inode, stored: Seq<u8>) -> bool {
    let ino = inode.ino;
    let made = b.inodes[ino];
    &&& made == (Inode {
        extent_count: made.extent_count,
        extents: made.extents,
        spill_extent_root: made.spill_extent_root,
        ..inode
    })
    &&& b == (VolumeView {
        inodes: a.inodes.insert(ino, made),
        spills: b.spills,
        fresh: b.fresh,
        area: b.area,
        data: a.data.insert(ino, stored),
        ..a
    })
    &&& b.all_runs() == a.all_runs().insert(ino, b.runs(ino))
    &&& b.fresh == a.fresh || (a.fresh.len() > 0 && b.fresh == a.fresh.drop_last()
        && a.inodes[ino].spill_extent_root == 0 && made.spill_extent_root == a.fresh.last())
}

/// The blocks that `len` bytes at `offset` touch.
pub open spec fn range_blocks(offset: int, len: int) -> spec_fn(int) -> bool {
    |l: int| offset / 4096 <= l < writer::end_block(offset, len)
}

/// The blocks of which there is a page.
pub open spec fn page_blocks(pages: Map<u64, Vec<u8>>) -> spec_fn(int) -> bool {
    |l: int| 0 <= l <= u64::MAX && pages.contains_key(l as u64)
}

/// The byte at `x` of a file with pages over what is stored.
pub open spec fn paged_byte(pages: Map<u64, Vec<u8>>, stored: Seq<u8>, x: int) -> u8 {
    if pages.contains_key((x / 4096) as u64) {
        pages[(x / 4096) as u64]@[x % 4096]
    } else {
        filesystem::stored_byte(stored, x)
    }
}

impl Volume {
    /// The runs of a file.
    fn file_runs(&self, inode: &Inode) -> (r: Vec<Extent>)
        requires
            self.spills.wf(),
            extents::inode_ok(*inode),
        ensures
            r@ == placement::runs_of(*inode, self@.spills),
    {
        proof {
            placement::lemma_runs_of(*inode, self.spills@);
        }
        extents::live_extent_list(inode, &self.spills)
    }

    /// `len` stored bytes of a file from `offset` on, zeros where none are.
    pub fn read_range(&self, ino: u64, offset: u64, len: usize) -> (r: Vec<u8>)
        requires
            self.wf(),
            offset + len <= u64::MAX,
        ensures
            r@ == Seq::new(
                len as nat,
                |i: int| filesystem::stored_byte(self@.stored(ino), offset + i),
            ),
    {
        proof {
            volume::lemma_inode_fits(*self, ino);
        }
        let inode = match self.read_inode(ino) {
            Some(inode) => inode,
            None => {
                let r = bytes::zeros(len);
                assert(r@ =~= Seq::new(
                    len as nat,
                    |i: int| filesystem::stored_byte(self@.stored(ino), offset + i),
                ));
                return r;
            },
        };
        let file = OpenFile {
            ino,
            size: offset + len as u64,
            runs: self.file_runs(&inode),
        };
        proof {
            reveal(placement::blocks_ok);
            assert(self@.all_runs().contains_key(ino));
            assert(placement::file_ok(file.runs@, self.area, self@.stored(ino)));
            assert forall|x: int| 0 <= x implies #[trigger] file.byte(self.area, x)
                == filesystem::stored_byte(self@.stored(ino), x) by {
                assert(placement::byte_in(self.area, file.runs@, x) == file.byte(self.area, x));
            }
        }
        let r = FileManager::read_file(&self.area, &file, offset, len as u64);
        assert(r@ =~= Seq::new(
            len as nat,
            |i: int| filesystem::stored_byte(self@.stored(ino), offset + i),
        ));
        r
    }

    /// Puts an inode, with the runs of its file, into the volume.
    fn lay_file(&mut self, inode: Inode, runs: &[Extent])
        requires
            old(self).inodes.wf(),
            old(self).spills.wf(),
            placement::layout_ok(old(self)@.inodes, old(self)@.spills, old(self)@.fresh),
            old(self)@.inodes.contains_key(inode.ino),
            placement::same_blocks(old(self)@.inodes[inode.ino], inode),
            runs::runs_ok(runs@),
            inode.spill_extent_root != 0 || old(self)@.fresh.len() > 0 || runs@.len() <= 7,
        ensures
            final(self).inodes.wf(),
            final(self).spills.wf(),
            placement::layout_ok(final(self)@.inodes, final(self)@.spills, final(self)@.fresh),
            *final(self) == (Volume {
                inodes: final(self).inodes,
                spills: final(self).spills,
                fresh: final(self).fresh,
                ..*old(self)
            }),
            extents::inode_ok(final(self)@.inodes[inode.ino]),
            final(self)@.runs(inode.ino) == runs@,
            restored(
                VolumeView { data: Map::empty(), ..old(self)@ },
                VolumeView { data: map![inode.ino => Seq::<u8>::empty()], ..final(self)@ },
                inode,
                Seq::empty(),
            ),
    {
        let ghost v = self@;
        let ino = inode.ino;
        let mut made = inode;
        let mut root: u64 = inode.spill_extent_root;
        if root == 0 && runs.len() > 7 {
            proof {
                placement::lemma_fresh_taken(v.inodes, v.spills, v.fresh);
            }
            root = match self.fresh.pop() {
                Some(b) => b,
                None => 0,
            };
        }
        let ghost mid = self@;
        let rest = runs::lay_out(&mut made, runs, root);
        let ghost laid = made;
        if root != 0 {
            made.spill_extent_root = root;
        }
        proof {
            placement::lemma_laid_out(mid.inodes, mid.spills, mid.fresh, made, rest@);
        }
        let ghost list = rest@;
        if root != 0 {
            self.spills.insert(root, rest);
            assert(self@.spills =~= mid.spills.insert(root, list));
        }
        self.inodes.insert(ino, made);
        proof {
            let s = self.spills@;
            reveal(Seq::filter);
            if runs@.len() > 7 {
                assert(extents::file_runs(laid, s) == runs@);
            } else {
                assert(list =~= Seq::<Extent>::empty());
                assert(extents::file_runs(laid, s) == runs@);
                assert(extents::spilled_runs(laid, s) =~= Seq::<Extent>::empty());
                assert(extents::inline_runs(laid) =~= runs@);
            }
            assert(extents::inline_runs(made) == extents::inline_runs(laid));
            assert(extents::file_runs(made, s) =~= runs@);
            placement::lemma_runs_of(made, s);
            assert(self@.runs(ino) == runs@);
            assert(self@.inodes[ino] == made);
            let a = VolumeView { data: Map::empty(), ..v };
            let b = VolumeView { data: map![ino => Seq::<u8>::empty()], ..self@ };
            assert(b.data =~= a.data.insert(ino, Seq::empty()));
            assert(b.inodes =~= a.inodes.insert(ino, made));
            assert(b.all_runs() == a.all_runs().insert(ino, b.runs(ino)));
        }
    }

    /// Writes bytes into a file, whose inode is then the given one, but for
    /// where its blocks are. How many fresh blocks it took; `None` if there is
    /// no room, and nothing is changed then.
    pub fn write_blocks(
        &mut self,
        rc: &RefCountManager,
        inode: Inode,
        offset: u64,
        data: &[u8],
    ) -> (r: Option<u64>)
        requires
            old(self).wf(),
            rc.wf(),
            placement::shares_pinned(old(self)@.all_runs(), *rc),
            old(self)@.inodes.contains_key(inode.ino),
            placement::same_blocks(old(self)@.inodes[inode.ino], inode),
            offset + data@.len() <= u64::MAX,
            old(self)@.stored(inode.ino).len() <= inode.size,
            data@.len() > 0,
            offset + data@.len() <= inode.size,
        ensures
            final(self).wf(),
            placement::shares_pinned(final(self)@.all_runs(), *rc),
            r is Some <==> has_room(
                old(self)@,
                *rc,
                inode.ino,
                range_blocks(offset as int, data@.len() as int),
                writer::end_block(offset as int, data@.len() as int),
            ),
            r is None ==> final(self)@ == old(self)@,
            r matches Some(n) ==> {
                let w = range_blocks(offset as int, data@.len() as int);
                let end = writer::end_block(offset as int, data@.len() as int);
                &&& n <= i64::MAX
                &&& area::free_in(final(self)@.area.used@) == area::free_in(
                    old(self)@.area.used@,
                ) - n
                &&& n == placement::needed(
                    old(self)@.area,
                    *rc,
                    inode.ino,
                    old(self)@.runs(inode.ino),
                    w,
                    0,
                    end,
                )
                &&& rewritten(
                    old(self)@,
                    final(self)@,
                    *rc,
                    inode,
                    volume::written(old(self)@.stored(inode.ino), offset as int, data@),
                    w,
                )
            },
    {
        let ghost v = self@;
        let ino = inode.ino;
        let ghost w = range_blocks(offset as int, data@.len() as int);
        let ghost stored = volume::written(v.stored(ino), offset as int, data@);
        let first: u64 = offset / 4096;
        let end: u64 = (offset + (data.len() - 1) as u64) / 4096 + 1;
        proof {
            volume::lemma_inode_fits(*self, ino);
        }
        let mut file = OpenFile { ino, size: 0, runs: self.file_runs(&inode) };
        proof {
            assert(file.runs@ == v.runs(ino));
            assert(v.all_runs()[ino] == v.runs(ino));
            placement::lemma_open(v.all_runs(), v.area, v.data, *rc, file);
            lemma_range_needed(v.area, *rc, file, offset as int, data@.len() as int);
        }
        let ghost fa = file;
        let n: u64 = FileManager::count_fresh(&self.area, rc, &file, first, end);
        let free: usize = self.area.used.len() - self.area.used_blocks();
        if n > free as u64 {
            return None;
        }
        if inode.spill_extent_root == 0 && self.fresh.len() == 0 && (file.runs.len() > 7 || n > 3
            || file.runs.len() as u64 + 2 * n > 7) {
            return None;
        }
        match FileManager::write_file(&mut self.area, rc, &mut file, offset, data) {
            Ok(_) => {},
            Err(_) => {
                return None;
            },
        }
        proof {
            let b = self.area;
            placement::lemma_placed(
                v.area,
                b,
                fa,
                file,
                *rc,
                offset as int / 4096,
                writer::end_block(offset as int, data@.len() as int),
            );
            assert forall|x: int| 0 <= x implies #[trigger] placement::byte_in(b, file.runs@, x)
                == filesystem::stored_byte(stored, x) by {
                assert(file.byte(b, x) == placement::byte_in(b, file.runs@, x));
                assert(fa.byte(v.area, x) == filesystem::stored_byte(v.stored(ino), x));
            }
            assert forall|l: int, m: int|
                l != m && (#[trigger] runs::place(file.runs@, l)) is Some && runs::place(
                    file.runs@,
                    l,
                ) == #[trigger] runs::place(file.runs@, m) implies rc.pin_count(
                runs::place(file.runs@, l)->0 as int,
            ) > 0 by {
                assert(file.at(l) == file.at(m));
            }
            placement::lemma_file_placed(
                v.all_runs(),
                v.area,
                b,
                v.data,
                *rc,
                ino,
                file.runs@,
                w,
                stored,
            );
        }
        let ghost placed = self@;
        self.lay_file(inode, file.runs.as_slice());
        self.data = Ghost(v.data.insert(ino, stored));
        proof {
            lemma_finished(v, placed, self@, inode, stored);
            volume::lemma_file_written(
                v.inodes,
                v.data,
                v.sb.next_ino,
                self@.inodes[ino],
                stored,
            );
        }
        Some(n)
    }
}

/// What writing a range needs is what its blocks need.
proof fn lemma_range_needed(a: area::DataArea, rc: RefCountManager, f: OpenFile, offset: int, len: int)
    requires
        0 <= offset,
        0 < len,
    ensures
        ({
            let w = range_blocks(offset, len);
            let end = writer::end_block(offset, len);
            placement::needed(a, rc, f.ino, f.runs@, w, 0, end) == writer::fresh_needed(
                a,
                rc,
                f,
                offset / 4096,
                end,
            )
        }),
{
    let w = range_blocks(offset, len);
    let first = offset / 4096;
    let end = writer::end_block(offset, len);
    let p = |l: int| w(l) && !placement::keeps(a, rc, f.ino, f.runs@, l);
    placement::lemma_count_split(p, 0, first, end);
    placement::lemma_count_bound(p, 0, first);
    assert forall|l: int| 0 <= l < first implies !#[trigger] p(l) by {}
    assert forall|l: int| first <= l < end implies #[trigger] w(l) by {}
    placement::lemma_needed(a, rc, f, w, first, end);
}

/// A file that is laid out and whose bytes are stored is restored.
proof fn lemma_finished(
    v: VolumeView,
    mid: VolumeView,
    after: VolumeView,
    inode: Inode,
    stored: Seq<u8>,
)
    requires
        mid == (VolumeView { area: mid.area, ..v }),
        after.data == v.data.insert(inode.ino, stored),
        restored(
            VolumeView { data: Map::empty(), ..mid },
            VolumeView { data: map![inode.ino => Seq::<u8>::empty()], ..after },
            inode,
            Seq::empty(),
        ),
    ensures
        restored(v, after, inode, stored),
{
    let a = VolumeView { data: Map::<u64, Seq<u8>>::empty(), ..mid };
    let b = VolumeView { data: map![inode.ino => Seq::<u8>::empty()], ..after };
    assert(b.all_runs() == after.all_runs());
    assert(a.all_runs() == v.all_runs());
    assert(b.runs(inode.ino) == after.runs(inode.ino));
    assert(after == VolumeView {
        inodes: v.inodes.insert(inode.ino, after.inodes[inode.ino]),
        spills: after.spills,
        fresh: after.fresh,
        area: after.area,
        data: v.data.insert(inode.ino, stored),
        ..v
    });
}

/// Some of the first `n` runs holds block `k`.
pub open spec fn in_runs(list: Seq<(u64, Vec<u8>)>, n: int, k: int) -> bool {
    exists|j: int| 0 <= j < n && page_cache::in_run(#[trigger] list[j], k)
}

/// Where the first `i` runs end.
pub open spec fn runs_end(list: Seq<(u64, Vec<u8>)>, i: int) -> int {
    if i <= 0 {
        0
    } else {
        list[i - 1].0 + page_cache::run_blocks(list[i - 1])
    }
}

/// How many blocks a file of `size` bytes has room for.
pub open spec fn size_blocks(size: int) -> int {
    (size + 4095) / 4096
}

/// A run that holds a block holds its page.
proof fn lemma_run_holds_page(
    list: Seq<(u64, Vec<u8>)>,
    pages: Map<u64, Vec<u8>>,
    i: int,
    k: int,
)
    requires
        page_cache::runs_of(list, pages),
        0 <= i < list.len(),
        page_cache::in_run(list[i], k),
    ensures
        0 <= k <= u64::MAX,
        pages.contains_key(k as u64),
        page_cache::run_page(list[i], k) == pages[k as u64]@,
{
    assert(pages.contains_key(k as u64));
    let j = choose|j: int|
        0 <= j < list.len() && page_cache::in_run(#[trigger] list[j], k) && page_cache::run_page(
            list[j],
            k,
        ) == pages[k as u64]@;
    if i < j {
        assert(list[i].0 + page_cache::run_blocks(list[i]) < list[j].0);
    } else if j < i {
        assert(list[j].0 + page_cache::run_blocks(list[j]) < list[i].0);
    }
}

/// Before a run, behind the one in front of it, there are no pages, and in it
/// there are only pages.
proof fn lemma_run_blocks(list: Seq<(u64, Vec<u8>)>, pages: Map<u64, Vec<u8>>, i: int)
    requires
        page_cache::runs_of(list, pages),
        0 <= i <= list.len(),
    ensures
        i < list.len() ==> runs_end(list, i) <= list[i].0 < runs_end(list, i + 1),
        forall|l: int|
            runs_end(list, i) <= l && (i < list.len() ==> l < list[i].0)
                ==> !#[trigger] page_blocks(pages)(l),
        i < list.len() ==> forall|l: int|
            list[i].0 <= l < runs_end(list, i + 1) ==> #[trigger] page_blocks(pages)(l),
        forall|l: int| l >= runs_end(list, i) ==> !#[trigger] in_runs(list, i, l),
{
    if i < list.len() {
        assert(list[i].1@.len() > 0 && list[i].1@.len() % 4096 == 0);
        if i > 0 {
            assert(list[i - 1].0 + page_cache::run_blocks(list[i - 1]) < list[i].0);
        }
        assert forall|l: int| list[i].0 <= l < runs_end(list, i + 1) implies #[trigger] page_blocks(
            pages,
        )(l) by {
            assert(page_cache::in_run(list[i], l));
        }
    }
    assert forall|l: int|
        runs_end(list, i) <= l && (i < list.len() ==> l < list[i].0) implies !#[trigger] page_blocks(
        pages,
    )(l) by {
        if page_blocks(pages)(l) {
            let j = choose|j: int|
                0 <= j < list.len() && page_cache::in_run(#[trigger] list[j], l)
                    && page_cache::run_page(list[j], l) == pages[l as u64]@;
            if j < i - 1 {
                assert(list[j].0 + page_cache::run_blocks(list[j]) < list[i - 1].0);
            } else if j > i {
                assert(list[i].0 + page_cache::run_blocks(list[i]) < list[j].0);
            }
        }
    }
    assert forall|l: int| l >= runs_end(list, i) implies !#[trigger] in_runs(list, i, l) by {
        if in_runs(list, i, l) {
            let j = choose|j: int| 0 <= j < i && page_cache::in_run(#[trigger] list[j], l);
            if j < i - 1 {
                assert(list[j].0 + page_cache::run_blocks(list[j]) < list[i - 1].0);
            }
        }
    }
}

/// A block is in one of the runs if and only if there is a page of it.
proof fn lemma_all_runs_are_pages(list: Seq<(u64, Vec<u8>)>, pages: Map<u64, Vec<u8>>, l: int)
    requires
        page_cache::runs_of(list, pages),
    ensures
        in_runs(list, list.len() as int, l) == page_blocks(pages)(l),
{
    if page_blocks(pages)(l) {
        let j = choose|j: int|
            0 <= j < list.len() && page_cache::in_run(#[trigger] list[j], l)
                && page_cache::run_page(list[j], l) == pages[l as u64]@;
    }
    if in_runs(list, list.len() as int, l) {
        let j = choose|j: int| 0 <= j < list.len() && page_cache::in_run(#[trigger] list[j], l);
        lemma_run_holds_page(list, pages, j, l);
    }
}

impl Volume {
    /// How many fresh blocks it takes to write runs.
    fn count_runs(
        &self,
        rc: &RefCountManager,
        file: &OpenFile,
        list: &Vec<(u64, Vec<u8>)>,
        size: u64,
        Ghost(pages): Ghost<Map<u64, Vec<u8>>>,
    ) -> (r: u64)
        requires
            rc.wf(),
            runs::runs_ok(file.runs@),
            page_cache::runs_of(list@, pages),
            forall|k: u64| #[trigger] pages.contains_key(k) ==> k * BLOCK_SIZE < size,
        ensures
            r == placement::needed(
                self.area,
                *rc,
                file.ino,
                file.runs@,
                page_blocks(pages),
                0,
                size_blocks(size as int),
            ),
    {
        let ghost w = page_blocks(pages);
        let ghost p = |l: int| w(l) && !placement::keeps(self.area, *rc, file.ino, file.runs@, l);
        let ghost end = size_blocks(size as int);
        let mut need: u64 = 0;
        let mut i: usize = 0;
        while i < list.len()
            invariant
                i <= list@.len(),
                rc.wf(),
                runs::runs_ok(file.runs@),
                page_cache::runs_of(list@, pages),
                forall|k: u64| #[trigger] pages.contains_key(k) ==> k * BLOCK_SIZE < size,
                w == page_blocks(pages),
                p == (|l: int|
                    w(l) && !placement::keeps(self.area, *rc, file.ino, file.runs@, l)),
                end == size_blocks(size as int),
                0 <= runs_end(list@, i as int) <= end,
                need == placement::count(p, 0, runs_end(list@, i as int)),
                need <= runs_end(list@, i as int),
            decreases list@.len() - i,
        {
            let run = &list[i];
            proof {
                lemma_run_blocks(list@, pages, i as int);
                let pos = runs_end(list@, i as int);
                let start = run.0 as int;
                let next = runs_end(list@, i + 1);
                assert(w(next - 1));
                assert(next <= end);
                assert forall|l: int| pos <= l < start implies !#[trigger] p(l) by {
                    assert(!w(l));
                }
                placement::lemma_count_split(p, 0, pos, next);
                placement::lemma_count_split(p, pos, start, next);
                placement::lemma_count_bound(p, pos, start);
                placement::lemma_count_bound(p, start, next);
                placement::lemma_needed(self.area, *rc, *file, w, start, next);
            }
            let n: u64 = (run.1.len() / 4096) as u64;
            need = need + FileManager::count_fresh(&self.area, rc, file, run.0, run.0 + n);
            i = i + 1;
        }
        proof {
            let pos = runs_end(list@, list@.len() as int);
            lemma_run_blocks(list@, pages, list@.len() as int);
            assert forall|l: int| pos <= l < end implies !#[trigger] p(l) by {
                assert(!w(l));
            }
            placement::lemma_count_split(p, 0, pos, end);
            placement::lemma_count_bound(p, pos, end);
        }
        need
    }

    /// Writes runs of whole blocks into a file, whose inode is then the given
    /// one, but for where its blocks are; nothing is written past its size. How
    /// many fresh blocks it took; `None` if there is no room, and nothing is
    /// changed then.
    pub(crate) fn write_runs(
        &mut self,
        rc: &RefCountManager,
        inode: Inode,
        list: &Vec<(u64, Vec<u8>)>,
        Ghost(pages): Ghost<Map<u64, Vec<u8>>>,
    ) -> (r: Option<u64>)
        requires
            old(self).wf(),
            rc.wf(),
            placement::shares_pinned(old(self)@.all_runs(), *rc),
            old(self)@.inodes.contains_key(inode.ino),
            placement::same_blocks(old(self)@.inodes[inode.ino], inode),
            old(self)@.stored(inode.ino).len() <= inode.size,
            inode.size <= usize::MAX,
            page_cache::runs_of(list@, pages),
            forall|k: u64| #[trigger]
                pages.contains_key(k) ==> pages[k]@.len() == BLOCK_SIZE && k * BLOCK_SIZE
                    < inode.size,
        ensures
            final(self).wf(),
            placement::shares_pinned(final(self)@.all_runs(), *rc),
            r is Some <==> has_room(
                old(self)@,
                *rc,
                inode.ino,
                page_blocks(pages),
                size_blocks(inode.size as int),
            ),
            r is None ==> final(self)@ == old(self)@,
            r matches Some(n) ==> {
                &&& n <= i64::MAX
                &&& area::free_in(final(self)@.area.used@) == area::free_in(
                    old(self)@.area.used@,
                ) - n
                &&& n == placement::needed(
                    old(self)@.area,
                    *rc,
                    inode.ino,
                    old(self)@.runs(inode.ino),
                    page_blocks(pages),
                    0,
                    size_blocks(inode.size as int),
                )
                &&& rewritten(
                    old(self)@,
                    final(self)@,
                    *rc,
                    inode,
                    Seq::new(
                        inode.size as nat,
                        |x: int| paged_byte(pages, old(self)@.stored(inode.ino), x),
                    ),
                    page_blocks(pages),
                )
            },
    {
        let ghost v = self@;
        let ino = inode.ino;
        let size = inode.size;
        let ghost w = page_blocks(pages);
        let ghost stored = Seq::new(size as nat, |x: int| paged_byte(pages, v.stored(ino), x));
        let ghost end = size_blocks(size as int);
        proof {
            volume::lemma_inode_fits(*self, ino);
        }
        let mut file = OpenFile { ino, size: 0, runs: self.file_runs(&inode) };
        proof {
            assert(file.runs@ == v.runs(ino));
            assert(v.all_runs()[ino] == v.runs(ino));
            placement::lemma_open(v.all_runs(), v.area, v.data, *rc, file);
        }
        let ghost fa = file;
        let n: u64 = self.count_runs(rc, &file, list, size, Ghost(pages));
        let free: usize = self.area.used.len() - self.area.used_blocks();
        if n > free as u64 {
            return None;
        }
        if inode.spill_extent_root == 0 && self.fresh.len() == 0 && (file.runs.len() > 7 || n > 3
            || file.runs.len() as u64 + 2 * n > 7) {
            return None;
        }
        let mut i: usize = 0;
        proof {
            let none = |l: int| in_runs(list@, 0, l);
            placement::lemma_placed_none(v.area, *rc, ino, fa.runs@, none);
        }
        while i < list.len()
            invariant
                i <= list@.len(),
                *self == (Volume { area: self.area, ..*old(self) }),
                v == old(self)@,
                self.area.wf(),
                rc.wf(),
                fa.wf_in(v.area, *rc),
                file.wf_in(self.area, *rc),
                file.ino == ino,
                fa.ino == ino,
                fa.runs@ == v.runs(ino),
                page_cache::runs_of(list@, pages),
                size <= usize::MAX,
                forall|k: u64| #[trigger]
                    pages.contains_key(k) ==> pages[k]@.len() == BLOCK_SIZE && k * BLOCK_SIZE
                        < size,
                w == page_blocks(pages),
                end == size_blocks(size as int),
                0 <= runs_end(list@, i as int) <= end,
                placement::placed(
                    v.area,
                    self.area,
                    *rc,
                    ino,
                    fa.runs@,
                    file.runs@,
                    |l: int| in_runs(list@, i as int, l),
                ),
                forall|x: int|
                    0 <= x ==> #[trigger] file.byte(self.area, x) == (if x < size && in_runs(
                        list@,
                        i as int,
                        x / 4096,
                    ) {
                        pages[(x / 4096) as u64]@[x % 4096]
                    } else {
                        fa.byte(v.area, x)
                    }),
                n == placement::needed(v.area, *rc, ino, fa.runs@, w, 0, end),
                n <= area::free_in(v.area.used@),
                area::free_in(self.area.used@) == area::free_in(v.area.used@) - n
                    + placement::needed(
                    v.area,
                    *rc,
                    ino,
                    fa.runs@,
                    w,
                    runs_end(list@, i as int),
                    end,
                ),
                file.runs@.len() <= fa.runs@.len() + 2 * (area::free_in(v.area.used@)
                    - area::free_in(self.area.used@)),
            decreases list@.len() - i,
        {
            let run = &list[i];
            let ghost c = self.area;
            let ghost fc = file;
            let ghost pos = runs_end(list@, i as int);
            let ghost start = run.0 as int;
            let ghost next = runs_end(list@, i + 1);
            let ghost done = |l: int| in_runs(list@, i as int, l);
            let ghost p = |l: int| w(l) && !placement::keeps(v.area, *rc, ino, fa.runs@, l);
            proof {
                lemma_run_blocks(list@, pages, i as int);
                assert(w(next - 1));
                assert(next <= end);
                assert(w(start));
                assert forall|l: int| pos <= l < start implies !#[trigger] p(l) by {
                    assert(!w(l));
                }
                placement::lemma_count_split(p, pos, start, end);
                placement::lemma_count_split(p, start, next, end);
                placement::lemma_count_bound(p, pos, start);
                assert forall|l: int| start <= l < next implies !#[trigger] done(l) by {
                    assert(!in_runs(list@, i as int, l));
                }
                placement::lemma_needed_kept(
                    v.area,
                    c,
                    *rc,
                    ino,
                    fa.runs@,
                    fc.runs@,
                    done,
                    w,
                    start,
                    next,
                );
                placement::lemma_needed(c, *rc, fc, w, start, next);
            }
            let at: u64 = run.0 * 4096;
            let room: u64 = size - at;
            let len: usize = if (run.1.len() as u64) < room {
                run.1.len()
            } else {
                room as usize
            };
            let part = bytes::copy_range(run.1.as_slice(), 0, len);
            proof {
                assert(at + len - 1 >= (next - 1) * 4096);
                assert(at + len - 1 < next * 4096);
                assert(writer::end_block(at as int, len as int) == next);
            }
            match FileManager::write_file(&mut self.area, rc, &mut file, at, part.as_slice()) {
                Ok(_) => {},
                Err(_) => {
                    assert(false);
                },
            }
            proof {
                let range = |l: int| start <= l < next;
                let both = |l: int| in_runs(list@, i + 1, l);
                placement::lemma_placed(c, self.area, fc, file, *rc, start, next);
                assert forall|l: int| #[trigger] both(l) == (done(l) || range(l)) by {
                    if in_runs(list@, i + 1, l) {
                        let j = choose|j: int|
                            0 <= j < i + 1 && page_cache::in_run(#[trigger] list@[j], l);
                        assert(j < i ==> in_runs(list@, i as int, l));
                    }
                    if in_runs(list@, i as int, l) {
                        let j = choose|j: int|
                            0 <= j < i && page_cache::in_run(#[trigger] list@[j], l);
                        assert(page_cache::in_run(list@[j], l));
                    }
                    if range(l) {
                        assert(page_cache::in_run(list@[i as int], l));
                    }
                }
                assert forall|l: int| #[trigger] done(l) implies !range(l) by {
                    if range(l) {
                        assert(!in_runs(list@, i as int, l));
                    }
                }
                placement::lemma_placed_both(
                    v.area,
                    c,
                    self.area,
                    *rc,
                    ino,
                    fa.runs@,
                    fc.runs@,
                    file.runs@,
                    done,
                    range,
                    both,
                );
                assert forall|x: int| 0 <= x implies #[trigger] file.byte(self.area, x) == (if x
                    < size && in_runs(list@, i + 1, x / 4096) {
                    pages[(x / 4096) as u64]@[x % 4096]
                } else {
                    fa.byte(v.area, x)
                }) by {
                    let l = x / 4096;
                    assert(both(l) == (done(l) || range(l)));
                    assert(fc.byte(c, x) == (if x < size && in_runs(list@, i as int, l) {
                        pages[l as u64]@[x % 4096]
                    } else {
                        fa.byte(v.area, x)
                    }));
                    if at <= x < at + len {
                        assert(range(l));
                        assert(page_cache::in_run(list@[i as int], l));
                        lemma_run_holds_page(list@, pages, i as int, l);
                        let page = page_cache::run_page(list@[i as int], l);
                        assert(page[x % 4096] == run.1@[(l - run.0) * 4096 + x % 4096]);
                        assert((l - run.0) * 4096 + x % 4096 == x - at);
                        assert(part@[x - at] == run.1@[x - at]);
                    } else if range(l) {
                        assert(x >= size);
                        assert(!done(l));
                    }
                }
            }
            i = i + 1;
        }
        proof {
            let b = self.area;
            let p = |l: int| w(l) && !placement::keeps(v.area, *rc, ino, fa.runs@, l);
            lemma_run_blocks(list@, pages, list@.len() as int);
            assert forall|l: int| runs_end(list@, list@.len() as int) <= l < end implies !(
            #[trigger] p(l)) by {
                assert(!w(l));
            }
            placement::lemma_count_bound(p, runs_end(list@, list@.len() as int), end);
            let all = |l: int| in_runs(list@, list@.len() as int, l);
            assert forall|l: int| #[trigger] all(l) == w(l) by {
                lemma_all_runs_are_pages(list@, pages, l);
            }
            placement::lemma_placed_same(
                v.area,
                b,
                *rc,
                ino,
                fa.runs@,
                file.runs@,
                all,
                w,
            );
            assert forall|x: int| 0 <= x implies #[trigger] placement::byte_in(b, file.runs@, x)
                == filesystem::stored_byte(stored, x) by {
                assert(file.byte(b, x) == placement::byte_in(b, file.runs@, x));
                assert(fa.byte(v.area, x) == filesystem::stored_byte(v.stored(ino), x));
                assert(all(x / 4096) == w(x / 4096));
                if x < size {
                    assert(0 <= x / 4096 <= u64::MAX);
                }
            }
            assert forall|l: int, m: int|
                l != m && (#[trigger] runs::place(file.runs@, l)) is Some && runs::place(
                    file.runs@,
                    l,
                ) == #[trigger] runs::place(file.runs@, m) implies rc.pin_count(
                runs::place(file.runs@, l)->0 as int,
            ) > 0 by {
                assert(file.at(l) == file.at(m));
            }
            placement::lemma_file_placed(
                v.all_runs(),
                v.area,
                b,
                v.data,
                *rc,
                ino,
                file.runs@,
                w,
                stored,
            );
            let pos = runs_end(list@, list@.len() as int);
            placement::lemma_count_split(w, 0, pos, end);
        }
        let ghost placed = self@;
        self.lay_file(inode, file.runs.as_slice());
        self.data = Ghost(v.data.insert(ino, stored));
        proof {
            lemma_finished(v, placed, self@, inode, stored);
            volume::lemma_file_written(
                v.inodes,
                v.data,
                v.sb.next_ino,
                self@.inodes[ino],
                stored,
            );
        }
        Some(n)
    }
}

/// The zeros behind the new end of a file of `n` bytes are written.
pub open spec fn tail_written(v: VolumeView, ino: u64, n: u64) -> bool {
    n % 4096 != 0 && runs::place(v.runs(ino), n as int / 4096) is Some
}

/// The zeros behind the new end of a file of `n` bytes take a fresh block.
pub open spec fn tail_moves(v: VolumeView, rc: RefCountManager, ino: u64, n: u64) -> bool {
    tail_written(v, ino, n) && !placement::keeps(v.area, rc, ino, v.runs(ino), n as int / 4096)
}

/// A file can be given `n` bytes: cutting it takes no block, or there is one for
/// the zeros behind its new end.
pub open spec fn can_resize(v: VolumeView, rc: RefCountManager, ino: u64, n: u64) -> bool {
    n < v.inodes[ino].size && tail_moves(v, rc, ino, n) ==> {
        &&& room_for_runs(v, ino, 1)
        &&& area::free_in(v.area.used@) > 0
    }
}

/// The block is one of a file from block `end` on, and nothing else needs it.
pub open spec fn released(
    area: area::DataArea,
    rc: RefCountManager,
    ino: u64,
    r: Seq<Extent>,
    end: int,
    q: u64,
) -> bool {
    exists|l: int|
        l >= end && #[trigger] runs::place(r, l) == Some(q) && placement::keeps(area, rc, ino, r, l)
}

/// Where the blocks of a file are once it has `n` bytes. It has none behind its
/// new end: those that nothing else needs are free again. Only the last one may
/// have moved, to a block that was free.
pub open spec fn resized_blocks(
    a: VolumeView,
    b: VolumeView,
    rc: RefCountManager,
    ino: u64,
    n: u64,
) -> bool {
    let ra = a.runs(ino);
    let rb = b.runs(ino);
    let tail = n as int / 4096;
    let end = size_blocks(n as int);
    if n < a.inodes[ino].size {
        &&& forall|l: int| l >= end ==> #[trigger] runs::place(rb, l) is None
        &&& forall|l: int|
            l < end && (l < tail || !tail_moves(a, rc, ino, n)) ==> #[trigger] runs::place(rb, l)
                == runs::place(ra, l)
        &&& tail_moves(a, rc, ino, n) ==> (runs::place(rb, tail) matches Some(p)
            && !a.area.in_use(p as int))
        &&& forall|q: u64|
            (#[trigger] b.area.in_use(q as int)) <==> (a.area.in_use(q as int) || runs::place(
                rb,
                tail,
            ) == Some(q)) && !released(a.area, rc, ino, ra, end, q)
        &&& forall|q: u64|
            runs::place(rb, tail) != Some(q) ==> (#[trigger] b.area.bytes(q)) == a.area.bytes(q)
    } else {
        &&& b.area == a.area
        &&& rb == ra
    }
}

impl Volume {
    /// Gives a file the size of the inode, which it then has, but for where its
    /// blocks are. How many blocks it took, less those that it gave back; `None`
    /// if there is no room, and nothing is changed then.
    pub fn resize_blocks(&mut self, rc: &RefCountManager, inode: Inode) -> (r: Option<i64>)
        requires
            old(self).wf(),
            rc.wf(),
            placement::shares_pinned(old(self)@.all_runs(), *rc),
            old(self)@.inodes.contains_key(inode.ino),
            placement::same_blocks(old(self)@.inodes[inode.ino], inode),
            inode.size <= isize::MAX,
        ensures
            final(self).wf(),
            placement::shares_pinned(final(self)@.all_runs(), *rc),
            r is Some <==> can_resize(old(self)@, *rc, inode.ino, inode.size),
            r is None ==> final(self)@ == old(self)@,
            r matches Some(n) ==> {
                &&& n == area::free_in(old(self)@.area.used@) - area::free_in(
                    final(self)@.area.used@,
                )
                &&& restored(
                    old(self)@,
                    final(self)@,
                    inode,
                    volume::resized(old(self)@.stored(inode.ino), inode.size as int),
                )
                &&& resized_blocks(old(self)@, final(self)@, *rc, inode.ino, inode.size)
            },
    {
        let ghost v = self@;
        let ino = inode.ino;
        let n = inode.size;
        let ghost stored = volume::resized(v.stored(ino), n as int);
        proof {
            volume::lemma_inode_fits(*self, ino);
        }
        let before: u64 = match self.read_inode(ino) {
            Some(old_inode) => old_inode.size,
            None => 0,
        };
        let size: u64 = if before > u64::MAX - 4096 {
            u64::MAX - 4096
        } else {
            before
        };
        let mut file = OpenFile { ino, size, runs: self.file_runs(&inode) };
        proof {
            assert(file.runs@ == v.runs(ino));
            assert(v.all_runs()[ino] == v.runs(ino));
            placement::lemma_open(v.all_runs(), v.area, v.data, *rc, file);
        }
        let tail: u64 = n / 4096;
        let moves: bool = n % 4096 != 0 && match FileManager::resolve_physical_block(&file, tail) {
            Some(p) => self.area.is_protected(rc, ino, tail, p),
            None => false,
        };
        if n < before && moves && inode.spill_extent_root == 0 && self.fresh.len() == 0
            && file.runs.len() > 5 {
            return None;
        }
        let ghost fa = file;
        let used: usize = self.area.used_blocks();
        match FileManager::truncate_file(&mut self.area, rc, &mut file, n) {
            Ok(_) => {},
            Err(_) => {
                return None;
            },
        }
        let used_after: usize = self.area.used_blocks();
        proof {
            let b = self.area;
            assert forall|x: int| 0 <= x implies #[trigger] file.byte(b, x)
                == filesystem::stored_byte(stored, x) by {
                assert(fa.byte(v.area, x) == filesystem::stored_byte(v.stored(ino), x));
            }
            if n < before {
                lemma_cut(v, b, *rc, fa, file, n, stored);
            } else {
                assert(v.all_runs().insert(ino, file.runs@) =~= v.all_runs());
                assert(placement::blocks_ok(v.all_runs(), b, v.data.insert(ino, stored))) by {
                    reveal(placement::blocks_ok);
                    let data = v.data.insert(ino, stored);
                    assert forall|k: u64| #[trigger] v.all_runs().contains_key(k) implies placement::file_ok(
                        v.all_runs()[k],
                        b,
                        volume::stored_in(data, k),
                    ) by {
                        assert(placement::file_ok(
                            v.all_runs()[k],
                            v.area,
                            volume::stored_in(v.data, k),
                        ));
                        if k == ino {
                            assert forall|x: int| 0 <= x implies #[trigger] placement::byte_in(
                                b,
                                v.all_runs()[k],
                                x,
                            ) == filesystem::stored_byte(stored, x) by {
                                assert(file.byte(b, x) == placement::byte_in(b, file.runs@, x));
                            }
                        } else {
                            assert(volume::stored_in(data, k) == volume::stored_in(v.data, k));
                        }
                    }
                }
            }
        }
        let ghost placed = self@;
        if n < before {
            self.lay_file(inode, file.runs.as_slice());
        } else {
            self.inodes.insert(ino, inode);
            proof {
                placement::lemma_inode_kept(v.inodes, v.spills, v.fresh, v.area, v.data, inode);
                let a = VolumeView { data: Map::<u64, Seq<u8>>::empty(), ..placed };
                let b = VolumeView { data: map![ino => Seq::<u8>::empty()], ..self@ };
                assert(b.data =~= a.data.insert(ino, Seq::empty()));
                assert(self@.runs(ino) == v.runs(ino));
                assert(b.all_runs() =~= a.all_runs().insert(ino, b.runs(ino)));
                assert(b.all_runs() =~= v.all_runs());
            }
        }
        self.data = Ghost(v.data.insert(ino, stored));
        proof {
            lemma_finished(v, placed, self@, inode, stored);
            volume::lemma_file_written(
                v.inodes,
                v.data,
                v.sb.next_ino,
                self@.inodes[ino],
                stored,
            );
        }
        Some(used_after as i64 - used as i64)
    }

    /// Gives an empty file the inode, which has the runs of another. They are
    /// pinned.
    pub(crate) fn share_blocks(&mut self, Ghost(rc): Ghost<RefCountManager>, made: Inode, src_ino: u64)
        requires
            old(self).wf(),
            placement::shares_pinned(old(self)@.all_runs(), rc),
            old(self)@.inodes.contains_key(src_ino),
            old(self)@.inodes.contains_key(made.ino),
            made.ino != src_ino,
            extents::inode_ok(made),
            old(self)@.stored(src_ino).len() <= made.size,
            placement::runs_of(made, old(self)@.spills) == old(self)@.runs(src_ino),
            made.spill_extent_root != 0 ==> old(self)@.spills.contains_key(made.spill_extent_root),
            forall|k: u64| #[trigger]
                old(self)@.inodes.contains_key(k) && made.spill_extent_root != 0
                    ==> old(self)@.inodes[k].spill_extent_root != made.spill_extent_root,
            forall|l: int|
                (#[trigger] runs::place(old(self)@.runs(src_ino), l)) matches Some(p)
                    ==> rc.pin_count(p as int) > 0,
        ensures
            final(self).wf(),
            placement::shares_pinned(final(self)@.all_runs(), rc),
            final(self)@ == old(self)@.with_inode(made).with_data(
                made.ino,
                old(self)@.stored(src_ino),
            ),
    {
        let ghost v = self@;
        let ghost stored = v.stored(src_ino);
        self.inodes.insert(made.ino, made);
        self.data = Ghost(v.data.insert(made.ino, stored));
        proof {
            placement::lemma_list_given(v.inodes, v.spills, v.fresh, made);
            assert(v.all_runs()[src_ino] == v.runs(src_ino));
            placement::lemma_file_shared(v.all_runs(), v.area, v.data, rc, src_ino, made.ino);
            volume::lemma_file_written(v.inodes, v.data, v.sb.next_ino, made, stored);
        }
    }
}

/// What cutting a file keeps.
proof fn lemma_cut(
    v: VolumeView,
    b: area::DataArea,
    rc: RefCountManager,
    fa: OpenFile,
    fb: OpenFile,
    n: u64,
    stored: Seq<u8>,
)
    requires
        placement::blocks_ok(v.all_runs(), v.area, v.data),
        placement::shares_pinned(v.all_runs(), rc),
        v.all_runs().contains_key(fa.ino),
        fa.wf_in(v.area, rc),
        fb.wf_in(b, rc),
        v.all_runs()[fa.ino] == fa.runs@,
        n < fa.size,
        writer::shrunk(v.area, b, fa, fb, rc, n),
        forall|x: int| 0 <= x ==> #[trigger] fb.byte(b, x) == filesystem::stored_byte(stored, x),
    ensures
        placement::blocks_ok(
            v.all_runs().insert(fa.ino, fb.runs@),
            b,
            v.data.insert(fa.ino, stored),
        ),
        placement::shares_pinned(v.all_runs().insert(fa.ino, fb.runs@), rc),
        b.used@.len() == v.area.used@.len(),
        forall|l: int| l >= size_blocks(n as int) ==> #[trigger] runs::place(fb.runs@, l) is None,
        forall|l: int|
            l < size_blocks(n as int) && (l < n as int / 4096 || !tail_moves(v, rc, fa.ino, n))
                ==> #[trigger] runs::place(fb.runs@, l) == runs::place(fa.runs@, l),
        tail_moves(v, rc, fa.ino, n) ==> (runs::place(fb.runs@, n as int / 4096) matches Some(p)
            && !v.area.in_use(p as int)),
        forall|q: u64|
            (#[trigger] b.in_use(q as int)) <==> (v.area.in_use(q as int) || runs::place(
                fb.runs@,
                n as int / 4096,
            ) == Some(q)) && !released(
                v.area,
                rc,
                fa.ino,
                fa.runs@,
                size_blocks(n as int),
                q,
            ),
        forall|q: u64|
            runs::place(fb.runs@, n as int / 4096) != Some(q) ==> (#[trigger] b.bytes(q))
                == v.area.bytes(q),
{
    let ino = fa.ino;
    let all = v.all_runs();
    let first = n as int / 4096;
    let last = writer::end_block(n as int, writer::tail_bytes(fa, n));
    let end = writer::end_block(0, n as int);
    let (m, fm) = choose|m: area::DataArea, fm: OpenFile|
        {
            &&& #[trigger] fm.wf_in(m, rc)
            &&& writer::blocks_written(v.area, m, fa, fm, rc, first, last)
            &&& writer::blocks_dropped(m, b, fm, fb, rc, end)
        };
    let w = |l: int| first <= l < last;
    let mid = Seq::new(0x1000_0000_0000_0000_0000, |x: int| fm.byte(m, x));
    placement::lemma_placed(v.area, m, fa, fm, rc, first, last);
    assert forall|x: int| 0 <= x implies #[trigger] placement::byte_in(m, fm.runs@, x)
        == filesystem::stored_byte(mid, x) by {
        assert(fm.byte(m, x) == placement::byte_in(m, fm.runs@, x));
        if x >= 0x1000_0000_0000_0000_0000 {
            placement::lemma_bytes_end(fm, m, x);
        }
    }
    assert forall|l: int, k: int|
        l != k && (#[trigger] runs::place(fm.runs@, l)) is Some && runs::place(fm.runs@, l)
            == #[trigger] runs::place(fm.runs@, k) implies rc.pin_count(
        runs::place(fm.runs@, l)->0 as int,
    ) > 0 by {
        assert(fm.at(l) == fm.at(k));
    }
    placement::lemma_file_placed(all, v.area, m, v.data, rc, ino, fm.runs@, w, mid);
    let all2 = all.insert(ino, fm.runs@);
    let data2 = v.data.insert(ino, mid);
    placement::lemma_file_dropped(all2, m, b, data2, rc, fm, fb, end, stored);
    assert(all2.insert(ino, fb.runs@) =~= all.insert(ino, fb.runs@));
    assert(data2.insert(ino, stored) =~= v.data.insert(ino, stored));
    assert(end == size_blocks(n as int));
    assert forall|l: int| l >= size_blocks(n as int) implies #[trigger] runs::place(fb.runs@, l)
        is None by {
        assert(fb.at(l) is None);
    }
    assert(v.runs(ino) == fa.runs@);
    let ra = fa.runs@;
    assert forall|l: int| l < end && (l < first || !tail_moves(v, rc, ino, n)) implies (
    #[trigger] runs::place(fb.runs@, l)) == runs::place(ra, l) by {
        assert(fb.at(l) == fm.at(l));
        assert(fm.at(l) == fa.at(l));
    }
    if tail_moves(v, rc, ino, n) {
        assert(last == first + 1);
        assert(fb.at(first) == fm.at(first));
        assert(runs::place(fm.runs@, first) is Some);
    }
    assert forall|q: u64| writer::given_back(
        m,
        rc,
        fm,
        end,
        0x1_0000_0000_0000_0000,
        q,
    ) == #[trigger] released(v.area, rc, ino, ra, end, q) by {
        if writer::given_back(m, rc, fm, end, 0x1_0000_0000_0000_0000, q) {
            let l = choose|l: int|
                end <= l < 0x1_0000_0000_0000_0000 && #[trigger] fm.at(l) == Some(q)
                    && !m.protects(rc, ino, l as u64, q);
            assert(fm.at(l) == fa.at(l));
            assert(m.birth(ino, l as u64) == v.area.birth(ino, l as u64));
            assert(runs::place(ra, l) == Some(q));
        }
        if released(v.area, rc, ino, ra, end, q) {
            let l = choose|l: int|
                l >= end && #[trigger] runs::place(ra, l) == Some(q) && placement::keeps(
                    v.area,
                    rc,
                    ino,
                    ra,
                    l,
                );
            let p = choose|p: int| #[trigger] extents::maps_to(ra, l, p);
            runs::lemma_one_place(ra, l, p);
            assert(fm.at(l) == fa.at(l));
            assert(m.birth(ino, l as u64) == v.area.birth(ino, l as u64));
            assert(fm.at(l) == Some(q));
        }
    }
    assert forall|q: u64| (#[trigger] b.in_use(q as int)) <==> (v.area.in_use(q as int)
        || runs::place(fb.runs@, first) == Some(q)) && !released(v.area, rc, ino, ra, end, q) by {
        if m.in_use(q as int) && !v.area.in_use(q as int) {
            let l = choose|l: int| first <= l < last && #[trigger] fm.at(l) == Some(q);
            assert(l == first);
            assert(fb.at(l) == fm.at(l));
        }
        if runs::place(fb.runs@, first) == Some(q) {
            assert(fb.at(first) == fm.at(first));
            assert(m.in_use(q as int));
        }
    }
    assert forall|q: u64| runs::place(fb.runs@, first) != Some(q) implies (#[trigger] b.bytes(q))
        == v.area.bytes(q) by {
        if writer::one_is_at(fm, first, last, q) {
            let l = choose|l: int| first <= l < last && #[trigger] fm.at(l) == Some(q);
            assert(l == first);
            assert(fb.at(first) == fm.at(first));
        }
        assert(b.bytes(q) == m.bytes(q));
    }
}

} // verus!
