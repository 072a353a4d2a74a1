//! The write-back intake cache.
//!
//! A buffered write copies the caller's bytes into pages of the file's
//! cached inode, moves the inode's shadow size and time, and returns. A flush
//! drains the pages as contiguous runs. A page that is written in part is
//! completed from the page that is cached, or from what the caller fetches.

use crate::bytes;
use crate::ondisk::serialization::BLOCK_SIZE;
use crate::ordmap;
use crate::ordmap::OrdMap;
use vstd::prelude::*;
use vstd::string::StrSliceExecFns;

verus! {

/// Total dirty bytes across all inodes at which the largest dirty inode is
/// flushed.
pub const FLUSH_THRESHOLD_BYTES: usize = 33_554_432;

/// Total dirty bytes across all inodes at which a writer flushes its own
/// inode before it returns.
pub const FLUSH_HARD_LIMIT_BYTES: usize = 67_108_864;

/// The blocks that a write of `len` bytes at `offset` touches.
pub open spec fn touched(k: int, offset: int, len: int) -> bool {
    &&& len > 0
    &&& offset / (BLOCK_SIZE as int) <= k <= (offset + len - 1) / (BLOCK_SIZE as int)
}

/// The write replaces the whole block `k`.
pub open spec fn overwrites_block(k: int, offset: int, len: int) -> bool {
    offset <= k * BLOCK_SIZE && k * BLOCK_SIZE + BLOCK_SIZE <= offset + len
}

/// A write of `len` bytes at `offset` needs what the block holds: it covers the
/// block only in part, and the block is not cached.
pub open spec fn asks_for(pages: Map<u64, Vec<u8>>, block: u64, offset: int, len: int) -> bool {
    &&& touched(block as int, offset, len)
    &&& !overwrites_block(block as int, offset, len)
    &&& !pages.contains_key(block)
}

/// The bytes of block `k` after `data` is written at file offset `offset`
/// over `base`.
pub open spec fn patched(base: Seq<u8>, k: int, offset: int, data: Seq<u8>) -> Seq<u8> {
    Seq::new(
        BLOCK_SIZE as nat,
        |j: int|
            if offset <= k * BLOCK_SIZE + j < offset + data.len() {
                data[k * BLOCK_SIZE + j - offset]
            } else {
                base[j]
            },
    )
}

/// What one inode has in the cache.
#[derive(Debug)]
pub struct CachedInode {
    /// Logical block to plaintext page.
    pub pages: OrdMap<Vec<u8>>,
    /// File size after the newest cached write.
    pub shadow_size: u64,
    /// Time of the newest cached write.
    pub shadow_mtime: u64,
    /// Bytes of cached pages.
    pub dirty_bytes: usize,
}

impl CachedInode {
    /// Every page is a whole block below the shadow size, and each counts
    /// once as dirty.
    pub open spec fn wf(&self) -> bool {
        &&& self.pages.wf()
        &&& forall|k: u64| #[trigger]
            self.pages@.contains_key(k) ==> self.pages@[k]@.len() == BLOCK_SIZE && k * BLOCK_SIZE
                < self.shadow_size
        &&& self.dirty_bytes == self.pages.entries().len() * BLOCK_SIZE
    }

    /// An inode with nothing cached.
    fn new() -> (r: Self)
        ensures
            r.wf(),
            r.pages@ == Map::<u64, Vec<u8>>::empty(),
            r.shadow_size == 0,
            r.shadow_mtime == 0,
            r.dirty_bytes == 0,
    {
        CachedInode { pages: OrdMap::new(), shadow_size: 0, shadow_mtime: 0, dirty_bytes: 0 }
    }
}

/// What a write of `data` at `offset` makes of a page map: each touched block
/// holds the written bytes over the page that was cached, or over what
/// `fetch` gave for the block; the other blocks are as they were.
pub open spec fn pages_written<Fetch: Fn(u64) -> Vec<u8>>(
    old_pages: Map<u64, Vec<u8>>,
    new_pages: Map<u64, Vec<u8>>,
    offset: int,
    data: Seq<u8>,
    fetch: Fetch,
) -> bool {
    &&& forall|k: u64| #[trigger]
        new_pages.contains_key(k) <==> old_pages.contains_key(k) || touched(
            k as int,
            offset,
            data.len() as int,
        )
    &&& forall|k: u64| #[trigger]
        new_pages.contains_key(k) ==> page_written(old_pages, new_pages[k]@, k, offset, data, fetch)
}

/// The page of block `k` after the write.
pub open spec fn page_written<Fetch: Fn(u64) -> Vec<u8>>(
    old_pages: Map<u64, Vec<u8>>,
    page: Seq<u8>,
    k: u64,
    offset: int,
    data: Seq<u8>,
    fetch: Fetch,
) -> bool {
    if !touched(k as int, offset, data.len() as int) {
        page == old_pages[k]@
    } else if overwrites_block(k as int, offset, data.len() as int) {
        page == data.subrange(k * BLOCK_SIZE - offset, k * BLOCK_SIZE - offset + BLOCK_SIZE)
    } else if old_pages.contains_key(k) {
        page == patched(old_pages[k]@, k as int, offset, data)
    } else {
        exists|base: Vec<u8>| #[trigger]
            fetch.ensures((k,), base) && page == patched(base@, k as int, offset, data)
    }
}

/// The sum of the dirty bytes of the inodes.
pub open spec fn sum_dirty(s: Seq<(u64, CachedInode)>) -> int
    decreases s.len(),
{
    if s.len() == 0 {
        0
    } else {
        sum_dirty(s.drop_last()) + s.last().1.dirty_bytes
    }
}

proof fn lemma_sum_insert(s: Seq<(u64, CachedInode)>, i: int, e: (u64, CachedInode))
    requires
        0 <= i <= s.len(),
    ensures
        sum_dirty(s.insert(i, e)) == sum_dirty(s) + e.1.dirty_bytes,
    decreases s.len(),
{
    let t = s.insert(i, e);
    if i == s.len() {
        assert(t.drop_last() =~= s);
    } else {
        assert(t.drop_last() =~= s.drop_last().insert(i, e));
        assert(t.last() == s.last());
        lemma_sum_insert(s.drop_last(), i, e);
    }
}

proof fn lemma_sum_remove(s: Seq<(u64, CachedInode)>, i: int)
    requires
        0 <= i < s.len(),
    ensures
        sum_dirty(s.remove(i)) == sum_dirty(s) - s[i].1.dirty_bytes,
{
    lemma_sum_insert(s.remove(i), i, s[i]);
    assert(s.remove(i).insert(i, s[i]) =~= s);
}

proof fn lemma_sum_nonneg(s: Seq<(u64, CachedInode)>)
    ensures
        sum_dirty(s) >= 0,
        forall|i: int| 0 <= i < s.len() ==> (#[trigger] s[i]).1.dirty_bytes <= sum_dirty(s),
    decreases s.len(),
{
    if s.len() > 0 {
        lemma_sum_nonneg(s.drop_last());
        assert forall|i: int| 0 <= i < s.len() implies (#[trigger] s[i]).1.dirty_bytes
            <= sum_dirty(s) by {
            if i < s.len() - 1 {
                assert(s.drop_last()[i] == s[i]);
            }
        }
    }
}

/// One page cache shared by the whole mounted image.
pub struct PageCache {
    /// The inodes that have pages in the cache.
    pub inodes: OrdMap<CachedInode>,
    /// The write gates that were handed out, and whether each is held.
    pub gates: OrdMap<bool>,
    /// Bytes of all cached pages.
    pub total_dirty: usize,
    /// Whether writes are buffered at all.
    pub enabled: bool,
}

impl PageCache {
    /// Every cached inode is well formed and has pages, and the total is the
    /// sum of what the inodes hold.
    pub open spec fn wf(&self) -> bool {
        &&& self.inodes.wf()
        &&& self.gates.wf()
        &&& forall|ino: u64| #[trigger]
            self.inodes@.contains_key(ino) ==> self.inodes@[ino].wf() && self.inodes@[ino].shadow_size
                > 0 && self.inodes@[ino].pages.entries().len() > 0
        &&& self.total_dirty == sum_dirty(self.inodes.entries())
    }

    /// The cached pages of `ino`.
    pub open spec fn pages(&self, ino: u64) -> Map<u64, Vec<u8>> {
        if self.inodes@.contains_key(ino) {
            self.inodes@[ino].pages@
        } else {
            Map::empty()
        }
    }

    /// The shadow size and time of `ino`, if it has anything cached.
    pub open spec fn shadow_of(&self, ino: u64) -> Option<(u64, u64)> {
        if self.inodes@.contains_key(ino) {
            Some((self.inodes@[ino].shadow_size, self.inodes@[ino].shadow_mtime))
        } else {
            None
        }
    }

    /// An empty cache. `writeback` is the setting of that name, if there is
    /// one: `0` makes every write go through.
    pub fn new(writeback: Option<&str>) -> (r: Self)
        ensures
            r.wf(),
            r.inodes@ == Map::<u64, CachedInode>::empty(),
            r.gates@ == Map::<u64, bool>::empty(),
            r.total_dirty == 0,
            r.enabled == !(writeback matches Some(v) && v@ == seq!['0']),
    {
        let enabled = match writeback {
            Some(v) => {
                let off = v.unicode_len() == 1 && v.get_char(0) == '0';
                proof {
                    if off {
                        assert(v@ =~= seq!['0']);
                    }
                }
                !off
            },
            None => true,
        };
        PageCache { inodes: OrdMap::new(), gates: OrdMap::new(), total_dirty: 0, enabled }
    }

    /// Whether writes are buffered.
    pub fn is_enabled(&self) -> (r: bool)
        ensures
            r == self.enabled,
    {
        self.enabled
    }

    /// True if this inode has at least one cached page.
    pub fn has_pages(&self, ino: u64) -> (r: bool)
        requires
            self.wf(),
        ensures
            r == (self.pages(ino) != Map::<u64, Vec<u8>>::empty()),
            r == self.inodes@.contains_key(ino),
    {
        match self.inodes.get(ino) {
            Some(c) => {
                proof {
                    ordmap::lemma_map_of_entry(c.pages.entries(), 0);
                    assert(self.pages(ino).contains_key(c.pages.entries()[0].0));
                }
                c.pages.len() > 0
            },
            None => false,
        }
    }

    /// True if one specific logical page is cached.
    pub fn has_page(&self, ino: u64, block: u64) -> (r: bool)
        requires
            self.wf(),
        ensures
            r == self.pages(ino).contains_key(block),
    {
        match self.inodes.get(ino) {
            Some(c) => c.pages.get(block).is_some(),
            None => false,
        }
    }

    /// Shadow size and time of an inode, or `None` when nothing is cached.
    pub fn shadow(&self, ino: u64) -> (r: Option<(u64, u64)>)
        requires
            self.wf(),
        ensures
            r == self.shadow_of(ino),
    {
        match self.inodes.get(ino) {
            Some(c) => Some((c.shadow_size, c.shadow_mtime)),
            None => None,
        }
    }

    /// Stores `data` for `ino` at `offset` as pages. A page that the write
    /// covers only in part keeps the rest of the page that is cached, or of
    /// what `fetch` gives for the block. `fetch` is asked for no other block.
    pub fn store<Fetch: Fn(u64) -> Vec<u8>>(
        &mut self,
        ino: u64,
        offset: u64,
        data: &[u8],
        mtime: u64,
        fetch: Fetch,
    )
        requires
            old(self).wf(),
            offset + data@.len() <= u64::MAX,
            old(self).total_dirty + data@.len() + 2 * BLOCK_SIZE <= usize::MAX,
            forall|b: u64|
                asks_for(old(self).pages(ino), b, offset as int, data@.len() as int)
                    ==> #[trigger] fetch.requires((b,)),
            forall|b: u64, p: Vec<u8>| #[trigger]
                fetch.ensures((b,), p) ==> p@.len() == BLOCK_SIZE,
        ensures
            final(self).wf(),
            final(self).enabled == old(self).enabled,
            final(self).gates == old(self).gates,
            data@.len() == 0 ==> *final(self) == *old(self),
            data@.len() > 0 ==> pages_written(
                old(self).pages(ino),
                final(self).pages(ino),
                offset as int,
                data@,
                fetch,
            ),
            data@.len() > 0 ==> final(self).shadow_of(ino) == Some(
                (shadow_after(old(self).shadow_of(ino), offset + data@.len()), mtime),
            ),
            final(self).inodes@.remove(ino) == old(self).inodes@.remove(ino),
    {
        if data.len() == 0 {
            return;
        }
        let end: u64 = offset + data.len() as u64;
        let ghost old_pages = self.pages(ino);
        let taken = self.inodes.take(ino);
        let ghost rest = self.inodes.entries();
        let ghost had = taken is Some;
        let mut c = match taken {
            Some(c) => c,
            None => CachedInode::new(),
        };
        let old_dirty: usize = c.dirty_bytes;
        proof {
            lemma_sum_nonneg(old(self).inodes.entries());
            lemma_sum_nonneg(rest);
            if had {
                let i = choose|i: int|
                    0 <= i < old(self).inodes.entries().len() && old(self).inodes.entries()[i] == (
                    ino,
                    c,
                ) && rest == #[trigger] old(self).inodes.entries().remove(i);
                lemma_sum_remove(old(self).inodes.entries(), i);
            }
            assert(sum_dirty(rest) == old(self).total_dirty - old_dirty);
            assert(c.pages@ =~= old_pages);
        }
        c.shadow_size = if c.shadow_size > end {
            c.shadow_size
        } else {
            end
        };
        c.shadow_mtime = mtime;
        let ghost shadow = c.shadow_size;
        let first: u64 = offset / 4096;
        let ghost last = (end - 1) / 4096;
        let mut pos: usize = 0;
        let mut block: u64 = first;
        while pos < data.len()
            invariant
                data@.len() > 0,
                end == offset + data@.len(),
                first == offset / 4096,
                last == (end - 1) / 4096,
                old_dirty + data@.len() + 2 * BLOCK_SIZE <= usize::MAX,
                c.wf(),
                c.shadow_size == shadow,
                c.shadow_mtime == mtime,
                shadow >= end,
                pos <= data@.len(),
                first <= block <= last + 1,
                pos < data@.len() ==> block == (offset + pos) / 4096 && (pos == 0 || (offset + pos)
                    % 4096 == 0),
                pos == data@.len() ==> block == last + 1,
                c.dirty_bytes <= old_dirty + (block - first) * BLOCK_SIZE,
                block <= first + 2 + pos / 4096,
                (block - first) * BLOCK_SIZE <= pos + 2 * BLOCK_SIZE,
                pos > 0 ==> c.pages.entries().len() > 0,
                forall|b: u64|
                    asks_for(old_pages, b, offset as int, data@.len() as int)
                        ==> #[trigger] fetch.requires((b,)),
                forall|b: u64, p: Vec<u8>| #[trigger]
                    fetch.ensures((b,), p) ==> p@.len() == BLOCK_SIZE,
                forall|k: u64| #[trigger]
                    old_pages.contains_key(k) ==> old_pages[k]@.len() == BLOCK_SIZE,
                forall|k: u64| #[trigger]
                    c.pages@.contains_key(k) <==> old_pages.contains_key(k) || first <= k < block,
                forall|k: u64| #[trigger]
                    c.pages@.contains_key(k) ==> (if first <= k < block {
                        page_written(old_pages, c.pages@[k]@, k, offset as int, data@, fetch)
                    } else {
                        c.pages@[k] == old_pages[k]
                    }),
            decreases data@.len() - pos,
        {
            let file_off: u64 = offset + pos as u64;
            let within: usize = (file_off % 4096) as usize;
            let left: usize = data.len() - pos;
            let chunk: usize = if BLOCK_SIZE - within < left {
                BLOCK_SIZE - within
            } else {
                left
            };
            let ghost before = c.pages@;
            let ghost n_before = c.pages.entries().len();
            let cached = c.pages.take(block);
            let ghost hit = cached is Some;
            let newly_dirty = cached.is_none();
            let full = within == 0 && chunk == BLOCK_SIZE;
            proof {
                assert(block * 4096 + within == file_off);
                assert(touched(block as int, offset as int, data@.len() as int));
                if !full && !hit {
                    assert(asks_for(old_pages, block, offset as int, data@.len() as int));
                }
            }
            let mut page = if full {
                bytes::zeros(BLOCK_SIZE)
            } else {
                match cached {
                    Some(p) => p,
                    None => fetch(block),
                }
            };
            let ghost base = page;
            bytes::overwrite(&mut page, within, data, pos, pos + chunk);
            proof {
                assert(block * 4096 + within == file_off);
                assert(touched(block as int, offset as int, data@.len() as int));
                if full {
                    assert(overwrites_block(block as int, offset as int, data@.len() as int));
                    assert(page@ =~= data@.subrange(
                        block * BLOCK_SIZE - offset,
                        block * BLOCK_SIZE - offset + BLOCK_SIZE,
                    ));
                } else {
                    assert(!overwrites_block(block as int, offset as int, data@.len() as int));
                    assert(page@ =~= patched(base@, block as int, offset as int, data@));
                    if hit {
                        assert(old_pages.contains_key(block));
                        assert(before[block] == old_pages[block]);
                    } else {
                        assert(fetch.ensures((block,), base));
                    }
                }
                assert(page_written(old_pages, page@, block, offset as int, data@, fetch));
            }
            c.pages.insert(block, page);
            if newly_dirty {
                c.dirty_bytes = c.dirty_bytes + BLOCK_SIZE;
            }
            pos = pos + chunk;
            block = block + 1;
            proof {
                assert(c.pages@ =~= before.insert((block - 1) as u64, page));
                assert((block - 1) * BLOCK_SIZE < c.shadow_size);
            }
        }
        let new_dirty: usize = c.dirty_bytes;
        let ghost c1 = c;
        self.inodes.insert(ino, c);
        self.total_dirty = self.total_dirty - old_dirty + new_dirty;
        proof {
            let i = choose|i: int|
                0 <= i <= rest.len() && self.inodes.entries() == #[trigger] rest.insert(
                    i,
                    (ino, c1),
                );
            lemma_sum_insert(rest, i, (ino, c1));
            assert(self.pages(ino) == c1.pages@);
            assert(self.inodes@.remove(ino) =~= old(self).inodes@.remove(ino));
            assert forall|k: u64| #[trigger]
                self.pages(ino).contains_key(k) implies page_written(
                old_pages,
                self.pages(ino)[k]@,
                k,
                offset as int,
                data@,
                fetch,
            ) by {
                if first <= k <= last {
                } else {
                    assert(!touched(k as int, offset as int, data@.len() as int));
                }
            }
            assert(pages_written(old_pages, self.pages(ino), offset as int, data@, fetch));
        }
    }

    /// Copies out the pages of `blocks` that are cached, in the order given.
    pub fn get_pages(&self, ino: u64, blocks: &[u64]) -> (r: Vec<(u64, Vec<u8>)>)
        requires
            self.wf(),
        ensures
            pages_found(r@, blocks@, self.pages(ino)),
    {
        let mut out: Vec<(u64, Vec<u8>)> = Vec::new();
        let ghost pages = self.pages(ino);
        let ghost cached = |b: u64| pages.contains_key(b);
        match self.inodes.get(ino) {
            None => {
                proof {
                    blocks@.lemma_all_neg_filter_empty(cached);
                    assert(blocks@.filter(cached) =~= Seq::<u64>::empty());
                    assert(out@.map_values(|e: (u64, Vec<u8>)| e.0) =~= Seq::<u64>::empty());
                }
                return out;
            },
            Some(c) => {
                let mut i: usize = 0;
                assert(blocks@.take(0).filter(cached) =~= Seq::<u64>::empty()) by {
                    reveal(Seq::filter);
                }
                assert(out@.map_values(|e: (u64, Vec<u8>)| e.0) =~= Seq::<u64>::empty());
                while i < blocks.len()
                    invariant
                        c.wf(),
                        pages == c.pages@,
                        cached == (|b: u64| pages.contains_key(b)),
                        i <= blocks@.len(),
                        out@.map_values(|e: (u64, Vec<u8>)| e.0) == blocks@.take(i as int).filter(
                            cached,
                        ),
                        forall|j: int|
                            0 <= j < out@.len() ==> pages.contains_key((#[trigger] out@[j]).0)
                                && out@[j].1@ == pages[out@[j].0]@,
                    decreases blocks@.len() - i,
                {
                    let b = blocks[i];
                    let ghost before = out@;
                    proof {
                        blocks@.take(i as int).lemma_filter_push(b, cached);
                        assert(blocks@.take(i + 1) =~= blocks@.take(i as int).push(b));
                    }
                    if let Some(p) = c.pages.get(b) {
                        let page = bytes::copy_range(p.as_slice(), 0, p.len());
                        assert(page@ =~= p@);
                        out.push((b, page));
                        assert(out@.map_values(|e: (u64, Vec<u8>)| e.0) =~= before.map_values(
                            |e: (u64, Vec<u8>)| e.0,
                        ).push(b));
                    }
                    i = i + 1;
                }
                assert(blocks@.take(i as int) =~= blocks@);
            },
        }
        out
    }

    /// Drains the cached pages of `ino` as contiguous runs.
    pub fn drain_runs(&mut self, ino: u64) -> (r: Vec<(u64, Vec<u8>)>)
        requires
            old(self).wf(),
        ensures
            final(self).wf(),
            runs_of(r@, old(self).pages(ino)),
            final(self).inodes@ == old(self).inodes@.remove(ino),
            final(self).gates == old(self).gates,
            final(self).enabled == old(self).enabled,
    {
        self.drain_runs_and_eof(ino).0
    }

    /// Drains the cached pages of `ino` as contiguous runs, with the shadow
    /// size as the file's logical end. Nothing of `ino` stays cached.
    pub fn drain_runs_and_eof(&mut self, ino: u64) -> (r: (Vec<(u64, Vec<u8>)>, Option<u64>))
        requires
            old(self).wf(),
        ensures
            final(self).wf(),
            runs_of(r.0@, old(self).pages(ino)),
            r.1 == (match old(self).shadow_of(ino) {
                Some((size, _)) => Some(size),
                None => None,
            }),
            final(self).inodes@ == old(self).inodes@.remove(ino),
            final(self).gates == old(self).gates,
            final(self).enabled == old(self).enabled,
    {
        match self.forget(ino) {
            None => (Vec::new(), None),
            Some(c) => {
                let shadow_size = c.shadow_size;
                let runs = runs_from_pages(c.pages);
                (runs, if shadow_size > 0 {
                    Some(shadow_size)
                } else {
                    None
                })
            },
        }
    }

    /// Takes `ino` out of the cache and out of the dirty total.
    fn forget(&mut self, ino: u64) -> (r: Option<CachedInode>)
        requires
            old(self).wf(),
        ensures
            final(self).wf(),
            final(self).inodes@ == old(self).inodes@.remove(ino),
            final(self).gates == old(self).gates,
            final(self).enabled == old(self).enabled,
            r is Some <==> old(self).inodes@.contains_key(ino),
            r matches Some(c) ==> c == old(self).inodes@[ino] && final(self).total_dirty == old(
                self,
            ).total_dirty - c.dirty_bytes,
            r is None ==> *final(self) == *old(self),
    {
        let taken = self.inodes.take(ino);
        match taken {
            None => None,
            Some(c) => {
                proof {
                    lemma_sum_nonneg(old(self).inodes.entries());
                    let i = choose|i: int|
                        0 <= i < old(self).inodes.entries().len() && old(self).inodes.entries()[i]
                            == (ino, c) && self.inodes.entries() == #[trigger] old(
                            self,
                        ).inodes.entries().remove(i);
                    lemma_sum_remove(old(self).inodes.entries(), i);
                    lemma_sum_nonneg(self.inodes.entries());
                }
                self.total_dirty = self.total_dirty - c.dirty_bytes;
                Some(c)
            },
        }
    }

    /// Drops everything cached for `ino` without flushing it.
    pub fn drop_ino(&mut self, ino: u64)
        requires
            old(self).wf(),
        ensures
            final(self).wf(),
            final(self).inodes@ == old(self).inodes@.remove(ino),
            final(self).gates@ == old(self).gates@.remove(ino),
            final(self).enabled == old(self).enabled,
    {
        let _ = self.forget(ino);
        let _ = self.gates.remove(ino);
    }

    /// All inodes with cached pages.
    pub fn dirty_inodes(&self) -> (r: Vec<u64>)
        requires
            self.wf(),
        ensures
            r@.to_set() == self.inodes@.dom(),
            r@.no_duplicates(),
    {
        let mut out: Vec<u64> = Vec::new();
        let mut i: usize = 0;
        while i < self.inodes.len()
            invariant
                self.wf(),
                i <= self.inodes.entries().len(),
                out@.len() == i,
                forall|j: int|
                    0 <= j < i ==> (#[trigger] out@[j]) == self.inodes.entries()[j].0,
            decreases self.inodes.entries().len() - i,
        {
            out.push(self.inodes.entry(i).0);
            i = i + 1;
        }
        proof {
            let es = self.inodes.entries();
            assert forall|k: u64| #[trigger]
                out@.to_set().contains(k) <==> self.inodes@.dom().contains(k) by {
                if out@.contains(k) {
                    let j = choose|j: int| 0 <= j < out@.len() && out@[j] == k;
                    ordmap::lemma_map_of_entry(es, j);
                }
                if self.inodes@.contains_key(k) {
                    ordmap::lemma_key_pos(es, k);
                    let j = ordmap::key_pos(es, k);
                    assert(es[j].0 == k);
                    assert(out@[j] == k);
                }
            }
            assert(out@.to_set() =~= self.inodes@.dom());
            assert forall|a: int, b: int|
                0 <= a < out@.len() && 0 <= b < out@.len() && a != b implies out@[a] != out@[b] by {
                if a < b {
                    assert(es[a].0 < es[b].0);
                } else {
                    assert(es[b].0 < es[a].0);
                }
            }
        }
        out
    }

    /// An inode that holds the most dirty bytes.
    pub fn largest_dirty(&self) -> (r: Option<u64>)
        requires
            self.wf(),
        ensures
            r is None <==> self.inodes@ == Map::<u64, CachedInode>::empty(),
            r matches Some(ino) ==> self.inodes@.contains_key(ino) && forall|other: u64| #[trigger]
                self.inodes@.contains_key(other) ==> self.inodes@[other].dirty_bytes
                    <= self.inodes@[ino].dirty_bytes,
    {
        let ghost es = self.inodes.entries();
        if self.inodes.len() == 0 {
            proof {
                reveal(ordmap::map_of);
            }
            assert(self.inodes@ =~= Map::<u64, CachedInode>::empty());
            return None;
        }
        let mut best: usize = 0;
        let mut i: usize = 1;
        while i < self.inodes.len()
            invariant
                es == self.inodes.entries(),
                best < i <= es.len(),
                forall|j: int|
                    0 <= j < i ==> (#[trigger] es[j]).1.dirty_bytes <= es[best as int].1.dirty_bytes,
            decreases es.len() - i,
        {
            if self.inodes.entry(i).1.dirty_bytes >= self.inodes.entry(best).1.dirty_bytes {
                best = i;
            }
            i = i + 1;
        }
        proof {
            ordmap::lemma_map_of_entry(es, best as int);
            assert forall|other: u64| #[trigger]
                self.inodes@.contains_key(other) implies self.inodes@[other].dirty_bytes
                <= self.inodes@[es[best as int].0].dirty_bytes by {
                ordmap::lemma_key_pos(es, other);
                let j = ordmap::key_pos(es, other);
                ordmap::lemma_map_of_entry(es, j);
            }
        }
        Some(self.inodes.entry(best).0)
    }

    /// Bytes of all cached pages.
    pub fn total_dirty(&self) -> (r: usize)
        requires
            self.wf(),
        ensures
            r == sum_dirty(self.inodes.entries()),
    {
        self.total_dirty
    }

    /// The write gate of `ino`, made if there is none yet. Whether somebody
    /// holds it.
    pub fn gate(&mut self, ino: u64) -> (held: bool)
        requires
            old(self).wf(),
        ensures
            final(self).wf(),
            held == (old(self).gates@.contains_key(ino) && old(self).gates@[ino]),
            final(self).gates@ == old(self).gates@.insert(ino, held),
            final(self).inodes == old(self).inodes,
            final(self).total_dirty == old(self).total_dirty,
            final(self).enabled == old(self).enabled,
    {
        let held = match self.gates.get(ino) {
            Some(h) => *h,
            None => false,
        };
        self.gates.insert(ino, held);
        held
    }

    /// Enters the write gate of `ino`, unless somebody holds it already.
    pub fn try_enter_gate(&mut self, ino: u64) -> (entered: bool)
        requires
            old(self).wf(),
        ensures
            final(self).wf(),
            entered == !(old(self).gates@.contains_key(ino) && old(self).gates@[ino]),
            final(self).gates@ == old(self).gates@.insert(ino, true),
            final(self).inodes == old(self).inodes,
            final(self).total_dirty == old(self).total_dirty,
            final(self).enabled == old(self).enabled,
    {
        let held = self.gate(ino);
        let ghost before = self.gates@;
        self.gates.insert(ino, true);
        assert(self.gates@ =~= old(self).gates@.insert(ino, true));
        !held
    }

    /// Leaves the write gate of `ino`.
    pub fn leave_gate(&mut self, ino: u64)
        requires
            old(self).wf(),
        ensures
            final(self).wf(),
            final(self).gates@ == old(self).gates@.insert(ino, false),
            final(self).inodes == old(self).inodes,
            final(self).total_dirty == old(self).total_dirty,
            final(self).enabled == old(self).enabled,
    {
        self.gates.insert(ino, false);
    }
}

/// `found` holds the cached ones of `blocks`, in order, each with its page.
pub open spec fn pages_found(
    found: Seq<(u64, Vec<u8>)>,
    blocks: Seq<u64>,
    pages: Map<u64, Vec<u8>>,
) -> bool {
    &&& found.map_values(|e: (u64, Vec<u8>)| e.0) == blocks.filter(|b: u64| pages.contains_key(b))
    &&& forall|j: int|
        0 <= j < found.len() ==> pages.contains_key((#[trigger] found[j]).0) && found[j].1@
            == pages[found[j].0]@
}

/// The number of blocks in a run.
pub open spec fn run_blocks(run: (u64, Vec<u8>)) -> int {
    run.1@.len() as int / BLOCK_SIZE as int
}

/// The run holds block `k`.
pub open spec fn in_run(run: (u64, Vec<u8>), k: int) -> bool {
    run.0 <= k < run.0 + run_blocks(run)
}

/// The bytes of block `k` in the run.
pub open spec fn run_page(run: (u64, Vec<u8>), k: int) -> Seq<u8> {
    run.1@.subrange((k - run.0) * BLOCK_SIZE, (k - run.0) * BLOCK_SIZE + BLOCK_SIZE)
}

/// The runs are whole blocks, in order, with a gap between any two.
pub open spec fn runs_maximal(runs: Seq<(u64, Vec<u8>)>) -> bool {
    &&& forall|i: int|
        0 <= i < runs.len() ==> (#[trigger] runs[i]).1@.len() > 0 && runs[i].1@.len() % (
        BLOCK_SIZE as nat) == 0
    &&& forall|i: int, j: int|
        0 <= i < j < runs.len() ==> (#[trigger] runs[i]).0 + run_blocks(runs[i]) < (
        #[trigger] runs[j]).0
}

/// The runs are maximal and hold exactly the pages of `pages`.
pub open spec fn runs_of(runs: Seq<(u64, Vec<u8>)>, pages: Map<u64, Vec<u8>>) -> bool {
    &&& runs_maximal(runs)
    &&& forall|k: u64| #[trigger]
        pages.contains_key(k) ==> exists|i: int|
            0 <= i < runs.len() && in_run(#[trigger] runs[i], k as int) && run_page(
                runs[i],
                k as int,
            ) == pages[k]@
    &&& forall|i: int, k: int|
        0 <= i < runs.len() && #[trigger] in_run(runs[i], k) ==> k <= u64::MAX
            && pages.contains_key(k as u64)
}

/// Turns a page map into contiguous runs.
fn runs_from_pages(pages: OrdMap<Vec<u8>>) -> (runs: Vec<(u64, Vec<u8>)>)
    requires
        pages.wf(),
        forall|k: u64| #[trigger]
            pages@.contains_key(k) ==> pages@[k]@.len() == BLOCK_SIZE && k * BLOCK_SIZE < u64::MAX,
    ensures
        runs_of(runs@, pages@),
{
    let ghost es = pages.entries();
    let mut runs: Vec<(u64, Vec<u8>)> = Vec::new();
    let mut i: usize = 0;
    while i < pages.len()
        invariant
            es == pages.entries(),
            pages.wf(),
            forall|k: u64| #[trigger]
                pages@.contains_key(k) ==> pages@[k]@.len() == BLOCK_SIZE && k * BLOCK_SIZE
                    < u64::MAX,
            i <= es.len(),
            runs_maximal(runs@),
            runs@.len() > 0 ==> i > 0 && runs@.last().0 + run_blocks(runs@.last()) == es[i - 1].0
                + 1,
            i > 0 ==> runs@.len() > 0,
            forall|q: int|
                0 <= q < i ==> exists|r: int|
                    0 <= r < runs@.len() && in_run(#[trigger] runs@[r], (#[trigger] es[q]).0 as int)
                        && run_page(runs@[r], es[q].0 as int) == es[q].1@,
            forall|r: int, k: int|
                0 <= r < runs@.len() && #[trigger] in_run(runs@[r], k) ==> exists|q: int|
                    0 <= q < i && (#[trigger] es[q]).0 == k,
        decreases es.len() - i,
    {
        let ghost before = runs@;
        let ghost k = es[i as int].0;
        proof {
            ordmap::lemma_map_of_entry(es, i as int);
            assert(pages@.contains_key(k));
            assert(es[i as int].1@.len() == BLOCK_SIZE);
            if i > 0 {
                assert(es[i - 1].0 < es[i as int].0);
            }
        }
        let entry = pages.entry(i);
        let block = entry.0;
        let n: usize = runs.len();
        let joins = if n > 0 {
            let last = &runs[n - 1];
            last.0 as u128 + (last.1.len() / BLOCK_SIZE) as u128 == block as u128
        } else {
            false
        };
        if joins {
            let (start, mut buf) = runs.pop().unwrap();
            let ghost old_run = before.last();
            bytes::append(&mut buf, entry.1.as_slice());
            runs.push((start, buf));
            proof {
                let new_run = runs@.last();
                assert(runs@ =~= before.drop_last().push(new_run));
                assert(run_blocks(new_run) == run_blocks(old_run) + 1);
                assert(run_page(new_run, k as int) =~= es[i as int].1@);
                assert forall|m: int| in_run(old_run, m) implies run_page(new_run, m) == #[trigger]
                run_page(old_run, m) by {
                    assert(run_page(new_run, m) =~= run_page(old_run, m));
                }
                assert forall|q: int| 0 <= q < i + 1 implies exists|r: int|
                    0 <= r < runs@.len() && in_run(#[trigger] runs@[r], (#[trigger] es[q]).0 as int)
                        && run_page(runs@[r], es[q].0 as int) == es[q].1@ by {
                    if q == i {
                        assert(in_run(runs@[n - 1], es[q].0 as int));
                    } else {
                        let r = choose|r: int|
                            0 <= r < before.len() && in_run(#[trigger] before[r], es[q].0 as int)
                                && run_page(before[r], es[q].0 as int) == es[q].1@;
                        if r == n - 1 {
                            assert(in_run(runs@[r], es[q].0 as int));
                        } else {
                            assert(runs@[r] == before[r]);
                        }
                    }
                }
                assert forall|r: int, m: int|
                    0 <= r < runs@.len() && #[trigger] in_run(runs@[r], m) implies exists|q: int|
                    0 <= q < i + 1 && (#[trigger] es[q]).0 == m by {
                    if r == n - 1 && m == k {
                        assert(es[i as int].0 == m);
                    } else {
                        assert(in_run(before[r], m));
                        let q = choose|q: int| 0 <= q < i && (#[trigger] es[q]).0 == m;
                        assert(es[q].0 == m);
                    }
                }
            }
        } else {
            let page = bytes::copy_range(entry.1.as_slice(), 0, entry.1.len());
            runs.push((block, page));
            proof {
                let new_run = runs@.last();
                assert(run_page(new_run, k as int) =~= es[i as int].1@);
                assert forall|q: int| 0 <= q < i + 1 implies exists|r: int|
                    0 <= r < runs@.len() && in_run(#[trigger] runs@[r], (#[trigger] es[q]).0 as int)
                        && run_page(runs@[r], es[q].0 as int) == es[q].1@ by {
                    if q == i {
                        assert(in_run(runs@[n as int], es[q].0 as int));
                    } else {
                        let r = choose|r: int|
                            0 <= r < before.len() && in_run(#[trigger] before[r], es[q].0 as int)
                                && run_page(before[r], es[q].0 as int) == es[q].1@;
                        assert(runs@[r] == before[r]);
                    }
                }
                assert forall|r: int, m: int|
                    0 <= r < runs@.len() && #[trigger] in_run(runs@[r], m) implies exists|q: int|
                    0 <= q < i + 1 && (#[trigger] es[q]).0 == m by {
                    if r == n {
                        assert(es[i as int].0 == m);
                    } else {
                        assert(in_run(before[r], m));
                        let q = choose|q: int| 0 <= q < i && (#[trigger] es[q]).0 == m;
                        assert(es[q].0 == m);
                    }
                }
                assert forall|a: int, b: int| 0 <= a < b < runs@.len() implies (
                #[trigger] runs@[a]).0 + run_blocks(runs@[a]) < (#[trigger] runs@[b]).0 by {
                    if b == n && a < n - 1 {
                        assert(before[a].0 + run_blocks(before[a]) < before[n - 1].0);
                    }
                }
            }
        }
        i = i + 1;
    }
    proof {
        assert forall|k: u64| #[trigger] pages@.contains_key(k) implies exists|r: int|
            0 <= r < runs@.len() && in_run(#[trigger] runs@[r], k as int) && run_page(
                runs@[r],
                k as int,
            ) == pages@[k]@ by {
            ordmap::lemma_key_pos(es, k);
            let q = ordmap::key_pos(es, k);
            ordmap::lemma_map_of_entry(es, q);
            assert(es[q].0 == k);
        }
        assert forall|r: int, k: int|
            0 <= r < runs@.len() && #[trigger] in_run(runs@[r], k) implies k <= u64::MAX
            && pages@.contains_key(k as u64) by {
            let q = choose|q: int| 0 <= q < i && (#[trigger] es[q]).0 == k;
            ordmap::lemma_map_of_entry(es, q);
        }
    }
    runs
}

/// The shadow size after a write that ends at `end`.
pub open spec fn shadow_after(shadow: Option<(u64, u64)>, end: int) -> u64 {
    match shadow {
        Some((size, _)) => if size > end {
            size
        } else {
            end as u64
        },
        None => end as u64,
    }
}

} // verus!
