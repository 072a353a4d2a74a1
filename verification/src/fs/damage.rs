//! The blocks of a file whose stored bytes cannot be read.
//!
//! A block stays unreadable until it is written whole, or the file is cut
//! before it.

use crate::fs::page_cache;
use crate::fs::page_cache::PageCache;
use crate::ondisk::serialization::BLOCK_SIZE;
use vstd::prelude::*;

verus! {

/// What is still unreadable once `len` bytes at `offset` are written: the
/// blocks that the write does not cover.
pub open spec fn after_write(blocks: Seq<u64>, offset: int, len: int) -> Seq<u64> {
    blocks.filter(|k: u64| !page_cache::overwrites_block(k as int, offset, len))
}

/// What is still unreadable once the buffered pages are stored.
pub open spec fn after_flush(blocks: Seq<u64>, pages: Map<u64, Vec<u8>>) -> Seq<u64> {
    blocks.filter(|k: u64| !pages.contains_key(k))
}

/// What is still unreadable once the file is cut to `n` bytes.
pub open spec fn after_cut(blocks: Seq<u64>, n: int) -> Seq<u64> {
    blocks.filter(|k: u64| k * BLOCK_SIZE < n)
}

/// What is left was there, and is what was kept.
pub proof fn lemma_kept(blocks: Seq<u64>, keep: spec_fn(u64) -> bool, k: u64)
    ensures
        blocks.filter(keep).contains(k) <==> blocks.contains(k) && keep(k),
{
    if blocks.filter(keep).contains(k) {
        blocks.lemma_filter_contains_rev(keep, k);
        let i = choose|i: int| 0 <= i < blocks.filter(keep).len() && blocks.filter(keep)[i] == k;
        blocks.lemma_filter_pred(keep, i);
    }
    if blocks.contains(k) && keep(k) {
        let i = choose|i: int| 0 <= i < blocks.len() && blocks[i] == k;
        blocks.lemma_filter_contains(keep, i);
    }
}

/// The blocks that a write does not cover.
pub fn left_after_write(blocks: &[u64], offset: u64, len: u64) -> (r: Vec<u64>)
    ensures
        r@ == after_write(blocks@, offset as int, len as int),
{
    let ghost keep = |k: u64| !page_cache::overwrites_block(k as int, offset as int, len as int);
    let mut out: Vec<u64> = Vec::new();
    let mut i: usize = 0;
    assert(out@ =~= blocks@.take(0).filter(keep)) by {
        reveal(Seq::filter);
    }
    while i < blocks.len()
        invariant
            i <= blocks@.len(),
            keep == (|k: u64|
                !page_cache::overwrites_block(k as int, offset as int, len as int)),
            out@ == blocks@.take(i as int).filter(keep),
        decreases blocks@.len() - i,
    {
        let k = blocks[i];
        proof {
            blocks@.take(i as int).lemma_filter_push(k, keep);
            assert(blocks@.take(i + 1) =~= blocks@.take(i as int).push(k));
        }
        let start: u128 = k as u128 * 4096;
        if !(offset as u128 <= start && start + 4096 <= offset as u128 + len as u128) {
            out.push(k);
        }
        i = i + 1;
    }
    assert(blocks@.take(i as int) =~= blocks@);
    out
}

/// The blocks of which no page is buffered.
pub fn left_after_flush(blocks: &[u64], cache: &PageCache, ino: u64) -> (r: Vec<u64>)
    requires
        cache.wf(),
    ensures
        r@ == after_flush(blocks@, cache.pages(ino)),
{
    let ghost keep = |k: u64| !cache.pages(ino).contains_key(k);
    let mut out: Vec<u64> = Vec::new();
    let mut i: usize = 0;
    assert(out@ =~= blocks@.take(0).filter(keep)) by {
        reveal(Seq::filter);
    }
    while i < blocks.len()
        invariant
            cache.wf(),
            i <= blocks@.len(),
            keep == (|k: u64| !cache.pages(ino).contains_key(k)),
            out@ == blocks@.take(i as int).filter(keep),
        decreases blocks@.len() - i,
    {
        let k = blocks[i];
        proof {
            blocks@.take(i as int).lemma_filter_push(k, keep);
            assert(blocks@.take(i + 1) =~= blocks@.take(i as int).push(k));
        }
        if !cache.has_page(ino, k) {
            out.push(k);
        }
        i = i + 1;
    }
    assert(blocks@.take(i as int) =~= blocks@);
    out
}

/// The blocks that start before the end of a file of `n` bytes.
pub fn left_after_cut(blocks: &[u64], n: u64) -> (r: Vec<u64>)
    ensures
        r@ == after_cut(blocks@, n as int),
{
    let ghost keep = |k: u64| k * BLOCK_SIZE < n as int;
    let mut out: Vec<u64> = Vec::new();
    let mut i: usize = 0;
    assert(out@ =~= blocks@.take(0).filter(keep)) by {
        reveal(Seq::filter);
    }
    while i < blocks.len()
        invariant
            i <= blocks@.len(),
            keep == (|k: u64| k * BLOCK_SIZE < n as int),
            out@ == blocks@.take(i as int).filter(keep),
        decreases blocks@.len() - i,
    {
        let k = blocks[i];
        proof {
            blocks@.take(i as int).lemma_filter_push(k, keep);
            assert(blocks@.take(i + 1) =~= blocks@.take(i as int).push(k));
        }
        if (k as u128 * 4096) < n as u128 {
            out.push(k);
        }
        i = i + 1;
    }
    assert(blocks@.take(i as int) =~= blocks@);
    out
}

/// A block can be read again once it is written whole, once a buffered page of
/// it is stored, or once the file ends before it; and only then.
pub proof fn blocks_are_readable_again(
    blocks: Seq<u64>,
    pages: Map<u64, Vec<u8>>,
    offset: int,
    len: int,
    n: int,
    k: u64,
)
    ensures
        after_write(blocks, offset, len).contains(k) <==> blocks.contains(k) && !(offset <= k * 4096
            && k * 4096 + 4096 <= offset + len),
        after_flush(blocks, pages).contains(k) <==> blocks.contains(k) && !pages.contains_key(k),
        after_cut(blocks, n).contains(k) <==> blocks.contains(k) && k * 4096 < n,
{
    lemma_kept(blocks, |b: u64| !page_cache::overwrites_block(b as int, offset, len), k);
    lemma_kept(blocks, |b: u64| !pages.contains_key(b), k);
    lemma_kept(blocks, |b: u64| b * BLOCK_SIZE < n, k);
}

} // verus!
