//! A fixed set of buffers that operations lease. A slot is leased to one
//! operation at a time; where all are leased, or the request is larger than a
//! slot, there is no lease.

use crate::bytes;
use vstd::prelude::*;

verus! {

/// Bytes in a slot, unless said otherwise.
pub const DEFAULT_SLOT_SIZE: usize = 65_536;

/// Slots, unless said otherwise.
pub const DEFAULT_SLOT_COUNT: usize = 512;

/// A leased range.
#[derive(Debug, Clone, Copy, PartialEq, Eq, Hash, Structural)]
pub struct BufHandle {
    pub slot: u32,
    pub off: u32,
    pub len: u32,
}

/// How often bytes were copied because a buffer could not be used as it was.
/// The counters wrap around.
#[derive(Debug, Clone, Copy, PartialEq, Eq, Structural)]
pub struct BounceStats {
    pub copy_in: u64,
    pub copy_out: u64,
}

impl Default for BounceStats {
    fn default() -> (r: Self)
        ensures
            r == (BounceStats { copy_in: 0, copy_out: 0 }),
    {
        BounceStats { copy_in: 0, copy_out: 0 }
    }
}

/// The buffers.
#[derive(Debug)]
pub struct RegisteredBufArena {
    /// The bytes of each slot.
    pub bufs: Vec<Vec<u8>>,
    /// Whether each slot is leased.
    pub leased: Vec<bool>,
    /// Bytes in a slot.
    pub slot_size: usize,
    pub bounce: BounceStats,
    /// How many slots are leased.
    pub leases_outstanding: u64,
}

/// How many slots are leased.
pub open spec fn count_leased(leased: Seq<bool>) -> int
    decreases leased.len(),
{
    if leased.len() == 0 {
        0
    } else {
        count_leased(leased.drop_last()) + if leased.last() {
            1int
        } else {
            0int
        }
    }
}

/// The first slot that is not leased; the number of slots if all are.
pub open spec fn first_free(leased: Seq<bool>) -> int
    decreases leased.len(),
{
    if leased.len() == 0 {
        0
    } else if !leased[0] {
        0
    } else {
        1 + first_free(leased.drop_first())
    }
}

proof fn lemma_count_update(leased: Seq<bool>, i: int, to: bool)
    requires
        0 <= i < leased.len(),
    ensures
        count_leased(leased.update(i, to)) == count_leased(leased) + (if to {
            1int
        } else {
            0int
        }) - (if leased[i] {
            1int
        } else {
            0int
        }),
    decreases leased.len(),
{
    if i == leased.len() - 1 {
        assert(leased.update(i, to).drop_last() =~= leased.drop_last());
    } else {
        assert(leased.update(i, to).drop_last() =~= leased.drop_last().update(i, to));
        lemma_count_update(leased.drop_last(), i, to);
    }
}

proof fn lemma_count_bounds(leased: Seq<bool>)
    ensures
        0 <= count_leased(leased) <= leased.len(),
        forall|i: int| 0 <= i < leased.len() && #[trigger] leased[i] ==> count_leased(leased) > 0,
    decreases leased.len(),
{
    if leased.len() > 0 {
        lemma_count_bounds(leased.drop_last());
        assert forall|i: int| 0 <= i < leased.len() && #[trigger] leased[i] implies count_leased(
            leased,
        ) > 0 by {
            if i < leased.len() - 1 {
                assert(leased.drop_last()[i]);
            }
        }
    }
}

proof fn lemma_count_none(leased: Seq<bool>)
    requires
        forall|i: int| 0 <= i < leased.len() ==> !(#[trigger] leased[i]),
    ensures
        count_leased(leased) == 0,
    decreases leased.len(),
{
    if leased.len() > 0 {
        lemma_count_none(leased.drop_last());
    }
}

/// The slot size rounded up to whole pages, of which there is at least one.
pub open spec fn rounded_size(slot_size: usize, page: usize) -> int {
    let wanted = if slot_size > page {
        slot_size as int
    } else {
        page as int
    };
    ((wanted + page - 1) / page as int) * page
}

impl RegisteredBufArena {
    /// Each slot has its bytes, and the leases are counted.
    pub open spec fn wf(&self) -> bool {
        &&& self.bufs@.len() == self.leased@.len()
        &&& self.bufs@.len() <= u32::MAX
        &&& forall|i: int|
            0 <= i < self.bufs@.len() ==> (#[trigger] self.bufs@[i])@.len() == self.slot_size
        &&& self.leases_outstanding == count_leased(self.leased@)
    }

    /// The handle is of a leased slot and lies in it.
    pub open spec fn holds(&self, handle: BufHandle) -> bool {
        &&& handle.slot < self.bufs@.len()
        &&& self.leased@[handle.slot as int]
        &&& handle.off + handle.len <= self.slot_size
    }

    /// The bytes of a handle.
    pub open spec fn bytes_of(&self, handle: BufHandle) -> Seq<u8> {
        self.bufs@[handle.slot as int]@.subrange(
            handle.off as int,
            handle.off + handle.len,
        )
    }

    /// An arena of so many slots; their size is rounded up to whole pages.
    #[must_use]
    pub fn new(slot_count: usize, slot_size: usize, page_size: usize) -> (r: Self)
        requires
            page_size > 0,
            slot_count <= u32::MAX,
            slot_size + page_size <= usize::MAX,
            2 * page_size <= usize::MAX,
        ensures
            r.wf(),
            r.bufs@.len() == slot_count,
            r.slot_size == rounded_size(slot_size, page_size),
            r.leases_outstanding == 0,
            r.bounce == (BounceStats { copy_in: 0, copy_out: 0 }),
    {
        let wanted: usize = if slot_size > page_size {
            slot_size
        } else {
            page_size
        };
        let pages: usize = (wanted + (page_size - 1)) / page_size;
        assert(pages * page_size <= wanted + (page_size - 1)) by (nonlinear_arith)
            requires
                pages == (wanted + (page_size - 1)) as int / page_size as int,
                page_size > 0,
        ;
        let size: usize = pages * page_size;
        let mut bufs: Vec<Vec<u8>> = Vec::new();
        let mut leased: Vec<bool> = Vec::new();
        let mut i: usize = 0;
        while i < slot_count
            invariant
                i <= slot_count,
                bufs@.len() == i,
                leased@.len() == i,
                forall|j: int| 0 <= j < i ==> (#[trigger] bufs@[j])@.len() == size,
                forall|j: int| 0 <= j < i ==> !(#[trigger] leased@[j]),
            decreases slot_count - i,
        {
            bufs.push(bytes::zeros(size));
            leased.push(false);
            i = i + 1;
        }
        proof {
            lemma_count_none(leased@);
        }
        RegisteredBufArena {
            bufs,
            leased,
            slot_size: size,
            bounce: BounceStats::default(),
            leases_outstanding: 0,
        }
    }

    /// An arena of the usual shape.
    #[must_use]
    pub fn with_defaults(page_size: usize) -> (r: Self)
        requires
            page_size > 0,
            DEFAULT_SLOT_SIZE + page_size <= usize::MAX,
            2 * page_size <= usize::MAX,
        ensures
            r.wf(),
            r.bufs@.len() == DEFAULT_SLOT_COUNT,
            r.slot_size == rounded_size(DEFAULT_SLOT_SIZE, page_size),
            r.leases_outstanding == 0,
            r.bounce == (BounceStats { copy_in: 0, copy_out: 0 }),
    {
        Self::new(DEFAULT_SLOT_COUNT, DEFAULT_SLOT_SIZE, page_size)
    }

    /// Leases the first `len` bytes of the first slot that is free.
    #[must_use]
    pub fn lease(&mut self, len: u32) -> (r: Option<BufHandle>)
        requires
            old(self).wf(),
        ensures
            final(self).wf(),
            ({
                let i = first_free(old(self).leased@);
                &&& 0 <= i
                &&& if len <= old(self).slot_size && i < old(self).leased@.len() {
                    &&& r == Some(BufHandle { slot: i as u32, off: 0, len })
                    &&& !old(self).leased@[i]
                    &&& final(self).leased@ == old(self).leased@.update(i, true)
                    &&& final(self).leases_outstanding == old(self).leases_outstanding + 1
                    &&& final(self).holds(r->0)
                } else {
                    &&& r is None
                    &&& *final(self) == *old(self)
                }
            }),
            final(self).bufs == old(self).bufs,
            final(self).slot_size == old(self).slot_size,
            final(self).bounce == old(self).bounce,
    {
        proof {
            lemma_first_free(self.leased@);
        }
        if len as usize > self.slot_size {
            return None;
        }
        let mut i: usize = 0;
        assert(self.leased@.skip(0) =~= self.leased@);
        while i < self.leased.len()
            invariant
                self.wf(),
                *self == *old(self),
                i <= self.leased@.len(),
                len <= self.slot_size,
                first_free(self.leased@) == i + first_free(self.leased@.skip(i as int)),
            decreases self.leased@.len() - i,
        {
            assert(self.leased@.skip(i as int)[0] == self.leased@[i as int]);
            if !self.leased[i] {
                proof {
                    lemma_count_update(self.leased@, i as int, true);
                    lemma_count_bounds(self.leased@);
                }
                self.leased.set(i, true);
                self.leases_outstanding = self.leases_outstanding + 1;
                return Some(BufHandle { slot: i as u32, off: 0, len });
            }
            assert(self.leased@.skip(i as int).drop_first() =~= self.leased@.skip(i + 1));
            i = i + 1;
        }
        None
    }

    /// Ends a lease. A slot that is not leased, or that does not exist, is left
    /// alone.
    pub fn release(&mut self, handle: BufHandle)
        requires
            old(self).wf(),
        ensures
            final(self).wf(),
            if handle.slot < old(self).leased@.len() && old(self).leased@[handle.slot as int] {
                &&& final(self).leased@ == old(self).leased@.update(handle.slot as int, false)
                &&& final(self).leases_outstanding == old(self).leases_outstanding - 1
            } else {
                &&& final(self).leased@ == old(self).leased@
                &&& final(self).leases_outstanding == old(self).leases_outstanding
            },
            final(self).bufs == old(self).bufs,
            final(self).slot_size == old(self).slot_size,
            final(self).bounce == old(self).bounce,
    {
        let i: usize = handle.slot as usize;
        if i < self.leased.len() && self.leased[i] {
            proof {
                lemma_count_update(self.leased@, i as int, false);
                lemma_count_bounds(self.leased@);
            }
            self.leased.set(i, false);
            self.leases_outstanding = self.leases_outstanding - 1;
        }
    }

    /// How many slots are leased.
    pub fn outstanding_leases(&self) -> (r: u64)
        requires
            self.wf(),
        ensures
            r == count_leased(self.leased@),
    {
        self.leases_outstanding
    }

    /// How many slots there are.
    #[must_use]
    pub fn slot_count(&self) -> (r: usize)
        ensures
            r == self.bufs@.len(),
    {
        self.bufs.len()
    }

    /// The bytes of a leased range.
    #[must_use]
    pub fn slice(&self, handle: BufHandle) -> (r: &[u8])
        requires
            self.wf(),
            self.holds(handle),
        ensures
            r@ == self.bytes_of(handle),
    {
        let from: usize = handle.off as usize;
        let buf = &self.bufs[handle.slot as usize];
        vstd::slice::slice_subrange(buf.as_slice(), from, from + handle.len as usize)
    }

    /// Fills a leased range.
    pub fn fill(&mut self, handle: BufHandle, data: &[u8])
        requires
            old(self).wf(),
            old(self).holds(handle),
            data@.len() == handle.len,
        ensures
            final(self).wf(),
            final(self).bytes_of(handle) == data@,
            final(self).bufs@.len() == old(self).bufs@.len(),
            forall|i: int|
                0 <= i < old(self).bufs@.len() && i != handle.slot ==> (#[trigger] final(self).bufs@[i])
                    == old(self).bufs@[i],
            final(self).bufs@[handle.slot as int]@ == bytes::overwritten(
                old(self).bufs@[handle.slot as int]@,
                handle.off as int,
                data@,
            ),
            final(self).leased == old(self).leased,
            final(self).slot_size == old(self).slot_size,
            final(self).bounce == old(self).bounce,
            final(self).leases_outstanding == old(self).leases_outstanding,
    {
        let slot: usize = handle.slot as usize;
        let mut buf: Vec<u8> = Vec::new();
        std::mem::swap(&mut self.bufs[slot], &mut buf);
        bytes::overwrite(&mut buf, handle.off as usize, data, 0, data.len());
        assert(data@.subrange(0, data@.len() as int) =~= data@);
        self.bufs.set(slot, buf);
        assert(self.bytes_of(handle) =~= data@);
    }

    /// Leases a slot and copies bytes into it.
    #[must_use]
    pub fn copy_in(&mut self, data: &[u8]) -> (r: Option<BufHandle>)
        requires
            old(self).wf(),
            data@.len() <= u32::MAX,
        ensures
            final(self).wf(),
            ({
                let i = first_free(old(self).leased@);
                &&& 0 <= i
                &&& if data@.len() <= old(self).slot_size && i < old(self).leased@.len() {
                    &&& r == Some(BufHandle { slot: i as u32, off: 0, len: data@.len() as u32 })
                    &&& final(self).leased@ == old(self).leased@.update(i, true)
                    &&& final(self).leases_outstanding == old(self).leases_outstanding + 1
                    &&& final(self).bufs@.len() == old(self).bufs@.len()
                    &&& final(self).holds(r->0)
                    &&& final(self).bytes_of(r->0) == data@
                    &&& forall|j: int|
                        0 <= j < old(self).bufs@.len() && j != i ==> (#[trigger] final(self).bufs@[j])
                            == old(self).bufs@[j]
                    &&& final(self).bounce == (BounceStats {
                        copy_in: old(self).bounce.copy_in.wrapping_add(1),
                        ..old(self).bounce
                    })
                } else {
                    &&& r is None
                    &&& *final(self) == *old(self)
                }
            }),
            final(self).slot_size == old(self).slot_size,
    {
        proof {
            lemma_first_free(self.leased@);
        }
        match self.lease(data.len() as u32) {
            Some(handle) => {
                self.fill(handle, data);
                self.bounce.copy_in = self.bounce.copy_in.wrapping_add(1);
                Some(handle)
            },
            None => None,
        }
    }

    /// Copies bytes of a leased range out, as many as there is room for; how
    /// many. The lease stays.
    pub fn copy_out(&mut self, handle: BufHandle, out: &mut Vec<u8>) -> (n: usize)
        requires
            old(self).wf(),
            old(self).holds(handle),
        ensures
            n == (if old(out)@.len() < handle.len {
                old(out)@.len() as int
            } else {
                handle.len as int
            }),
            final(out)@ == bytes::overwritten(
                old(out)@,
                0,
                old(self).bytes_of(handle).take(n as int),
            ),
            *final(self) == (RegisteredBufArena {
                bounce: BounceStats {
                    copy_out: old(self).bounce.copy_out.wrapping_add(1),
                    ..old(self).bounce
                },
                ..*old(self)
            }),
    {
        let n: usize = if out.len() < handle.len as usize {
            out.len()
        } else {
            handle.len as usize
        };
        let data = self.slice(handle);
        bytes::overwrite(out, 0, data, 0, n);
        assert(data@.subrange(0, n as int) =~= data@.take(n as int));
        self.bounce.copy_out = self.bounce.copy_out.wrapping_add(1);
        n
    }
}

proof fn lemma_first_free(leased: Seq<bool>)
    ensures
        0 <= first_free(leased) <= leased.len(),
        first_free(leased) < leased.len() ==> !leased[first_free(leased)],
        first_free(leased) == leased.len() <==> (forall|i: int|
            0 <= i < leased.len() ==> #[trigger] leased[i]),
    decreases leased.len(),
{
    if leased.len() > 0 && leased[0] {
        let rest = leased.drop_first();
        lemma_first_free(rest);
        assert forall|i: int|
            first_free(rest) == rest.len() && 0 <= i < leased.len() implies #[trigger] leased[i] by {
            if i > 0 {
                assert(rest[i - 1] == leased[i]);
            }
        }
        if forall|i: int| 0 <= i < leased.len() ==> #[trigger] leased[i] {
            assert forall|i: int| 0 <= i < rest.len() implies #[trigger] rest[i] by {
                assert(rest[i] == leased[i + 1]);
            }
        }
        if first_free(rest) < rest.len() {
            assert(rest[first_free(rest)] == leased[first_free(rest) + 1]);
        }
    }
}

/// A slot that is leased is not leased again before it is released: as long as
/// it is leased, a lease gives another slot.
pub proof fn leases_are_exclusive(leased: Seq<bool>, slot: int)
    requires
        0 <= slot < leased.len(),
        leased[slot],
    ensures
        first_free(leased) != slot,
{
    lemma_first_free(leased);
}

/// There is a free slot exactly if fewer are leased than there are.
pub proof fn full_arena_is_backpressure(leased: Seq<bool>)
    ensures
        first_free(leased) < leased.len() <==> count_leased(leased) < leased.len(),
{
    lemma_first_free(leased);
    lemma_count_full(leased);
}

proof fn lemma_count_full(leased: Seq<bool>)
    ensures
        count_leased(leased) <= leased.len(),
        count_leased(leased) == leased.len() <==> (forall|i: int|
            0 <= i < leased.len() ==> #[trigger] leased[i]),
    decreases leased.len(),
{
    if leased.len() > 0 {
        let init = leased.drop_last();
        lemma_count_full(init);
        if forall|i: int| 0 <= i < init.len() ==> #[trigger] init[i] {
            assert forall|i: int| 0 <= i < leased.len() - 1 implies #[trigger] leased[i] by {
                assert(init[i] == leased[i]);
            }
        }
        if forall|i: int| 0 <= i < leased.len() ==> #[trigger] leased[i] {
            assert forall|i: int| 0 <= i < init.len() implies #[trigger] init[i] by {
                assert(init[i] == leased[i]);
            }
            assert(leased[leased.len() - 1]);
        }
    }
}

/// After a lease and its release the same slots are free as before.
pub proof fn release_undoes_lease(leased: Seq<bool>)
    requires
        first_free(leased) < leased.len(),
    ensures
        leased.update(first_free(leased), true).update(first_free(leased), false) == leased,
{
    lemma_first_free(leased);
    assert(leased.update(first_free(leased), true).update(first_free(leased), false) =~= leased);
}

/// Slots are whole pages, no more of them than what was asked for takes, and at
/// least one.
pub proof fn slots_are_whole_pages(slot_size: usize, page: usize)
    requires
        page > 0,
    ensures
        rounded_size(slot_size, page) % page as int == 0,
        slot_size <= rounded_size(slot_size, page),
        page <= rounded_size(slot_size, page),
        slot_size >= page ==> rounded_size(slot_size, page) < slot_size + page,
        slot_size <= page ==> rounded_size(slot_size, page) == page,
{
    let wanted = if slot_size > page {
        slot_size as int
    } else {
        page as int
    };
    let p = page as int;
    let q = (wanted + p - 1) / p;
    vstd::arithmetic::div_mod::lemma_fundamental_div_mod(wanted + p - 1, p);
    vstd::arithmetic::div_mod::lemma_mod_bound(wanted + p - 1, p);
    vstd::arithmetic::mul::lemma_mul_is_commutative(q, p);
    vstd::arithmetic::div_mod::lemma_mod_multiples_basic(q, p);
    assert(wanted <= q * p < wanted + p);
    if slot_size <= page {
        assert(q == 1) by (nonlinear_arith)
            requires
                p <= q * p < 2 * p,
                p > 0,
        ;
    }
}

/// A lease takes the first slot that is free.
pub proof fn lease_takes_the_first_free_slot(leased: Seq<bool>, i: int)
    requires
        0 <= i < leased.len(),
        !leased[i],
        forall|j: int| 0 <= j < i ==> #[trigger] leased[j],
    ensures
        first_free(leased) == i,
    decreases leased.len(),
{
    if i > 0 {
        let t = leased.drop_first();
        assert(leased[0]);
        assert forall|j: int| 0 <= j < i - 1 implies #[trigger] t[j] by {
            assert(leased[j + 1]);
        }
        lease_takes_the_first_free_slot(t, i - 1);
    }
}

} // verus!
