//! Shards: each serves the files that are routed to it, with free space of its
//! own.

use crate::io_engine::mpmc;
use crate::io_engine::mpmc::MpmcQueue;
use crate::media::MediaClass;
use vstd::prelude::*;

verus! {

/// The most shards that there are.
pub const NUM_SHARDS_MAX: usize = 128;

/// The mixed number.
pub open spec fn mixed(x: u64) -> u64 {
    let z0 = x.wrapping_add(0x9E37_79B9_7F4A_7C15);
    let z1 = (z0 ^ (z0 >> 30)).wrapping_mul(0xBF58_476D_1CE4_E5B9);
    let z2 = (z1 ^ (z1 >> 27)).wrapping_mul(0x94D0_49BB_1331_11EB);
    z2 ^ (z2 >> 31)
}

/// Mixes the bits of a number.
#[must_use]
pub fn splitmix64(x: u64) -> (r: u64)
    ensures
        r == mixed(x),
{
    let z0: u64 = x.wrapping_add(0x9E37_79B9_7F4A_7C15);
    let z1: u64 = (z0 ^ (z0 >> 30)).wrapping_mul(0xBF58_476D_1CE4_E5B9);
    let z2: u64 = (z1 ^ (z1 >> 27)).wrapping_mul(0x94D0_49BB_1331_11EB);
    z2 ^ (z2 >> 31)
}

/// A factor that has an inverse modulo two to the power of 64 can be cancelled.
proof fn lemma_factor_cancels(a: u64, b: u64, c: u64, inverse: u64, q: int)
    requires
        c * inverse == q * 0x1_0000_0000_0000_0000 + 1,
        a.wrapping_mul(c) == b.wrapping_mul(c),
    ensures
        a == b,
{
    let m: int = 0x1_0000_0000_0000_0000;
    assert forall|x: u64| #[trigger] ((x.wrapping_mul(c) as int) * inverse) % m == x by {
        let p = x * c;
        let low = x.wrapping_mul(c) as int;
        assert(low == p % m);
        vstd::arithmetic::div_mod::lemma_mul_mod_noop_left(p, inverse as int, m);
        assert(p * inverse == x + m * (x * q)) by (nonlinear_arith)
            requires
                p == x * c,
                c * inverse == q * m + 1,
        ;
        vstd::arithmetic::div_mod::lemma_mod_multiples_vanish(x * q, x as int, m);
        vstd::arithmetic::div_mod::lemma_small_mod(x as nat, m as nat);
    }
    assert(((a.wrapping_mul(c) as int) * inverse) % m == a);
    assert(((b.wrapping_mul(c) as int) * inverse) % m == b);
}

/// Different numbers are mixed into different numbers.
pub proof fn mixing_is_injective(x: u64, y: u64)
    requires
        mixed(x) == mixed(y),
    ensures
        x == y,
{
    let x0 = x.wrapping_add(0x9E37_79B9_7F4A_7C15);
    let y0 = y.wrapping_add(0x9E37_79B9_7F4A_7C15);
    let x1 = (x0 ^ (x0 >> 30)).wrapping_mul(0xBF58_476D_1CE4_E5B9);
    let y1 = (y0 ^ (y0 >> 30)).wrapping_mul(0xBF58_476D_1CE4_E5B9);
    let x2 = (x1 ^ (x1 >> 27)).wrapping_mul(0x94D0_49BB_1331_11EB);
    let y2 = (y1 ^ (y1 >> 27)).wrapping_mul(0x94D0_49BB_1331_11EB);
    assert(x2 ^ (x2 >> 31) == y2 ^ (y2 >> 31) ==> x2 == y2) by (bit_vector);
    lemma_factor_cancels(
        x1 ^ (x1 >> 27),
        y1 ^ (y1 >> 27),
        0x94D0_49BB_1331_11EB,
        0x319642b2d24d8ec3,
        0x1cd336eda85f1453,
    );
    assert(x1 ^ (x1 >> 27) == y1 ^ (y1 >> 27) ==> x1 == y1) by (bit_vector);
    lemma_factor_cancels(
        x0 ^ (x0 >> 30),
        y0 ^ (y0 >> 30),
        0xBF58_476D_1CE4_E5B9,
        0x96de1b173f119089,
        0x70c3bca78f27f46c,
    );
    assert(x0 ^ (x0 >> 30) == y0 ^ (y0 >> 30) ==> x0 == y0) by (bit_vector);
}

/// What is mixed of a descriptor and an inode number of 32 bits tells them
/// apart: two pairs that are mixed into the same number are the same.
pub proof fn routing_tells_pairs_apart(fd: u32, ino: u64, other_fd: u32, other_ino: u64)
    requires
        ino <= u32::MAX,
        other_ino <= u32::MAX,
        mixed((fd as u64) ^ (ino << 32)) == mixed((other_fd as u64) ^ (other_ino << 32)),
    ensures
        fd == other_fd,
        ino == other_ino,
{
    mixing_is_injective((fd as u64) ^ (ino << 32), (other_fd as u64) ^ (other_ino << 32));
    assert(fd == other_fd && ino == other_ino) by (bit_vector)
        requires
            ino <= 0xffff_ffff,
            other_ino <= 0xffff_ffff,
            (fd as u64) ^ (ino << 32u64) == (other_fd as u64) ^ (other_ino << 32u64),
    ;
}

/// The shard that a file is routed to, of a power of two of them.
pub open spec fn route(fd: u32, ino: u64, num_shards: usize) -> usize {
    (mixed((fd as u64) ^ (ino << 32)) as usize) & ((num_shards - 1) as usize)
}

/// The shard that a file is routed to.
#[must_use]
pub fn shard_of(fd: u32, ino: u64, num_shards: usize) -> (r: usize)
    requires
        mpmc::is_pow2(num_shards as int),
    ensures
        r == route(fd, ino, num_shards),
        r < num_shards,
{
    let h: usize = splitmix64((fd as u64) ^ (ino << 32)) as usize;
    let mask: usize = num_shards - 1;
    assert((h & mask) <= mask) by (bit_vector);
    h & mask
}

/// Free blocks in a row.
#[derive(Debug, Clone, Copy, PartialEq, Eq, Structural)]
pub struct FreeSpaceRun {
    pub start: u64,
    pub blocks: u64,
    /// What they are on.
    pub media: MediaClass,
}

/// One shard.
#[derive(Debug)]
pub struct Shard {
    pub id: usize,
    /// The free space.
    pub free_q: MpmcQueue<FreeSpaceRun>,
    /// How many blocks are free, modulo two to the power of 64.
    pub free_blocks_local: u64,
    /// The bytes that wait to be committed.
    pub tx_dirty_bytes: u64,
    /// The transactions that wait to be committed.
    pub tx_ready: MpmcQueue<u64>,
}

/// The first run that is long enough; the number of runs if none is.
pub open spec fn first_fit(runs: Seq<FreeSpaceRun>, blocks: u64) -> int
    decreases runs.len(),
{
    if runs.len() == 0 {
        0
    } else if runs[0].blocks >= blocks {
        0
    } else {
        1 + first_fit(runs.drop_first(), blocks)
    }
}

/// The sequence with its first `n` items moved behind the others, one by one.
pub open spec fn rotated(runs: Seq<FreeSpaceRun>, n: int) -> Seq<FreeSpaceRun>
    decreases n,
{
    if n <= 0 || runs.len() == 0 {
        runs
    } else {
        rotated(runs.drop_first().push(runs[0]), n - 1)
    }
}

/// What stays of a run when blocks are taken from its start.
pub open spec fn leftover(run: FreeSpaceRun, blocks: u64) -> Seq<FreeSpaceRun> {
    if run.blocks > blocks {
        seq![
            FreeSpaceRun {
                start: (run.start + blocks) as u64,
                blocks: (run.blocks - blocks) as u64,
                media: run.media,
            },
        ]
    } else {
        Seq::empty()
    }
}

/// The free space once blocks are taken from the run at `i`.
pub open spec fn taken(runs: Seq<FreeSpaceRun>, i: int, blocks: u64) -> Seq<FreeSpaceRun> {
    runs.skip(i + 1) + runs.take(i) + leftover(runs[i], blocks)
}

/// The blocks of runs.
pub open spec fn total_blocks(runs: Seq<FreeSpaceRun>) -> int
    decreases runs.len(),
{
    if runs.len() == 0 {
        0
    } else {
        total_blocks(runs.drop_last()) + runs.last().blocks
    }
}

proof fn lemma_first_fit(runs: Seq<FreeSpaceRun>, blocks: u64)
    ensures
        0 <= first_fit(runs, blocks) <= runs.len(),
        forall|j: int|
            0 <= j < first_fit(runs, blocks) ==> (#[trigger] runs[j]).blocks < blocks,
        first_fit(runs, blocks) < runs.len() ==> runs[first_fit(runs, blocks)].blocks >= blocks,
    decreases runs.len(),
{
    if runs.len() > 0 && runs[0].blocks < blocks {
        let rest = runs.drop_first();
        lemma_first_fit(rest, blocks);
        let f = first_fit(rest, blocks);
        assert forall|j: int| 0 <= j < first_fit(runs, blocks) implies (
        #[trigger] runs[j]).blocks < blocks by {
            if j > 0 {
                assert(runs[j] == rest[j - 1]);
            }
        }
        if f < rest.len() {
            assert(rest[f] == runs[f + 1]);
        }
    }
}

proof fn lemma_rotated_whole(runs: Seq<FreeSpaceRun>, n: int)
    requires
        0 <= n <= runs.len(),
    ensures
        rotated(runs, n) == runs.skip(n) + runs.take(n),
    decreases n,
{
    if n == 0 {
        assert(runs.skip(0) + runs.take(0) =~= runs);
    } else {
        let next = runs.drop_first().push(runs[0]);
        lemma_rotated_whole(next, n - 1);
        assert(next.skip(n - 1) + next.take(n - 1) =~= runs.skip(n) + runs.take(n));
    }
}

proof fn lemma_rotated_more(runs: Seq<FreeSpaceRun>, n: int)
    requires
        0 <= n,
        runs.len() > 0,
    ensures
        rotated(runs, n + 1) == rotated(runs, n).drop_first().push(rotated(runs, n)[0]),
        rotated(runs, n).len() == runs.len(),
    decreases n,
{
    let next = runs.drop_first().push(runs[0]);
    if n == 0 {
        assert(rotated(next, 0) == next);
    } else {
        lemma_rotated_more(next, n - 1);
    }
}

proof fn lemma_rotated_small(runs: Seq<FreeSpaceRun>, n: int, blocks: u64)
    requires
        forall|j: int| 0 <= j < runs.len() ==> (#[trigger] runs[j]).blocks < blocks,
    ensures
        forall|j: int|
            0 <= j < rotated(runs, n).len() ==> (#[trigger] rotated(runs, n)[j]).blocks < blocks,
    decreases n,
{
    if n > 0 && runs.len() > 0 {
        let next = runs.drop_first().push(runs[0]);
        assert forall|j: int| 0 <= j < next.len() implies (#[trigger] next[j]).blocks < blocks by {
            if j + 1 < runs.len() {
                assert(next[j] == runs[j + 1]);
            }
        }
        lemma_rotated_small(next, n - 1, blocks);
    }
}

impl Shard {
    /// The queues are sound.
    pub open spec fn wf(&self) -> bool {
        &&& self.free_q.wf()
        &&& self.tx_ready.wf()
    }

    fn new(id: usize) -> (r: Self)
        ensures
            r.wf(),
            r.id == id,
            r.free_q@ == Seq::<FreeSpaceRun>::empty(),
            r.free_q.bound() >= 1024,
            r.free_blocks_local == 0,
            r.tx_dirty_bytes == 0,
            r.tx_ready@ == Seq::<u64>::empty(),
    {
        Shard {
            id,
            free_q: MpmcQueue::with_capacity_hint(1024),
            free_blocks_local: 0,
            tx_dirty_bytes: 0,
            tx_ready: MpmcQueue::with_capacity_hint(1024),
        }
    }

    /// Takes blocks in a row from the first run that is long enough; the rest
    /// of it goes to the end, behind the runs that were too short.
    pub fn allocate(&mut self, blocks: u64) -> (r: Option<FreeSpaceRun>)
        requires
            old(self).wf(),
            ({
                let runs = old(self).free_q@;
                let i = first_fit(runs, blocks);
                i < runs.len() && runs[i].blocks > blocks ==> runs[i].start + blocks <= u64::MAX
            }),
        ensures
            final(self).wf(),
            ({
                let runs = old(self).free_q@;
                let i = first_fit(runs, blocks);
                if i < runs.len() {
                    &&& r == Some(
                        FreeSpaceRun { start: runs[i].start, blocks, media: runs[i].media },
                    )
                    &&& final(self).free_q@ == taken(runs, i, blocks)
                    &&& final(self).free_blocks_local
                        == old(self).free_blocks_local.wrapping_sub(blocks)
                } else {
                    &&& r is None
                    &&& final(self).free_q@ == rotated(runs, old(self).free_q.bound())
                    &&& final(self).free_blocks_local == old(self).free_blocks_local
                }
            }),
            *final(self) == (Shard {
                free_q: final(self).free_q,
                free_blocks_local: final(self).free_blocks_local,
                ..*old(self)
            }),
            final(self).free_q.bound() == old(self).free_q.bound(),
    {
        let ghost runs = self.free_q@;
        let ghost fit = first_fit(runs, blocks);
        let capacity = self.free_q.capacity();
        let mut tried: usize = 0;
        proof {
            lemma_first_fit(runs, blocks);
        }
        while tried < capacity
            invariant
                self.wf(),
                capacity == self.free_q.bound(),
                capacity == old(self).free_q.bound(),
                tried <= capacity,
                runs == old(self).free_q@,
                fit == first_fit(runs, blocks),
                0 <= fit <= runs.len() <= capacity,
                forall|j: int| 0 <= j < fit ==> (#[trigger] runs[j]).blocks < blocks,
                fit < runs.len() ==> runs[fit].blocks >= blocks,
                fit < runs.len() ==> tried <= fit,
                fit < runs.len() && runs[fit].blocks > blocks ==> runs[fit].start + blocks
                    <= u64::MAX,
                self.free_q@ == rotated(runs, tried as int),
                *self == (Shard { free_q: self.free_q, ..*old(self) }),
            decreases capacity - tried,
        {
            proof {
                if runs.len() > 0 {
                    lemma_rotated_more(runs, tried as int);
                }
                if fit < runs.len() {
                    lemma_rotated_whole(runs, tried as int);
                    assert(self.free_q@[0] == runs[tried as int]);
                } else {
                    lemma_rotated_small(runs, tried as int, blocks);
                    lemma_rotated_empty(runs, capacity as int);
                    lemma_rotated_empty(runs, tried as int);
                }
            }
            match self.free_q.pop() {
                Some(run) => {
                    if run.blocks >= blocks {
                        assert(tried == fit);
                        self.free_blocks_local = self.free_blocks_local.wrapping_sub(blocks);
                        if run.blocks > blocks {
                            let _ = self.free_q.push(
                                FreeSpaceRun {
                                    start: run.start + blocks,
                                    blocks: run.blocks - blocks,
                                    media: run.media,
                                },
                            );
                        }
                        assert(self.free_q@ =~= taken(runs, fit, blocks));
                        return Some(FreeSpaceRun { start: run.start, blocks, media: run.media });
                    }
                    let _ = self.free_q.push(run);
                },
                None => {
                    return None;
                },
            }
            tried = tried + 1;
        }
        None
    }

    /// Gives a run back; whether there was a place for it.
    pub fn release(&mut self, run: FreeSpaceRun) -> (ok: bool)
        requires
            old(self).wf(),
        ensures
            final(self).wf(),
            ok == (old(self).free_q@.len() < old(self).free_q.bound()),
            final(self).free_q@ == (if ok {
                old(self).free_q@.push(run)
            } else {
                old(self).free_q@
            }),
            final(self).free_q.bound() == old(self).free_q.bound(),
            *final(self) == (Shard {
                free_q: final(self).free_q,
                free_blocks_local: old(self).free_blocks_local.wrapping_add(run.blocks),
                ..*old(self)
            }),
    {
        self.free_blocks_local = self.free_blocks_local.wrapping_add(run.blocks);
        self.free_q.push(run)
    }

    /// How many blocks are free.
    pub fn local_free_blocks(&self) -> (r: u64)
        ensures
            r == self.free_blocks_local,
    {
        self.free_blocks_local
    }

    /// Adds to the bytes that wait to be committed.
    pub fn stage_dirty(&mut self, bytes: u64)
        ensures
            *final(self) == (Shard {
                tx_dirty_bytes: old(self).tx_dirty_bytes.wrapping_add(bytes),
                ..*old(self)
            }),
    {
        self.tx_dirty_bytes = self.tx_dirty_bytes.wrapping_add(bytes);
    }

    /// Takes the bytes that wait to be committed.
    pub fn drain_dirty(&mut self) -> (r: u64)
        ensures
            r == old(self).tx_dirty_bytes,
            *final(self) == (Shard { tx_dirty_bytes: 0, ..*old(self) }),
    {
        let bytes = self.tx_dirty_bytes;
        self.tx_dirty_bytes = 0;
        bytes
    }
}

proof fn lemma_rotated_empty(runs: Seq<FreeSpaceRun>, n: int)
    ensures
        runs.len() == 0 ==> rotated(runs, n) == runs,
        rotated(runs, n).len() == runs.len(),
    decreases n,
{
    if n > 0 && runs.len() > 0 {
        lemma_rotated_empty(runs.drop_first().push(runs[0]), n - 1);
    }
}

proof fn lemma_total_push(runs: Seq<FreeSpaceRun>, run: FreeSpaceRun)
    ensures
        total_blocks(runs.push(run)) == total_blocks(runs) + run.blocks,
{
    assert(runs.push(run).drop_last() =~= runs);
}

proof fn lemma_total_concat(a: Seq<FreeSpaceRun>, b: Seq<FreeSpaceRun>)
    ensures
        total_blocks(a + b) == total_blocks(a) + total_blocks(b),
    decreases b.len(),
{
    if b.len() == 0 {
        assert(a + b =~= a);
    } else {
        lemma_total_concat(a, b.drop_last());
        assert((a + b).drop_last() =~= a + b.drop_last());
        assert((a + b).last() == b.last());
    }
}

/// Allocation neither makes nor loses blocks.
pub proof fn allocation_conserves_blocks(runs: Seq<FreeSpaceRun>, blocks: u64)
    requires
        first_fit(runs, blocks) < runs.len(),
    ensures
        total_blocks(taken(runs, first_fit(runs, blocks), blocks)) + blocks == total_blocks(runs),
{
    let i = first_fit(runs, blocks);
    lemma_first_fit(runs, blocks);
    let a = runs.take(i);
    let b = runs.skip(i + 1);
    let mid = seq![runs[i]];
    assert(runs =~= a + mid + b);
    assert(mid.drop_last() =~= Seq::empty());
    assert(total_blocks(mid) == runs[i].blocks) by {
        assert(total_blocks(mid.drop_last()) == 0);
    }
    lemma_total_concat(a + mid, b);
    lemma_total_concat(a, mid);
    let l = leftover(runs[i], blocks);
    assert(total_blocks(l) == runs[i].blocks - blocks) by {
        if l.len() > 0 {
            assert(l.drop_last() =~= Seq::empty());
            assert(total_blocks(l.drop_last()) == 0);
        }
    }
    lemma_total_concat(b + a, l);
    lemma_total_concat(b, a);
}

/// An allocation that fails loses no blocks.
pub proof fn failed_allocation_keeps_blocks(runs: Seq<FreeSpaceRun>, n: int)
    ensures
        total_blocks(rotated(runs, n)) == total_blocks(runs),
    decreases n,
{
    if n > 0 && runs.len() > 0 {
        let rest = runs.drop_first();
        failed_allocation_keeps_blocks(rest.push(runs[0]), n - 1);
        lemma_total_push(rest, runs[0]);
        let first = seq![runs[0]];
        assert(runs =~= first + rest);
        lemma_total_concat(first, rest);
        assert(first.drop_last() =~= Seq::empty());
        assert(total_blocks(first.drop_last()) == 0);
    }
}

/// All shards.
#[derive(Debug)]
pub struct ShardTable {
    pub shards: Vec<Shard>,
}

/// The free blocks of shards.
pub open spec fn free_sum(shards: Seq<Shard>) -> int
    decreases shards.len(),
{
    if shards.len() == 0 {
        0
    } else {
        free_sum(shards.drop_last()) + shards.last().free_blocks_local
    }
}

impl ShardTable {
    /// There is a power of two of shards, each sound.
    pub open spec fn wf(&self) -> bool {
        &&& mpmc::is_pow2(self.shards@.len() as int)
        &&& self.shards@.len() <= NUM_SHARDS_MAX
        &&& forall|i: int| 0 <= i < self.shards@.len() ==> (#[trigger] self.shards@[i]).wf()
    }

    /// A table for so many processors.
    #[must_use]
    pub fn for_cpus(cpu_hint: usize) -> (r: Self)
        ensures
            r.wf(),
            ({
                let wanted = if cpu_hint == 0 {
                    1
                } else {
                    cpu_hint as int
                };
                let n = r.shards@.len() as int;
                if wanted <= NUM_SHARDS_MAX {
                    mpmc::is_next_pow2(wanted, n)
                } else {
                    n == NUM_SHARDS_MAX
                }
            }),
            forall|i: int|
                0 <= i < r.shards@.len() ==> {
                    &&& (#[trigger] r.shards@[i]).id == i
                    &&& r.shards@[i].free_q@.len() == 0
                    &&& r.shards@[i].free_q.bound() >= 1024
                    &&& r.shards@[i].free_blocks_local == 0
                    &&& r.shards@[i].tx_dirty_bytes == 0
                    &&& r.shards@[i].tx_ready@.len() == 0
                },
    {
        let wanted: usize = if cpu_hint == 0 {
            1
        } else if cpu_hint > NUM_SHARDS_MAX {
            NUM_SHARDS_MAX
        } else {
            cpu_hint
        };
        let n: usize = mpmc::next_pow2(wanted);
        proof {
            lemma_small_pow2(n as int, wanted as int);
        }
        let mut shards: Vec<Shard> = Vec::new();
        let mut i: usize = 0;
        while i < n
            invariant
                i <= n,
                shards@.len() == i,
                forall|j: int|
                    0 <= j < i ==> {
                        &&& (#[trigger] shards@[j]).wf()
                        &&& shards@[j].id == j
                        &&& shards@[j].free_q@.len() == 0
                        &&& shards@[j].free_q.bound() >= 1024
                        &&& shards@[j].free_blocks_local == 0
                        &&& shards@[j].tx_dirty_bytes == 0
                        &&& shards@[j].tx_ready@.len() == 0
                    },
            decreases n - i,
        {
            shards.push(Shard::new(i));
            i = i + 1;
        }
        ShardTable { shards }
    }

    /// How many shards there are.
    pub fn len(&self) -> (r: usize)
        ensures
            r == self.shards@.len(),
    {
        self.shards.len()
    }

    /// Whether there are no shards.
    #[must_use]
    pub fn is_empty(&self) -> (r: bool)
        ensures
            r == (self.shards@.len() == 0),
    {
        self.shards.len() == 0
    }

    /// The shard that a file is routed to.
    #[must_use]
    pub fn shard_of(&self, fd: u32, ino: u64) -> (r: usize)
        requires
            self.wf(),
        ensures
            r == route(fd, ino, self.shards@.len() as usize),
            r < self.shards@.len(),
    {
        shard_of(fd, ino, self.shards.len())
    }

    /// A shard.
    #[must_use]
    pub fn get(&self, id: usize) -> (r: &Shard)
        requires
            id < self.shards@.len(),
        ensures
            *r == self.shards@[id as int],
    {
        &self.shards[id]
    }

    /// A shard, to be changed.
    #[must_use]
    pub fn get_mut(&mut self, id: usize) -> (r: &mut Shard)
        requires
            id < old(self).shards@.len(),
        ensures
            *r == old(self).shards@[id as int],
            final(self).shards@ == old(self).shards@.update(id as int, *final(r)),
    {
        &mut self.shards[id]
    }

    /// The shards.
    pub fn shards(&self) -> (r: &[Shard])
        ensures
            r@ == self.shards@,
    {
        self.shards.as_slice()
    }

    /// The free blocks of all shards.
    pub fn total_local_free(&self) -> (r: u64)
        requires
            free_sum(self.shards@) <= u64::MAX,
        ensures
            r == free_sum(self.shards@),
    {
        let mut sum: u64 = 0;
        let mut i: usize = 0;
        while i < self.shards.len()
            invariant
                i <= self.shards@.len(),
                sum == free_sum(self.shards@.take(i as int)),
                free_sum(self.shards@) <= u64::MAX,
            decreases self.shards@.len() - i,
        {
            proof {
                lemma_free_prefix(self.shards@, i + 1);
                assert(self.shards@.take(i + 1).drop_last() =~= self.shards@.take(i as int));
            }
            sum = sum + self.shards[i].local_free_blocks();
            i = i + 1;
        }
        assert(self.shards@.take(self.shards@.len() as int) =~= self.shards@);
        sum
    }
}

proof fn lemma_free_prefix(shards: Seq<Shard>, i: int)
    requires
        0 <= i <= shards.len(),
    ensures
        free_sum(shards.take(i)) <= free_sum(shards),
    decreases shards.len() - i,
{
    if i == shards.len() {
        assert(shards.take(i) =~= shards);
    } else {
        lemma_free_prefix(shards, i + 1);
        assert(shards.take(i + 1).drop_last() =~= shards.take(i));
    }
}

proof fn lemma_small_pow2(n: int, wanted: int)
    requires
        1 <= wanted <= 128,
        mpmc::is_next_pow2(wanted, n),
    ensures
        n <= 128,
        wanted == 128 ==> n == 128,
{
    reveal_with_fuel(mpmc::is_pow2, 9);
    assert(n < 256);
    if n > 128 {
        assert(n / 2 < 128);
        assert(mpmc::is_pow2(n));
    }
}

/// An allocation takes from the first run that is large enough, from its
/// start. What is left of that run, if anything, follows what was taken, and
/// every other run stays as it was.
pub proof fn allocation_takes_the_first_that_fits(runs: Seq<FreeSpaceRun>, blocks: u64, i: int)
    requires
        0 <= i < runs.len(),
        runs[i].blocks >= blocks,
        forall|j: int| 0 <= j < i ==> (#[trigger] runs[j]).blocks < blocks,
        runs[i].start + runs[i].blocks <= u64::MAX,
    ensures
        first_fit(runs, blocks) == i,
        ({
            let after = taken(runs, i, blocks);
            &&& runs[i].blocks == blocks ==> after.len() == runs.len() - 1
            &&& runs[i].blocks > blocks ==> after.len() == runs.len() && after.last() == (
            FreeSpaceRun {
                start: (runs[i].start + blocks) as u64,
                blocks: (runs[i].blocks - blocks) as u64,
                media: runs[i].media,
            })
            &&& forall|j: int|
                0 <= j < runs.len() && j != i ==> after.contains(#[trigger] runs[j])
        }),
{
    lemma_first_fit(runs, blocks);
    let f = first_fit(runs, blocks);
    if f < i {
        assert(runs[f].blocks >= blocks);
    } else if f > i {
        assert(runs[i].blocks < blocks);
    }
    let after = taken(runs, i, blocks);
    assert forall|j: int| 0 <= j < runs.len() && j != i implies after.contains(
        #[trigger] runs[j],
    ) by {
        if j > i {
            assert(after[j - i - 1] == runs[j]);
        } else {
            assert(after[runs.len() - i - 1 + j] == runs[j]);
        }
    }
}

/// Where no run is large enough, nothing is taken.
pub proof fn nothing_fits(runs: Seq<FreeSpaceRun>, blocks: u64)
    requires
        forall|j: int| 0 <= j < runs.len() ==> (#[trigger] runs[j]).blocks < blocks,
    ensures
        first_fit(runs, blocks) == runs.len(),
{
    lemma_first_fit(runs, blocks);
}

/// A file is routed by the low bits of its mixed key, as many as tell the
/// shards apart.
pub proof fn route_takes_the_low_bits(fd: u32, ino: u64, num_shards: usize, bit: usize)
    requires
        num_shards >= 1,
        bit < 32,
    ensures
        ({
            let key = mixed((fd as u64) ^ (ino << 32)) as usize;
            let mask = (num_shards - 1) as usize;
            let r = route(fd, ino, num_shards);
            &&& (mask >> bit) & 1 == 1 ==> (r >> bit) & 1 == (key >> bit) & 1
            &&& (mask >> bit) & 1 == 0 ==> (r >> bit) & 1 == 0
            &&& r < num_shards
        }),
{
    let key = mixed((fd as u64) ^ (ino << 32)) as usize;
    let mask = (num_shards - 1) as usize;
    assert((mask >> bit) & 1 == 1 ==> ((key & mask) >> bit) & 1 == (key >> bit) & 1)
        by (bit_vector)
        requires
            bit < 32,
    ;
    assert((mask >> bit) & 1 == 0 ==> ((key & mask) >> bit) & 1 == 0) by (bit_vector)
        requires
            bit < 32,
    ;
    assert(key & mask <= mask) by (bit_vector);
}

/// The free blocks of all shards are those of each, added up.
pub proof fn free_blocks_add_up(shards: Seq<Shard>, more: Shard)
    ensures
        free_sum(Seq::empty()) == 0,
        free_sum(shards.push(more)) == free_sum(shards) + more.free_blocks_local,
{
    assert(shards.push(more).drop_last() =~= shards);
}

} // verus!
