//! Choosing the best superblock among the copies of an image.

use crate::bytes;
use crate::integrity::algorithms;
use crate::ondisk::serialization;
use crate::ondisk::serialization::{Superblock, BLOCK_SIZE, LIONFS_MAGIC};
use vstd::prelude::*;

verus! {

/// The blocks that a copy of the superblock may stand at.
pub const CANDIDATE_LOCATIONS: [u64; 3] = [0, 8192, 16384];

/// Where the checksum field stands in a block.
pub const CHECKSUM_OFFSET: usize = 88;

/// The block with its checksum field zero.
pub open spec fn unsealed(buf: Seq<u8>) -> Seq<u8> {
    bytes::overwritten(buf, CHECKSUM_OFFSET as int, Seq::new(4, |i: int| 0u8))
}

/// The block holds a superblock: its magic number is right, and its checksum
/// is that of the block with the checksum field zero.
pub open spec fn is_valid(buf: Seq<u8>, sb: Superblock) -> bool {
    sb.magic == LIONFS_MAGIC && algorithms::crc32_of(unsealed(buf)) == sb.checksum
}

/// The superblock that `csum`, the checksum of the block with the checksum
/// field zero, makes valid.
pub fn accept_superblock(sb: Superblock, csum: u32) -> (r: Option<Superblock>)
    ensures
        r == (if sb.magic == LIONFS_MAGIC && csum == sb.checksum {
            Some(sb)
        } else {
            None
        }),
{
    if sb.magic != LIONFS_MAGIC {
        return None;
    }
    if csum == sb.checksum {
        Some(sb)
    } else {
        None
    }
}

/// The superblock that a block holds, if it is valid.
pub fn is_valid_superblock_block(buffer: &Vec<u8>) -> (r: Option<Superblock>)
    requires
        buffer@.len() == BLOCK_SIZE,
    ensures
        exists|sb: Superblock| #[trigger]
            serialization::fields_of(sb, buffer@) && r == (if is_valid(buffer@, sb) {
                Some(sb)
            } else {
                None
            }),
        r matches Some(sb) ==> serialization::fields_of(sb, buffer@) && is_valid(buffer@, sb),
{
    let sb = Superblock::from_block(buffer.as_slice());
    let mut copy = bytes::copy_range(buffer.as_slice(), 0, buffer.len());
    let zeros = bytes::zeros(4);
    bytes::overwrite(&mut copy, CHECKSUM_OFFSET, zeros.as_slice(), 0, 4);
    proof {
        assert(buffer@.subrange(0, buffer@.len() as int) =~= buffer@);
        assert(zeros@.subrange(0, 4) =~= Seq::new(4, |i: int| 0u8));
    }
    let csum = algorithms::crc32(copy.as_slice());
    assert(serialization::fields_of(sb, buffer@));
    accept_superblock(sb, csum)
}

/// A candidate block holds the superblock.
pub open spec fn offers(candidate: Option<Vec<u8>>, sb: Superblock) -> bool {
    candidate matches Some(buf) && serialization::fields_of(sb, buf@) && is_valid(buf@, sb)
}

/// The newest superblock among the candidates, one for each location, `None`
/// for a location that could not be read. Of equally new ones the last.
pub fn pick_best(candidates: &[Option<Vec<u8>>]) -> (r: Option<Superblock>)
    requires
        forall|i: int|
            0 <= i < candidates@.len() ==> ((#[trigger] candidates@[i]) matches Some(buf)
                ==> buf@.len() == BLOCK_SIZE),
    ensures
        match r {
            Some(best) => exists|i: int| #[trigger]
                is_best(candidates@, i, best),
            None => forall|i: int, sb: Superblock|
                0 <= i < candidates@.len() ==> !(#[trigger] offers(candidates@[i], sb)),
        },
{
    let mut best: Option<Superblock> = None;
    let ghost mut at: int = -1;
    let mut i: usize = 0;
    while i < candidates.len()
        invariant
            forall|j: int|
                0 <= j < candidates@.len() ==> ((#[trigger] candidates@[j]) matches Some(buf)
                    ==> buf@.len() == BLOCK_SIZE),
            i <= candidates@.len(),
            match best {
                Some(b) => at < i && is_best(candidates@.take(i as int), at, b),
                None => forall|j: int, sb: Superblock|
                    0 <= j < i ==> !(#[trigger] offers(candidates@[j], sb)),
            },
        decreases candidates@.len() - i,
    {
        let ghost before = best;
        if let Some(buf) = &candidates[i] {
            let found = is_valid_superblock_block(buf);
            if let Some(sb) = found {
                let newer = match best {
                    Some(b) => sb.generation >= b.generation,
                    None => true,
                };
                if newer {
                    best = Some(sb);
                    proof {
                        at = i as int;
                    }
                }
            }
            proof {
                assert forall|sb: Superblock| #[trigger] offers(candidates@[i as int], sb) implies {
                    &&& found is Some
                    &&& found->0.generation == sb.generation
                } by {
                    let w = choose|w: Superblock| #[trigger]
                        serialization::fields_of(w, buf@) && found == (if is_valid(buf@, w) {
                            Some(w)
                        } else {
                            None
                        });
                }
            }
        }
        i = i + 1;
        proof {
            let now = candidates@.take(i as int);
            if let Some(b) = best {
                assert(now[at] == candidates@[at]);
                assert(offers(now[at], b)) by {
                    if before is Some && before->0 == b && at < i - 1 {
                        assert(candidates@.take(i - 1)[at] == candidates@[at]);
                    }
                }
                assert forall|j: int, sb: Superblock|
                    0 <= j < now.len() && #[trigger] offers(now[j], sb) implies {
                    &&& sb.generation <= b.generation
                    &&& sb.generation == b.generation ==> j <= at
                } by {
                    if j < i - 1 {
                        assert(offers(candidates@[j], sb));
                        assert(offers(candidates@.take(i - 1)[j], sb));
                    } else {
                        assert(offers(candidates@[i - 1], sb));
                    }
                }
            }
        }
    }
    proof {
        assert(candidates@.take(i as int) =~= candidates@);
        if let Some(b) = best {
            assert(is_best(candidates@, at, b));
        }
    }
    best
}

/// The candidate at `i` holds `best`, no candidate holds a newer superblock,
/// and no later one holds one as new.
pub open spec fn is_best(candidates: Seq<Option<Vec<u8>>>, i: int, best: Superblock) -> bool {
    &&& 0 <= i < candidates.len()
    &&& offers(candidates[i], best)
    &&& forall|j: int, sb: Superblock|
        0 <= j < candidates.len() && #[trigger] offers(candidates[j], sb) ==> {
            &&& sb.generation <= best.generation
            &&& sb.generation == best.generation ==> j <= i
        }
}

/// A block holds only one superblock.
pub proof fn lemma_fields_unique(a: Superblock, b: Superblock, buf: Seq<u8>)
    requires
        serialization::fields_of(a, buf),
        serialization::fields_of(b, buf),
    ensures
        a == b,
{
}

/// There is only one best superblock.
pub proof fn lemma_best_unique(
    candidates: Seq<Option<Vec<u8>>>,
    i: int,
    a: Superblock,
    j: int,
    b: Superblock,
)
    requires
        is_best(candidates, i, a),
        is_best(candidates, j, b),
    ensures
        i == j,
        a == b,
{
    assert(offers(candidates[i], a));
    assert(offers(candidates[j], b));
    lemma_fields_unique(a, b, candidates[i]->0@);
}

/// The superblock with the checksum that makes it valid.
pub open spec fn sealed(sb: Superblock) -> Superblock {
    Superblock { checksum: algorithms::crc32_of((Superblock { checksum: 0, ..sb }).wire()), ..sb }
}

/// The block that holds the superblock with the checksum that makes it valid.
pub fn seal(sb: Superblock) -> (r: Vec<u8>)
    ensures
        r@ == sealed(sb).wire(),
        r@.len() == BLOCK_SIZE,
{
    let bare = Superblock { checksum: 0, ..sb };
    let block = bare.to_block();
    let csum = algorithms::crc32(block.as_slice());
    let whole = Superblock { checksum: csum, ..sb };
    whole.to_block()
}

/// A sealed superblock of the right magic number is found valid, and comes
/// back as it was.
pub proof fn sealed_block_is_valid(sb: Superblock)
    requires
        sb.magic == LIONFS_MAGIC,
    ensures
        serialization::fields_of(sealed(sb), sealed(sb).wire()),
        is_valid(sealed(sb).wire(), sealed(sb)),
{
    serialization::lemma_superblock_fields(sealed(sb));
    serialization::lemma_wire_without_checksum(sealed(sb));
    assert((Superblock { checksum: 0, ..sealed(sb) }) == (Superblock { checksum: 0, ..sb }));
}

/// The copy that is picked is valid, and no valid copy is newer; of several
/// that are equally new it is the last.
pub proof fn best_copy_is_valid_and_newest(
    candidates: Seq<Option<Vec<u8>>>,
    i: int,
    best: Superblock,
    j: int,
    sb: Superblock,
)
    requires
        is_best(candidates, i, best),
        0 <= j < candidates.len(),
        candidates[j] matches Some(buf) && serialization::fields_of(sb, buf@) && sb.magic
            == 0x0000_5346_4E4F_494C && sb.checksum == algorithms::crc32_of(
            buf@.subrange(0, 88) + Seq::new(4, |k: int| 0u8) + buf@.subrange(92, buf@.len() as int),
        ) && buf@.len() == BLOCK_SIZE,
    ensures
        candidates[i] is Some,
        best.magic == 0x0000_5346_4E4F_494C,
        sb.generation <= best.generation,
        sb.generation == best.generation ==> j <= i,
{
    let buf = candidates[j]->0@;
    assert(unsealed(buf) =~= buf.subrange(0, 88) + Seq::new(4, |k: int| 0u8) + buf.subrange(
        92,
        buf.len() as int,
    ));
    assert(offers(candidates[j], sb));
}

/// A block with another magic number, or whose bytes besides the checksum have
/// another checksum than it says, is not valid.
pub proof fn damaged_block_is_not_valid(buf: Seq<u8>, sb: Superblock)
    requires
        buf.len() == BLOCK_SIZE,
        sb.magic != 0x0000_5346_4E4F_494C || sb.checksum != algorithms::crc32_of(
            buf.subrange(0, 88) + Seq::new(4, |k: int| 0u8) + buf.subrange(92, buf.len() as int),
        ),
    ensures
        !is_valid(buf, sb),
{
    assert(unsealed(buf) =~= buf.subrange(0, 88) + Seq::new(4, |k: int| 0u8) + buf.subrange(
        92,
        buf.len() as int,
    ));
}

} // verus!
