//! Fletcher's checksum.

use vstd::prelude::*;

verus! {

/// The `i`-th 16-bit little-endian word of `data`; an odd last byte stands
/// for a word of its own.
pub open spec fn word_at(data: Seq<u8>, i: int) -> nat {
    if 2 * i + 1 < data.len() {
        data[2 * i] as nat + 256 * data[2 * i + 1] as nat
    } else {
        data[2 * i] as nat
    }
}

/// The two running sums after the first `n` words.
pub open spec fn fletcher_sums(data: Seq<u8>, n: nat) -> (nat, nat)
    decreases n,
{
    if n == 0 {
        (0, 0)
    } else {
        let (a, b) = fletcher_sums(data, (n - 1) as nat);
        let a2 = (a + word_at(data, n - 1)) % 65535;
        (a2, (b + a2) % 65535)
    }
}

/// The Fletcher-32 checksum of `data`.
pub open spec fn fletcher32_of(data: Seq<u8>) -> u32 {
    let (a, b) = fletcher_sums(data, ((data.len() + 1) / 2) as nat);
    (b * 65536 + a) as u32
}

/// The Fletcher-32 checksum of `data`.
pub fn fletcher32(data: &[u8]) -> (r: u32)
    ensures
        r == fletcher32_of(data@),
{
    let n: usize = data.len() / 2 + data.len() % 2;
    let mut a: u32 = 0;
    let mut b: u32 = 0;
    let mut i: usize = 0;
    while i < n
        invariant
            n == (data@.len() + 1) / 2,
            i <= n,
            a < 65535,
            b < 65535,
            fletcher_sums(data@, i as nat) == (a as nat, b as nat),
        decreases n - i,
    {
        assert(2 * i < data.len());
        let lo: u32 = data[2 * i] as u32;
        let w: u32 = if 2 * i < data.len() - 1 {
            lo + 256 * data[2 * i + 1] as u32
        } else {
            lo
        };
        a = (a + w) % 65535;
        b = (b + a) % 65535;
        i = i + 1;
    }
    b * 65536 + a
}

/// Nothing has the checksum 0. One more word, of whole bytes before it, adds to
/// the lower half, and the lower half then adds to the upper one, both modulo
/// 65535. A last odd byte counts as a word of its own.
pub proof fn checksum_grows_word_by_word(data: Seq<u8>, lo: u8, hi: u8)
    requires
        data.len() % 2 == 0,
    ensures
        fletcher32_of(Seq::empty()) == 0,
        ({
            let a = fletcher32_of(data) as int % 65536;
            let b = fletcher32_of(data) as int / 65536;
            let more = fletcher32_of(data + seq![lo, hi]) as int;
            &&& more % 65536 == (a + (lo + 256 * hi)) % 65535
            &&& more / 65536 == (b + more % 65536) % 65535
        }),
        fletcher32_of(data + seq![lo]) == fletcher32_of(data + seq![lo, 0]),
{
    let n = (data.len() / 2) as nat;
    lemma_parts(data, n);
    lemma_parts(Seq::empty(), 0);
    lemma_word_added(data, data + seq![lo, hi], n, lo as nat + 256 * hi as nat);
    lemma_word_added(data, data + seq![lo], n, lo as nat);
    lemma_word_added(data, data + seq![lo, 0], n, lo as nat);
}

proof fn lemma_word_added(data: Seq<u8>, longer: Seq<u8>, n: nat, w: nat)
    requires
        data.len() == 2 * n,
        data.len() < longer.len() <= data.len() + 2,
        forall|i: int| 0 <= i < data.len() ==> data[i] == longer[i],
        word_at(longer, n as int) == w,
    ensures
        ({
            let (a, b) = fletcher_sums(data, n);
            let a2 = (a + w) % 65535;
            &&& fletcher32_of(longer) == ((b + a2) % 65535) * 65536 + a2
            &&& fletcher32_of(longer) as int % 65536 == a2
            &&& fletcher32_of(longer) as int / 65536 == (b + a2) % 65535
        }),
{
    lemma_sums_prefix(data, longer, n);
    lemma_parts(longer, n + 1);
}

/// The lower half of a checksum is the first sum, the upper half the second.
proof fn lemma_parts(data: Seq<u8>, n: nat)
    requires
        n == (data.len() + 1) / 2,
    ensures
        fletcher32_of(data) as int % 65536 == fletcher_sums(data, n).0,
        fletcher32_of(data) as int / 65536 == fletcher_sums(data, n).1,
        fletcher32_of(data) == fletcher_sums(data, n).1 * 65536 + fletcher_sums(data, n).0,
        fletcher_sums(data, n).0 < 65535,
        fletcher_sums(data, n).1 < 65535,
{
    lemma_sums_bound(data, n);
}

proof fn lemma_sums_bound(data: Seq<u8>, n: nat)
    ensures
        fletcher_sums(data, n).0 < 65535,
        fletcher_sums(data, n).1 < 65535,
    decreases n,
{
    if n > 0 {
        lemma_sums_bound(data, (n - 1) as nat);
    }
}

proof fn lemma_sums_prefix(data: Seq<u8>, longer: Seq<u8>, n: nat)
    requires
        data.len() % 2 == 0,
        2 * n <= data.len() <= longer.len(),
        forall|i: int| 0 <= i < data.len() ==> data[i] == longer[i],
    ensures
        fletcher_sums(data, n) == fletcher_sums(longer, n),
    decreases n,
{
    if n > 0 {
        lemma_sums_prefix(data, longer, (n - 1) as nat);
    }
}

} // verus!
