//! Little-endian integers.

use vstd::prelude::*;

verus! {

/// 256 to the power of `n`.
pub open spec fn pow256(n: nat) -> nat
    decreases n,
{
    if n == 0 {
        1
    } else {
        256 * pow256((n - 1) as nat)
    }
}

/// The `n` low bytes of `x`, least significant first.
pub open spec fn le(x: nat, n: nat) -> Seq<u8>
    decreases n,
{
    if n == 0 {
        Seq::empty()
    } else {
        seq![(x % 256) as u8] + le(x / 256, (n - 1) as nat)
    }
}

/// The integer whose bytes, least significant first, are `s`.
pub open spec fn from_le(s: Seq<u8>) -> nat
    decreases s.len(),
{
    if s.len() == 0 {
        0
    } else {
        s[0] as nat + 256 * from_le(s.drop_first())
    }
}

/// `le` gives as many bytes as it is asked for.
pub proof fn lemma_le_len(x: nat, n: nat)
    ensures
        le(x, n).len() == n,
    decreases n,
{
    if n > 0 {
        lemma_le_len(x / 256, (n - 1) as nat);
    }
}

/// Decoding is bounded by the number of bytes.
pub proof fn lemma_from_le_bound(s: Seq<u8>)
    ensures
        from_le(s) < pow256(s.len()),
    decreases s.len(),
{
    if s.len() > 0 {
        lemma_from_le_bound(s.drop_first());
    }
}

/// Decoding undoes encoding.
pub proof fn lemma_from_le_of_le(x: nat, n: nat)
    requires
        x < pow256(n),
    ensures
        from_le(le(x, n)) == x,
    decreases n,
{
    if n > 0 {
        lemma_from_le_of_le(x / 256, (n - 1) as nat);
        lemma_le_len(x / 256, (n - 1) as nat);
        assert(le(x, n).drop_first() =~= le(x / 256, (n - 1) as nat));
        assert(le(x, n)[0] == (x % 256) as u8);
    }
}

/// Encoding undoes decoding.
pub proof fn lemma_le_of_from_le(s: Seq<u8>)
    ensures
        le(from_le(s), s.len()) == s,
    decreases s.len(),
{
    if s.len() > 0 {
        let t = s.drop_first();
        lemma_le_of_from_le(t);
        let x = from_le(s);
        assert(x % 256 == s[0] as nat && x / 256 == from_le(t));
        assert(le(x, s.len()) =~= s);
    } else {
        assert(le(from_le(s), 0) =~= s);
    }
}

/// The bytes of a number that fits in the first `m` of them are zero from
/// there on.
pub proof fn lemma_le_split(x: nat, m: nat, n: nat)
    requires
        m <= n,
        x < pow256(m),
    ensures
        le(x, n) == le(x, m) + Seq::new((n - m) as nat, |i: int| 0u8),
    decreases m,
{
    lemma_le_len(x, n);
    lemma_le_len(x, m);
    if m == 0 {
        assert(x == 0);
        lemma_le_zero(n);
        assert(le(x, n) =~= le(x, m) + Seq::new((n - m) as nat, |i: int| 0u8));
    } else {
        lemma_le_split(x / 256, (m - 1) as nat, (n - 1) as nat);
        assert(le(x, n) =~= le(x, m) + Seq::new((n - m) as nat, |i: int| 0u8));
    }
}

proof fn lemma_le_zero(n: nat)
    ensures
        le(0, n) == Seq::new(n, |i: int| 0u8),
    decreases n,
{
    if n > 0 {
        lemma_le_zero((n - 1) as nat);
    }
    assert(le(0, n) =~= Seq::new(n, |i: int| 0u8));
}

/// The powers of 256 that bound the machine integers.
pub proof fn lemma_pow256_values()
    ensures
        pow256(1) == 0x100,
        pow256(2) == 0x1_0000,
        pow256(4) == 0x1_0000_0000,
        pow256(6) == 0x1_0000_0000_0000,
        pow256(8) == 0x1_0000_0000_0000_0000,
        pow256(16) == 0x1_0000_0000_0000_0000_0000_0000_0000_0000,
{
    reveal_with_fuel(pow256, 17);
    assert(pow256(4) == 0x1_0000_0000);
    assert(pow256(8) == 0x1_0000_0000_0000_0000);
    assert(pow256(12) == 0x1_0000_0000_0000_0000_0000_0000);
    assert(pow256(16) == 0x1_0000_0000_0000_0000_0000_0000_0000_0000);
}

proof fn lemma_pow256_mono(a: nat, b: nat)
    requires
        a <= b,
    ensures
        pow256(a) <= pow256(b),
    decreases b,
{
    if a < b {
        lemma_pow256_mono(a, (b - 1) as nat);
    }
}

/// Appends the `n` low bytes of `x`.
pub fn put_le(buf: &mut Vec<u8>, x: u128, n: usize)
    ensures
        final(buf)@ == old(buf)@ + le(x as nat, n as nat),
{
    let mut rest: u128 = x;
    let mut i: usize = 0;
    proof {
        assert(buf@ + le(x as nat, n as nat) =~= old(buf)@ + le(x as nat, n as nat));
    }
    while i < n
        invariant
            i <= n,
            buf@ + le(rest as nat, (n - i) as nat) == old(buf)@ + le(x as nat, n as nat),
        decreases n - i,
    {
        let b: u8 = (rest % 256) as u8;
        let ghost before = buf@;
        buf.push(b);
        proof {
            assert(before + le(rest as nat, (n - i) as nat) =~= buf@ + le(
                (rest / 256) as nat,
                (n - i - 1) as nat,
            ));
        }
        rest = rest / 256;
        i = i + 1;
    }
    assert(buf@ + le(rest as nat, 0) =~= buf@);
}

/// The integer in `buf[at..at + n]`.
pub fn get_le(buf: &[u8], at: usize, n: usize) -> (r: u128)
    requires
        at + n <= buf@.len(),
        n <= 16,
    ensures
        r == from_le(buf@.subrange(at as int, at + n)),
        r < pow256(n as nat),
{
    let mut acc: u128 = 0;
    let mut i: usize = n;
    let ghost all = buf@.subrange(at as int, at + n);
    assert(all.subrange(n as int, n as int) =~= Seq::<u8>::empty());
    while i > 0
        invariant
            at + n <= buf@.len(),
            n <= 16,
            i <= n,
            all == buf@.subrange(at as int, at + n),
            acc == from_le(all.subrange(i as int, n as int)),
        decreases i,
    {
        i = i - 1;
        proof {
            let tail = all.subrange(i + 1, n as int);
            lemma_from_le_bound(tail);
            lemma_pow256_mono(tail.len(), 15);
            lemma_pow256_values();
            assert(pow256(16) == 256 * pow256(15));
            assert(all.subrange(i as int, n as int).drop_first() =~= tail);
            assert(all.subrange(i as int, n as int)[0] == buf@[at + i]);
        }
        assert(at + i < buf.len());
        acc = buf[at + i] as u128 + 256 * acc;
    }
    proof {
        assert(all.subrange(0, n as int) =~= all);
        lemma_from_le_bound(all);
    }
    acc
}

/// Bytes count from the lowest: one byte is its own number, and what follows a
/// number of bytes counts for that many powers more.
pub proof fn bytes_count_from_the_lowest(b: u8, s: Seq<u8>, t: Seq<u8>)
    ensures
        from_le(Seq::empty()) == 0,
        from_le(seq![b]) == b,
        from_le(s + t) == from_le(s) + pow256(s.len()) * from_le(t),
    decreases s.len(),
{
    reveal_with_fuel(from_le, 2);
    assert(seq![b].drop_first() =~= Seq::<u8>::empty());
    if s.len() == 0 {
        assert(s + t =~= t);
        assert(pow256(0) * from_le(t) == from_le(t)) by (nonlinear_arith)
            requires
                pow256(0) == 1,
        ;
    } else {
        let rest = s.drop_first();
        bytes_count_from_the_lowest(b, rest, t);
        assert((s + t).drop_first() =~= rest + t);
        assert(256 * (from_le(rest) + pow256(rest.len()) * from_le(t)) == 256 * from_le(rest) + (256
            * pow256(rest.len())) * from_le(t)) by (nonlinear_arith);
    }
}

/// Writing a number takes as many bytes as asked and loses nothing of a number
/// that they can hold.
pub proof fn written_number_is_read_back(x: nat, n: nat)
    requires
        x < pow256(n),
    ensures
        le(x, n).len() == n,
        from_le(le(x, n)) == x,
{
    lemma_le_len(x, n);
    lemma_from_le_of_le(x, n);
}

} // verus!
