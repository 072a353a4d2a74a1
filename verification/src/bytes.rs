//! Moving bytes between buffers.

use vstd::prelude::*;

verus! {

/// `base` with `data` written over it from position `at`.
pub open spec fn overwritten(base: Seq<u8>, at: int, data: Seq<u8>) -> Seq<u8> {
    Seq::new(
        base.len(),
        |i: int|
            if at <= i < at + data.len() {
                data[i - at]
            } else {
                base[i]
            },
    )
}

/// Appends `data` to `buf`.
pub fn append(buf: &mut Vec<u8>, data: &[u8])
    ensures
        final(buf)@ == old(buf)@ + data@,
{
    buf.extend_from_slice(data);
    assert(buf@ =~= old(buf)@ + data@);
}

/// Writes `data[from..to]` over `buf` from position `at`.
pub fn overwrite(buf: &mut Vec<u8>, at: usize, data: &[u8], from: usize, to: usize)
    requires
        from <= to <= data@.len(),
        at + (to - from) <= old(buf)@.len(),
    ensures
        final(buf)@ == overwritten(old(buf)@, at as int, data@.subrange(from as int, to as int)),
{
    let mut i: usize = 0;
    while i < to - from
        invariant
            from <= to <= data@.len(),
            0 <= i <= to - from,
            at + (to - from) <= old(buf)@.len(),
            buf@ == overwritten(old(buf)@, at as int, data@.subrange(from as int, from + i)),
        decreases to - from - i,
    {
        assert(at + i < buf.len());
        buf.set(at + i, data[from + i]);
        i = i + 1;
        assert(buf@ =~= overwritten(old(buf)@, at as int, data@.subrange(from as int, from + i)));
    }
    assert(buf@ =~= overwritten(
        old(buf)@,
        at as int,
        data@.subrange(from as int, to as int),
    ));
}

/// Whether the bytes are the same.
pub fn same(a: &[u8], b: &[u8]) -> (r: bool)
    ensures
        r == (a@ == b@),
{
    if a.len() != b.len() {
        return false;
    }
    let mut i: usize = 0;
    while i < a.len()
        invariant
            a@.len() == b@.len(),
            i <= a@.len(),
            forall|k: int| 0 <= k < i ==> #[trigger] a@[k] == b@[k],
        decreases a@.len() - i,
    {
        if a[i] != b[i] {
            return false;
        }
        i = i + 1;
    }
    assert(a@ =~= b@);
    true
}

/// `n` zero bytes.
pub fn zeros(n: usize) -> (r: Vec<u8>)
    ensures
        r@ == Seq::new(n as nat, |i: int| 0u8),
{
    let mut v: Vec<u8> = Vec::new();
    v.resize(n, 0);
    assert(v@ =~= Seq::new(n as nat, |i: int| 0u8));
    v
}

/// A copy of `data[from..to]`.
pub fn copy_range(data: &[u8], from: usize, to: usize) -> (r: Vec<u8>)
    requires
        from <= to <= data@.len(),
    ensures
        r@ == data@.subrange(from as int, to as int),
{
    vstd::slice::slice_to_vec(vstd::slice::slice_subrange(data, from, to))
}

} // verus!
