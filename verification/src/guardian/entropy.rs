//! Watches writes for the pattern of files being encrypted: existing files are
//! rewritten, with bytes that look random, and the files are of the kinds that
//! people pay for. No signal is proof; a moving average of each is kept, and
//! the verdict is their weighted sum.
//!
//! Everything is fixed-point, so that the same windows give the same verdict
//! everywhere. Logarithms are exact in their whole part and have sixteen steps
//! in their fractional part.

use crate::common::num;
use vstd::arithmetic::power2::pow2;
use vstd::prelude::*;
use vstd::string::StrSliceExecFns;

verus! {

/// The suspicion, in hundredths of a percent, at which snapshots freeze.
pub const FREEZE_BPS: u32 = 8_000;

/// One, in fixed point with 32 fractional bits.
pub const ONE: u64 = 4_294_967_296;

/// Eight bits, in fixed point: all that a byte can hold.
pub const EIGHT_BITS: u64 = 34_359_738_368;

/// The entropy, in fixed point, that counts as full evidence: 7.5 bits.
pub const FULL_EVIDENCE: u64 = 32_212_254_720;

/// The binary logarithm of `1 + j / 16`, with 16 fractional bits.
pub const FRACT16: [u32; 16] = [
    0,
    5_732,
    11_134,
    16_241,
    21_087,
    25_706,
    30_102,
    34_303,
    38_328,
    42_186,
    45_890,
    49_458,
    52_896,
    56_211,
    59_417,
    62_516,
];

/// The kinds of files that people pay for.
pub const LURE_EXTENSIONS: [&'static str; 12] = [
    "doc",
    "docx",
    "xls",
    "xlsx",
    "ppt",
    "pptx",
    "pdf",
    "jpg",
    "jpeg",
    "png",
    "csv",
    "db",
];

/// The verdict of a window.
#[derive(Clone, Copy, Debug, PartialEq, Eq, Structural)]
pub struct Suspicion {
    /// In hundredths of a percent.
    pub score_bps: u32,
    /// Whether snapshots are to freeze.
    pub freeze_recommended: bool,
}

/// The whole part of the binary logarithm.
pub open spec fn floor_log2(x: int) -> nat
    decreases x,
{
    if x <= 1 {
        0
    } else {
        1 + floor_log2(x / 2)
    }
}

/// Which of the sixteen steps from one power of two to the next a number is
/// on.
pub open spec fn log2_step(x: int) -> int {
    let base = pow2(floor_log2(x)) as int;
    ((x - base) * 16) / base
}

/// The binary logarithm, with 16 fractional bits.
pub open spec fn log2_fixed(x: int) -> int {
    floor_log2(x) * 65_536 + FRACT16@[log2_step(x)]
}

proof fn lemma_floor_log2(x: int)
    requires
        x >= 1,
    ensures
        pow2(floor_log2(x)) <= x < 2 * pow2(floor_log2(x)),
        pow2(floor_log2(x)) > 0,
    decreases x,
{
    vstd::arithmetic::power2::lemma2_to64();
    if x > 1 {
        lemma_floor_log2(x / 2);
        vstd::arithmetic::power2::lemma_pow2_unfold(floor_log2(x));
    }
}

proof fn lemma_log2_unique(x: int, f: nat)
    requires
        pow2(f) <= x < 2 * pow2(f),
    ensures
        f == floor_log2(x),
{
    vstd::arithmetic::power2::lemma_pow2_pos(f);
    lemma_floor_log2(x);
    let g = floor_log2(x);
    if f < g {
        lemma_pow2_doubled(f, g);
    } else if g < f {
        lemma_pow2_doubled(g, f);
    }
}

proof fn lemma_pow2_doubled(a: nat, b: nat)
    requires
        a < b,
    ensures
        2 * pow2(a) <= pow2(b),
    decreases b,
{
    vstd::arithmetic::power2::lemma_pow2_unfold(b);
    if a + 1 < b {
        lemma_pow2_doubled(a, (b - 1) as nat);
        vstd::arithmetic::power2::lemma_pow2_pos((b - 1) as nat);
    }
}

proof fn lemma_log2_step(x: int)
    requires
        x >= 1,
    ensures
        0 <= log2_step(x) < 16,
        pow2(floor_log2(x)) <= x,
        pow2(floor_log2(x)) > 0,
{
    lemma_floor_log2(x);
    let base = pow2(floor_log2(x)) as int;
    assert(0 <= ((x - base) * 16) / base < 16) by (nonlinear_arith)
        requires
            0 < base <= x < 2 * base,
    ;
}

proof fn lemma_fract16(i: int, j: int)
    requires
        0 <= i <= j < 16,
    ensures
        0 <= FRACT16@[i] <= FRACT16@[j] < 65_536,
{
}

/// A larger number has no smaller logarithm.
pub proof fn log2_is_monotone(a: int, b: int)
    requires
        1 <= a <= b,
    ensures
        0 <= log2_fixed(a) <= log2_fixed(b),
{
    lemma_log2_step(a);
    lemma_log2_step(b);
    lemma_fract16(log2_step(a), log2_step(a));
    lemma_fract16(log2_step(b), log2_step(b));
    lemma_floor_log2(a);
    lemma_floor_log2(b);
    let fa = floor_log2(a);
    let fb = floor_log2(b);
    if fa == fb {
        let base = pow2(fa) as int;
        vstd::arithmetic::div_mod::lemma_div_is_ordered((a - base) * 16, (b - base) * 16, base);
        lemma_fract16(log2_step(a), log2_step(b));
    } else if fb < fa {
        lemma_pow2_doubled(fb, fa);
    }
}

proof fn lemma_log2_bound(x: int)
    requires
        1 <= x <= u64::MAX,
    ensures
        floor_log2(x) < 64,
        0 <= log2_fixed(x) < 64 * 65_536,
{
    lemma_floor_log2(x);
    lemma_log2_step(x);
    lemma_fract16(log2_step(x), log2_step(x));
    vstd::arithmetic::power2::lemma2_to64();
    vstd::arithmetic::power2::lemma2_to64_rest();
    if floor_log2(x) >= 64 {
        if floor_log2(x) > 64 {
            lemma_pow2_doubled(64, floor_log2(x));
        }
    }
}

/// The whole part and the fractional part, with 16 fractional bits, of the
/// binary logarithm.
pub fn log2_parts(x: u64) -> (r: (u64, u32))
    requires
        x >= 1,
    ensures
        r.0 == floor_log2(x as int),
        r.1 == FRACT16@[log2_step(x as int)],
        0 <= log2_step(x as int) < 16,
        r.0 < 64,
{
    let mut f: u64 = 0;
    let mut base: u64 = 1;
    proof {
        vstd::arithmetic::power2::lemma2_to64();
    }
    while base <= x / 2
        invariant
            1 <= base <= x,
            base == pow2(f as nat),
            f < base,
        decreases x - base,
    {
        proof {
            vstd::arithmetic::power2::lemma_pow2_unfold((f + 1) as nat);
        }
        base = base * 2;
        f = f + 1;
    }
    proof {
        lemma_log2_unique(x as int, f as nat);
        lemma_log2_step(x as int);
        lemma_log2_bound(x as int);
    }
    let j: u128 = ((x - base) as u128 * 16) / base as u128;
    (f, FRACT16[j as usize])
}

/// How often a byte occurs.
pub open spec fn count(data: Seq<u8>, b: u8) -> int
    decreases data.len(),
{
    if data.len() == 0 {
        0
    } else {
        count(data.drop_last(), b) + if data.last() == b {
            1int
        } else {
            0int
        }
    }
}

/// What a byte that occurs `c` times among `len` adds to the entropy, with 32
/// fractional bits: its frequency times the logarithm of its inverse.
pub open spec fn entropy_term(c: int, len: int) -> int {
    if c == 0 {
        0
    } else {
        (((c * ONE) / len) * (log2_fixed(len) - log2_fixed(c))) / 65_536
    }
}

/// What the first `n` byte values add to the entropy.
pub open spec fn entropy_sum(data: Seq<u8>, n: int) -> int
    decreases n,
{
    if n <= 0 {
        0
    } else {
        entropy_sum(data, n - 1) + entropy_term(count(data, (n - 1) as u8), data.len() as int)
    }
}

/// The entropy of bytes, in bits per byte with 32 fractional bits.
pub open spec fn entropy(data: Seq<u8>) -> int {
    let sum = entropy_sum(data, 256);
    if sum > EIGHT_BITS {
        EIGHT_BITS as int
    } else {
        sum
    }
}

proof fn lemma_count_bound(data: Seq<u8>, b: u8)
    ensures
        0 <= count(data, b) <= data.len(),
    decreases data.len(),
{
    if data.len() > 0 {
        lemma_count_bound(data.drop_last(), b);
    }
}

proof fn lemma_count_prefix(data: Seq<u8>, b: u8, i: int)
    requires
        0 <= i <= data.len(),
    ensures
        count(data.take(i), b) <= count(data, b),
    decreases data.len() - i,
{
    if i == data.len() {
        assert(data.take(i) =~= data);
    } else {
        lemma_count_prefix(data, b, i + 1);
        assert(data.take(i + 1).drop_last() =~= data.take(i));
    }
}

proof fn lemma_term_bound(c: int, len: int)
    requires
        0 <= c <= len,
        1 <= len <= u64::MAX,
    ensures
        0 <= entropy_term(c, len) <= 274_877_906_944,
        c > 0 ==> 0 <= (c * ONE) / len <= ONE,
        c > 0 ==> 0 <= log2_fixed(len) - log2_fixed(c) < 64 * 65_536,
{
    if c > 0 {
        log2_is_monotone(c, len);
        lemma_log2_bound(len);
        let p = (c * ONE) / len;
        let l = log2_fixed(len) - log2_fixed(c);
        assert(0 <= p <= 4_294_967_296) by (nonlinear_arith)
            requires
                p == (c * 4_294_967_296) / len,
                0 < c <= len,
        ;
        assert(0 <= p * l <= 4_294_967_296 * (64 * 65_536)) by (nonlinear_arith)
            requires
                0 <= p <= 4_294_967_296,
                0 <= l < 64 * 65_536,
        ;
    }
}

/// How often each byte value occurs.
fn histogram(data: &[u8]) -> (r: Vec<u32>)
    requires
        forall|b: u8| #[trigger] count(data@, b) <= u32::MAX,
    ensures
        r@.len() == 256,
        forall|b: u8| r@[b as int] == #[trigger] count(data@, b),
{
    let mut hist: Vec<u32> = Vec::new();
    hist.resize(256, 0);
    let mut i: usize = 0;
    assert forall|b: u8| hist@[b as int] == #[trigger] count(data@.take(0), b) by {}
    while i < data.len()
        invariant
            i <= data@.len(),
            hist@.len() == 256,
            forall|b: u8| #[trigger] count(data@, b) <= u32::MAX,
            forall|b: u8| hist@[b as int] == #[trigger] count(data@.take(i as int), b),
        decreases data@.len() - i,
    {
        let b: u8 = data[i];
        proof {
            assert(data@.take(i + 1).drop_last() =~= data@.take(i as int));
            lemma_count_prefix(data@, b, i + 1);
            assert(count(data@.take(i as int), b) + 1 == count(data@.take(i + 1), b));
        }
        let n: u32 = hist[b as usize];
        let ghost before = hist@;
        hist.set(b as usize, n + 1);
        assert forall|c: u8| hist@[c as int] == #[trigger] count(data@.take(i + 1), c) by {
            assert(before[c as int] == count(data@.take(i as int), c));
        }
        i = i + 1;
    }
    assert(data@.take(data@.len() as int) =~= data@);
    hist
}

/// The entropy of bytes, in bits per byte with 32 fractional bits. Nothing
/// has none.
#[must_use]
pub fn entropy_bits_per_byte(data: &[u8]) -> (r: u64)
    requires
        forall|b: u8| #[trigger] count(data@, b) <= u32::MAX,
    ensures
        r == (if data@.len() == 0 {
            0
        } else {
            entropy(data@)
        }),
        r <= EIGHT_BITS,
{
    if data.len() == 0 {
        return 0;
    }
    let hist = histogram(data);
    let len: u64 = data.len() as u64;
    let (lf, lfr) = log2_parts(len);
    let log2_len: u64 = lf * 65_536 + lfr as u64;
    let mut acc: u128 = 0;
    let mut i: usize = 0;
    while i < 256
        invariant
            i <= 256,
            hist@.len() == 256,
            forall|b: u8| hist@[b as int] == #[trigger] count(data@, b),
            len == data@.len(),
            len >= 1,
            log2_len == log2_fixed(len as int),
            acc == entropy_sum(data@, i as int),
            acc <= i * 274_877_906_944,
        decreases 256 - i,
    {
        let c: u64 = hist[i] as u64;
        assert(c == count(data@, i as u8));
        proof {
            lemma_count_bound(data@, i as u8);
            lemma_term_bound(c as int, len as int);
        }
        if c != 0 {
            let (cf, cfr) = log2_parts(c);
            let log2_c: u64 = cf * 65_536 + cfr as u64;
            assert(log2_c == log2_fixed(c as int));
            let neg_log: u64 = log2_len - log2_c;
            let p: u128 = (c as u128 * ONE as u128) / len as u128;
            assert(0 <= p * neg_log <= 4_294_967_296 * (64 * 65_536)) by (nonlinear_arith)
                requires
                    0 <= p <= 4_294_967_296,
                    0 <= neg_log < 64 * 65_536,
            ;
            let term: u128 = (p * neg_log as u128) / 65_536;
            assert(term == entropy_term(c as int, len as int));
            acc = acc + term;
        }
        i = i + 1;
    }
    if acc > EIGHT_BITS as u128 {
        EIGHT_BITS
    } else {
        acc as u64
    }
}

/// Bytes that are all the same have no entropy.
pub proof fn constant_data_has_no_entropy(data: Seq<u8>, b: u8)
    requires
        data.len() > 0,
        forall|i: int| 0 <= i < data.len() ==> #[trigger] data[i] == b,
    ensures
        entropy(data) == 0,
{
    lemma_constant_sum(data, b, 256);
}

proof fn lemma_constant_count(data: Seq<u8>, b: u8, c: u8)
    requires
        forall|i: int| 0 <= i < data.len() ==> #[trigger] data[i] == b,
    ensures
        count(data, c) == (if c == b {
            data.len() as int
        } else {
            0
        }),
    decreases data.len(),
{
    if data.len() > 0 {
        assert forall|i: int| 0 <= i < data.drop_last().len() implies #[trigger] data.drop_last()[i]
            == b by {
            assert(data.drop_last()[i] == data[i]);
        }
        lemma_constant_count(data.drop_last(), b, c);
    }
}

proof fn lemma_constant_sum(data: Seq<u8>, b: u8, n: int)
    requires
        data.len() > 0,
        n <= 256,
        forall|i: int| 0 <= i < data.len() ==> #[trigger] data[i] == b,
    ensures
        entropy_sum(data, n) == 0,
    decreases n,
{
    if n > 0 {
        lemma_constant_sum(data, b, n - 1);
        lemma_constant_count(data, b, (n - 1) as u8);
        let len = data.len() as int;
        let p = (len * ONE) / len;
        assert((p * (log2_fixed(len) - log2_fixed(len))) / 65_536 == 0) by (nonlinear_arith);
    }
}

/// The letter in lower case.
pub open spec fn lower(c: char) -> char {
    if 'A' <= c <= 'Z' {
        (c as u32 + 32) as char
    } else {
        c
    }
}

/// The path ends with a dot and the extension, in whatever case.
pub open spec fn has_extension(path: Seq<char>, ext: Seq<char>) -> bool {
    let at = path.len() - ext.len();
    &&& at > 0
    &&& path[at - 1] == '.'
    &&& forall|i: int| 0 <= i < ext.len() ==> #[trigger] lower(path[at + i]) == lower(ext[i])
}

fn lower_char(c: char) -> (r: char)
    ensures
        r == lower(c),
{
    if 'A' <= c && c <= 'Z' {
        (c as u8 + 32) as char
    } else {
        c
    }
}

fn ends_in(path: &str, ext: &str) -> (r: bool)
    ensures
        r == has_extension(path@, ext@),
{
    let n: usize = path.unicode_len();
    let m: usize = ext.unicode_len();
    if n <= m {
        return false;
    }
    let at: usize = n - m;
    if path.get_char(at - 1) != '.' {
        return false;
    }
    let mut i: usize = 0;
    while i < m
        invariant
            n == path@.len(),
            m == ext@.len(),
            at == n - m,
            at > 0,
            i <= m,
            forall|j: int| 0 <= j < i ==> #[trigger] lower(path@[at + j]) == lower(ext@[j]),
        decreases m - i,
    {
        let a: char = lower_char(path.get_char(at + i));
        let b: char = lower_char(ext.get_char(i));
        if a != b {
            assert(lower(path@[at + i]) != lower(ext@[i as int]));
            return false;
        }
        i = i + 1;
    }
    true
}

/// Whether a path has one of the extensions that people pay for.
#[must_use]
pub fn is_lure_path(path: &str) -> (r: bool)
    ensures
        r == exists|k: int|
            0 <= k < 12 && has_extension(path@, #[trigger] LURE_EXTENSIONS@[k]@),
{
    let mut k: usize = 0;
    while k < 12
        invariant
            k <= 12,
            forall|j: int| 0 <= j < k ==> !has_extension(path@, #[trigger] LURE_EXTENSIONS@[j]@),
        decreases 12 - k,
    {
        if ends_in(path, LURE_EXTENSIONS[k]) {
            return true;
        }
        k = k + 1;
    }
    false
}

/// What a watched tree has shown so far: a moving average of each signal, with
/// 32 fractional bits.
pub struct EntropyWatcher {
    /// The entropy of what was written, in bits per byte.
    pub entropy_ewma: u64,
    /// The part of the writes that rewrote files.
    pub rewrite_ewma: u64,
    /// The part of the writes that went to files people pay for.
    pub lure_ewma: u64,
    /// The weight of a new window.
    pub alpha: u64,
}

/// The average that a sample of weight `alpha` moves `before` to.
pub open spec fn averaged(before: u64, sample: int, alpha: u64) -> int {
    let a = if alpha > ONE {
        ONE as int
    } else {
        alpha as int
    };
    (sample * a + before * (ONE - a)) / ONE as int
}

/// A part of a total, with 32 fractional bits, or the largest number if that
/// does not fit.
pub open spec fn ratio(part: u64, total: u64) -> int {
    num::capped(part * ONE / total as int)
}

/// One window of writes.
pub struct Window {
    /// Writes.
    pub writes: u64,
    /// Writes that rewrote files.
    pub rewrites: u64,
    /// Writes that went to files people pay for.
    pub lures: u64,
    /// A sample of what was written.
    pub sample: Seq<u8>,
}

/// What a watcher has seen once it takes a window. A window without writes is
/// no evidence.
pub open spec fn after_window(w: EntropyWatcher, win: Window) -> EntropyWatcher {
    if win.writes == 0 {
        w
    } else {
        let ent = if win.sample.len() == 0 {
            0
        } else {
            entropy(win.sample)
        };
        EntropyWatcher {
            entropy_ewma: averaged(w.entropy_ewma, ent, w.alpha) as u64,
            rewrite_ewma: averaged(w.rewrite_ewma, ratio(win.rewrites, win.writes), w.alpha) as u64,
            lure_ewma: averaged(w.lure_ewma, ratio(win.lures, win.writes), w.alpha) as u64,
            alpha: w.alpha,
        }
    }
}

/// A watcher that has seen nothing.
pub open spec fn fresh_watcher() -> EntropyWatcher {
    EntropyWatcher {
        entropy_ewma: 0,
        rewrite_ewma: 0,
        lure_ewma: 0,
        alpha: (ONE / 4) as u64,
    }
}

/// What a new watcher has seen once it takes the windows, one after the other.
pub open spec fn watched(windows: Seq<Window>) -> EntropyWatcher
    decreases windows.len(),
{
    if windows.len() == 0 {
        fresh_watcher()
    } else {
        after_window(watched(windows.drop_last()), windows.last())
    }
}

/// An average lies between what it moves from and what moves it.
pub proof fn average_lies_between(before: u64, sample: u64, alpha: u64)
    ensures
        before <= sample ==> before <= averaged(before, sample as int, alpha) <= sample,
        sample <= before ==> sample <= averaged(before, sample as int, alpha) <= before,
{
    let a = if alpha > ONE {
        ONE as int
    } else {
        alpha as int
    };
    let b = ONE - a;
    let s = sample as int;
    let o = before as int;
    let one = ONE as int;
    let num = s * a + o * b;
    if o <= s {
        assert(o * one <= num <= s * one) by (nonlinear_arith)
            requires
                num == s * a + o * b,
                0 <= o <= s,
                0 <= a,
                0 <= b,
                a + b == one,
        ;
    } else {
        assert(s * one <= num <= o * one) by (nonlinear_arith)
            requires
                num == s * a + o * b,
                0 <= s <= o,
                0 <= a,
                0 <= b,
                a + b == one,
        ;
    }
}

/// The average that a sample of weight `alpha` moves `old` to.
pub fn ewma(old: u64, sample: u64, alpha: u64) -> (r: u64)
    ensures
        r == averaged(old, sample as int, alpha),
{
    let a: u64 = if alpha > ONE {
        ONE
    } else {
        alpha
    };
    let one_minus: u64 = ONE - a;
    proof {
        average_lies_between(old, sample, alpha);
        assert(0 <= sample * a <= 0xffff_ffff_ffff_ffff * 0x1_0000_0000) by (nonlinear_arith)
            requires
                0 <= sample <= 0xffff_ffff_ffff_ffff,
                0 <= a <= 0x1_0000_0000,
        ;
        assert(0 <= old * one_minus <= 0xffff_ffff_ffff_ffff * 0x1_0000_0000) by (nonlinear_arith)
            requires
                0 <= old <= 0xffff_ffff_ffff_ffff,
                0 <= one_minus <= 0x1_0000_0000,
        ;
    }
    let num: u128 = sample as u128 * a as u128 + old as u128 * one_minus as u128;
    (num / ONE as u128) as u64
}

impl EntropyWatcher {
    /// The weighted sum of the evidence, with 32 fractional bits: half of it
    /// entropy, three tenths rewrites, two tenths files people pay for.
    pub open spec fn combined(&self) -> int {
        let ent = if self.entropy_ewma > FULL_EVIDENCE {
            FULL_EVIDENCE as int
        } else {
            self.entropy_ewma as int
        };
        ((ent * ONE) / FULL_EVIDENCE as int) / 2 + (self.rewrite_ewma as int / 10) * 3 + (
        self.lure_ewma as int / 10) * 2
    }

    /// The verdict, in hundredths of a percent.
    pub open spec fn score(&self) -> int {
        let bps = (self.combined() * 10_000) / ONE as int;
        if bps > 10_000 {
            10_000
        } else {
            bps
        }
    }

    /// A watcher that has seen nothing.
    #[must_use]
    pub fn new() -> (r: Self)
        ensures
            r == fresh_watcher(),
    {
        EntropyWatcher { entropy_ewma: 0, rewrite_ewma: 0, lure_ewma: 0, alpha: ONE / 4 }
    }

    /// Takes one window: how many writes there were, how many of them rewrote
    /// files, how many went to files people pay for, and a sample of what was
    /// written.
    pub fn observe(&mut self, writes: u64, rewrites: u64, lures: u64, sample: &[u8])
        requires
            forall|b: u8| #[trigger] count(sample@, b) <= u32::MAX,
        ensures
            *final(self) == after_window(
                *old(self),
                (Window { writes, rewrites, lures, sample: sample@ }),
            ),
    {
        if writes == 0 {
            return ;
        }
        let ent = entropy_bits_per_byte(sample);
        self.entropy_ewma = ewma(self.entropy_ewma, ent, self.alpha);
        let rewrite_ratio: u64 = num::part_of(rewrites, ONE, writes);
        self.rewrite_ewma = ewma(self.rewrite_ewma, rewrite_ratio, self.alpha);
        let lure_ratio: u64 = num::part_of(lures, ONE, writes);
        self.lure_ewma = ewma(self.lure_ewma, lure_ratio, self.alpha);
    }

    /// The verdict on all windows so far.
    #[must_use]
    pub fn suspicion(&self) -> (r: Suspicion)
        ensures
            r.score_bps == self.score(),
            r.freeze_recommended == (self.score() >= FREEZE_BPS),
            r.score_bps <= 10_000,
    {
        let ent: u64 = if self.entropy_ewma > FULL_EVIDENCE {
            FULL_EVIDENCE
        } else {
            self.entropy_ewma
        };
        let ent_evidence: u64 = ((ent as u128 * ONE as u128) / FULL_EVIDENCE as u128) as u64;
        let combined: u64 = ent_evidence / 2 + (self.rewrite_ewma / 10) * 3 + (self.lure_ewma / 10)
            * 2;
        let bps: u128 = (combined as u128 * 10_000) / ONE as u128;
        let score_bps: u32 = if bps > 10_000 {
            10_000
        } else {
            bps as u32
        };
        Suspicion { score_bps, freeze_recommended: score_bps >= FREEZE_BPS }
    }

    /// The averages of entropy, rewrites and files people pay for.
    #[must_use]
    pub fn evidence(&self) -> (r: (u64, u64, u64))
        ensures
            r == (self.entropy_ewma, self.rewrite_ewma, self.lure_ewma),
    {
        (self.entropy_ewma, self.rewrite_ewma, self.lure_ewma)
    }
}

impl Default for EntropyWatcher {
    fn default() -> (r: Self)
        ensures
            r == fresh_watcher(),
    {
        EntropyWatcher::new()
    }
}

/// Data that merely looks random, such as compressed data, never freezes
/// snapshots: without rewrites of files that people pay for the verdict is at
/// most the weight of the entropy.
pub proof fn entropy_alone_never_freezes(w: EntropyWatcher)
    requires
        w.rewrite_ewma == 0,
        w.lure_ewma == 0,
    ensures
        w.score() <= 5_000,
        w.score() < FREEZE_BPS,
{
}

/// The verdict grows with the evidence.
pub proof fn more_evidence_scores_no_lower(a: EntropyWatcher, b: EntropyWatcher)
    requires
        a.entropy_ewma <= b.entropy_ewma,
        a.rewrite_ewma <= b.rewrite_ewma,
        a.lure_ewma <= b.lure_ewma,
    ensures
        a.score() <= b.score(),
{
}

/// A part of a total is no more than one, and nothing of it is nothing.
proof fn lemma_ratio(part: u64, total: u64)
    requires
        total > 0,
    ensures
        0 <= ratio(part, total) <= u64::MAX,
        part <= total ==> ratio(part, total) <= ONE,
        part == 0 ==> ratio(part, total) == 0,
{
    let q = part * ONE / total as int;
    assert(0 <= q) by (nonlinear_arith)
        requires
            q == part * ONE / total as int,
            total > 0,
    ;
    if part <= total {
        assert(q <= ONE) by (nonlinear_arith)
            requires
                q == part * ONE / total as int,
                0 <= part <= total,
                total > 0,
        ;
    }
}

/// Over any history of windows in which no more writes rewrote files, or went
/// to files people pay for, than there were writes: both parts average to at
/// most one, and to nothing if there was nothing of either; the verdict is at
/// most its full scale, and without rewrites and such files at most the weight
/// of the entropy, so that it freezes nothing; a watcher that saw nothing
/// suspects nothing; and a window without writes changes no verdict.
pub proof fn verdict_is_bounded(windows: Seq<Window>, empty: Window)
    requires
        forall|i: int|
            0 <= i < windows.len() ==> (#[trigger] windows[i]).rewrites <= windows[i].writes
                && windows[i].lures <= windows[i].writes,
        empty.writes == 0,
    ensures
        watched(windows).rewrite_ewma <= ONE,
        watched(windows).lure_ewma <= ONE,
        0 <= watched(windows).score() <= 10_000,
        (forall|i: int|
            0 <= i < windows.len() ==> (#[trigger] windows[i]).rewrites == 0 && windows[i].lures
                == 0) ==> watched(windows).score() <= 5_000 && watched(windows).score()
            < FREEZE_BPS,
        windows.len() == 0 ==> watched(windows).score() == 0,
        watched(windows.push(empty)) == watched(windows),
{
    lemma_parts_bounded(windows);
    assert(windows.push(empty).drop_last() =~= windows);
    if forall|i: int|
        0 <= i < windows.len() ==> (#[trigger] windows[i]).rewrites == 0 && windows[i].lures == 0 {
        entropy_alone_never_freezes(watched(windows));
    }
}

/// What a history of windows averages to.
proof fn lemma_parts_bounded(windows: Seq<Window>)
    requires
        forall|i: int|
            0 <= i < windows.len() ==> (#[trigger] windows[i]).rewrites <= windows[i].writes
                && windows[i].lures <= windows[i].writes,
    ensures
        watched(windows).alpha == ONE / 4,
        watched(windows).rewrite_ewma <= ONE,
        watched(windows).lure_ewma <= ONE,
        (forall|i: int|
            0 <= i < windows.len() ==> (#[trigger] windows[i]).rewrites == 0 && windows[i].lures
                == 0) ==> watched(windows).rewrite_ewma == 0 && watched(windows).lure_ewma == 0,
    decreases windows.len(),
{
    if windows.len() > 0 {
        let rest = windows.drop_last();
        let win = windows.last();
        assert(win == windows[windows.len() - 1]);
        assert forall|i: int| 0 <= i < rest.len() implies #[trigger] rest[i] == windows[i] by {}
        lemma_parts_bounded(rest);
        let w = watched(rest);
        if win.writes > 0 {
            lemma_ratio(win.rewrites, win.writes);
            lemma_ratio(win.lures, win.writes);
            average_lies_between(w.rewrite_ewma, ratio(win.rewrites, win.writes) as u64, w.alpha);
            average_lies_between(w.lure_ewma, ratio(win.lures, win.writes) as u64, w.alpha);
        }
    }
}

/// The logarithm of one is nothing, and doubling adds one.
pub proof fn doubling_adds_one_bit(x: int)
    requires
        x >= 1,
    ensures
        log2_fixed(1) == 0,
        log2_fixed(2 * x) == log2_fixed(x) + 65_536,
{
    lemma_log2_step(x);
    lemma_floor_log2(x);
    let f = floor_log2(x);
    let base = pow2(f) as int;
    assert(floor_log2(2 * x) == f + 1);
    vstd::arithmetic::power2::lemma_pow2_unfold(f + 1);
    assert(pow2(f + 1) == 2 * base);
    assert(((2 * x - 2 * base) * 16) / (2 * base) == ((x - base) * 16) / base) by (nonlinear_arith)
        requires
            base > 0,
    ;
    vstd::arithmetic::power2::lemma2_to64();
    assert(floor_log2(1) == 0);
    assert(log2_step(1) == 0);
    assert(FRACT16@[0] == 0);
}

/// The weights of the evidence: half of the score for the entropy of what is
/// written, up to 7.5 bits, three tenths for rewriting and two tenths for bait,
/// each to within two hundredths of a percent.
pub proof fn evidence_has_its_weight(w: EntropyWatcher)
    ensures
        w.rewrite_ewma == 0 && w.lure_ewma == 0 ==> {
            let e = if w.entropy_ewma > 32_212_254_720 {
                32_212_254_720int
            } else {
                w.entropy_ewma as int
            };
            5_000 * e / 32_212_254_720 - 2 <= w.score() <= 5_000 * e / 32_212_254_720
        },
        w.entropy_ewma == 0 && w.lure_ewma == 0 && w.rewrite_ewma <= 4_294_967_296 ==> 3_000
            * w.rewrite_ewma / 4_294_967_296 - 2 <= w.score() <= 3_000 * w.rewrite_ewma
            / 4_294_967_296,
        w.entropy_ewma == 0 && w.rewrite_ewma == 0 && w.lure_ewma <= 4_294_967_296 ==> 2_000
            * w.lure_ewma / 4_294_967_296 - 2 <= w.score() <= 2_000 * w.lure_ewma / 4_294_967_296,
{
}

/// A sample that counts in full replaces the average, and one that counts for
/// nothing leaves it.
pub proof fn average_moves_by_its_share(before: u64, sample: u64)
    ensures
        averaged(before, sample as int, 4_294_967_296) == sample,
        averaged(before, sample as int, 0) == before,
{
    assert(averaged(before, sample as int, 4_294_967_296) == (sample * 4_294_967_296 + before * 0)
        / 4_294_967_296);
    assert(averaged(before, sample as int, 0) == (sample * 0 + before * 4_294_967_296)
        / 4_294_967_296);
}

/// A sample that counts for a quarter moves the average by a quarter of the
/// way.
pub proof fn average_moves_by_a_quarter(before: u64, sample: u64)
    ensures
        averaged(before, sample as int, 1_073_741_824) == (sample + 3 * before) / 4,
{
    let n = sample + 3 * before;
    let k = n / 4;
    let r = n % 4;
    assert(sample * 1_073_741_824 + before * 3_221_225_472 == 4_294_967_296 * k + 1_073_741_824 * r);
}

/// A window moves the average of the entropy by that of the sample, and the
/// averages of rewriting and of bait by their share of the writes.
pub proof fn window_moves_the_averages(w: EntropyWatcher, win: Window)
    requires
        win.writes > 0,
        win.rewrites <= win.writes,
        win.lures <= win.writes,
        w.alpha == 4_294_967_296,
    ensures
        ({
            let after = after_window(w, win);
            &&& after.rewrite_ewma == win.rewrites * 4_294_967_296 / (win.writes as int)
            &&& after.lure_ewma == win.lures * 4_294_967_296 / (win.writes as int)
            &&& win.sample.len() == 0 ==> after.entropy_ewma == 0
            &&& win.sample.len() > 0 && 0 <= entropy(win.sample) ==> after.entropy_ewma == entropy(
                win.sample,
            )
            &&& after.alpha == w.alpha
        }),
{
    lemma_ratio(win.rewrites, win.writes);
    lemma_ratio(win.lures, win.writes);
    average_moves_by_its_share(w.rewrite_ewma, ratio(win.rewrites, win.writes) as u64);
    average_moves_by_its_share(w.lure_ewma, ratio(win.lures, win.writes) as u64);
    average_moves_by_its_share(w.entropy_ewma, 0);
    if win.sample.len() > 0 && 0 <= entropy(win.sample) {
        average_moves_by_its_share(w.entropy_ewma, entropy(win.sample) as u64);
    }
}

/// A path has an extension if it ends with a dot and the extension, whatever
/// stands before; and not if another character stands where the dot belongs.
/// Capital letters count as their small ones.
pub proof fn extension_follows_the_last_dot(stem: Seq<char>, c: char, ext: Seq<char>, i: int)
    ensures
        has_extension(stem + seq![c] + ext, ext) <==> c == '.',
        !has_extension(ext, ext),
        lower('A') == 'a' && lower('Z') == 'z' && lower('a') == 'a' && lower('0') == '0',
        c == '.' && 0 <= i < ext.len() && 'A' <= ext[i] <= 'Z' ==> has_extension(
            stem + seq![c] + ext,
            ext.update(i, (ext[i] as u32 + 32) as char),
        ),
{
    let path = stem + seq![c] + ext;
    let at = path.len() - ext.len();
    assert(path[at - 1] == c);
    assert forall|k: int| 0 <= k < ext.len() implies #[trigger] path[at + k] == ext[k] by {
    }
    assert(lower('A') == 'a' && lower('Z') == 'z');
    if c == '.' && 0 <= i < ext.len() && 'A' <= ext[i] <= 'Z' {
        let small = ext.update(i, (ext[i] as u32 + 32) as char);
        assert forall|k: int| 0 <= k < small.len() implies #[trigger] lower(path[at + k]) == lower(
            small[k],
        ) by {
            assert(path[at + k] == ext[k]);
        }
    }
}

/// A new watcher has seen nothing, and each window counts for a quarter.
pub proof fn new_watcher_has_seen_nothing()
    ensures
        fresh_watcher().entropy_ewma == 0,
        fresh_watcher().rewrite_ewma == 0,
        fresh_watcher().lure_ewma == 0,
        fresh_watcher().alpha == 0x4000_0000,
        watched(Seq::empty()) == fresh_watcher(),
{
}

} // verus!
