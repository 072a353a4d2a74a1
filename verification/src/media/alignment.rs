//! Keeps I/O aligned to what the device likes: at allocation by covering whole
//! units, at submission by cutting a range so that its middle is aligned.

use crate::common::text;
use vstd::prelude::*;
use vstd::string::StringExecFns;

verus! {

/// Bytes in a block.
pub const LBA_BLOCK_BYTES: u64 = 4096;

/// What a device says of itself.
#[derive(Debug, Clone, Copy, PartialEq, Eq, Structural)]
pub struct DeviceGeometry {
    pub size_bytes: u64,
    pub logical_sector_size: u32,
    pub physical_sector_size: u32,
    pub optimal_io_size: Option<u32>,
}

/// What alignment has cost so far. The counters wrap around.
#[derive(Debug, Clone, Copy, PartialEq, Eq, Structural)]
pub struct AlignmentCounters {
    /// Blocks added by rounding up at allocation.
    pub allocation_padding_blocks: u64,
    /// Aligned middles that were cut out of a range.
    pub descriptors_split: u64,
    /// Ranges that went through a bounce buffer.
    pub bounce_buffer_slow_path: u64,
    /// Ranges that were aligned as they came.
    pub aligned_submissions: u64,
}

impl Default for AlignmentCounters {
    fn default() -> (r: Self)
        ensures
            r == (AlignmentCounters {
                allocation_padding_blocks: 0,
                descriptors_split: 0,
                bounce_buffer_slow_path: 0,
                aligned_submissions: 0,
            }),
    {
        AlignmentCounters {
            allocation_padding_blocks: 0,
            descriptors_split: 0,
            bounce_buffer_slow_path: 0,
            aligned_submissions: 0,
        }
    }
}

/// The unit that a device likes.
#[derive(Debug, Clone, Copy, PartialEq, Eq, PartialOrd, Ord, Structural)]
pub enum AlignmentClass {
    K4,
    K16,
    K64,
    /// Nothing better than a sector is known.
    Sector,
}

/// The class of a number of bytes.
pub open spec fn class_of_bytes(b: u64) -> AlignmentClass {
    if b <= 512 {
        AlignmentClass::Sector
    } else if b <= 4096 {
        AlignmentClass::K4
    } else if b <= 16_384 {
        AlignmentClass::K16
    } else {
        AlignmentClass::K64
    }
}

impl AlignmentClass {
    /// The unit, in bytes.
    pub open spec fn unit(self) -> int {
        match self {
            AlignmentClass::K4 => 4096,
            AlignmentClass::K16 => 16_384,
            AlignmentClass::K64 => 65_536,
            AlignmentClass::Sector => 512,
        }
    }

    /// The unit, in bytes.
    #[must_use]
    pub fn bytes(self) -> (r: u64)
        ensures
            r == self.unit(),
    {
        match self {
            AlignmentClass::K4 => 4096,
            AlignmentClass::K16 => 16_384,
            AlignmentClass::K64 => 65_536,
            AlignmentClass::Sector => 512,
        }
    }

    /// The name of the class.
    #[must_use]
    pub fn name(self) -> (r: &'static str)
        ensures
            r@ == (match self {
                AlignmentClass::K4 => "4K"@,
                AlignmentClass::K16 => "16K"@,
                AlignmentClass::K64 => "64K"@,
                AlignmentClass::Sector => "512B"@,
            }),
    {
        match self {
            AlignmentClass::K4 => "4K",
            AlignmentClass::K16 => "16K",
            AlignmentClass::K64 => "64K",
            AlignmentClass::Sector => "512B",
        }
    }

    /// The class of a device: by the I/O size that it likes, if it says so,
    /// else by its larger sector size; never below a block.
    #[must_use]
    pub fn from_geometry(geo: &DeviceGeometry) -> (r: Self)
        ensures
            ({
                let wanted: u64 = match geo.optimal_io_size {
                    Some(n) => n as u64,
                    None => if geo.physical_sector_size > geo.logical_sector_size {
                        geo.physical_sector_size as u64
                    } else {
                        geo.logical_sector_size as u64
                    },
                };
                r == class_of_bytes(
                    if wanted > LBA_BLOCK_BYTES {
                        wanted
                    } else {
                        LBA_BLOCK_BYTES
                    },
                )
            }),
            r != AlignmentClass::Sector,
    {
        let wanted: u64 = match geo.optimal_io_size {
            Some(n) => n as u64,
            None => if geo.physical_sector_size > geo.logical_sector_size {
                geo.physical_sector_size as u64
            } else {
                geo.logical_sector_size as u64
            },
        };
        let b: u64 = if wanted > LBA_BLOCK_BYTES {
            wanted
        } else {
            LBA_BLOCK_BYTES
        };
        Self::from_bytes(b)
    }

    /// The class of a number of bytes.
    #[must_use]
    pub fn from_bytes(b: u64) -> (r: Self)
        ensures
            r == class_of_bytes(b),
    {
        if b <= 512 {
            AlignmentClass::Sector
        } else if b <= 4096 {
            AlignmentClass::K4
        } else if b <= 16_384 {
            AlignmentClass::K16
        } else {
            AlignmentClass::K64
        }
    }
}

/// How many units cover `x`.
pub open spec fn units_over(x: int, unit: int) -> int {
    (x + unit - 1) / unit
}

/// Where a request ends, as far as numbers reach.
pub open spec fn request_end(offset: u64, len: u64) -> int {
    if offset + len > u64::MAX {
        u64::MAX as int
    } else {
        offset + len
    }
}

/// How many units cover a number of bytes.
fn div_ceil(x: u64, unit: u64) -> (r: u64)
    requires
        unit > 0,
    ensures
        r == units_over(x as int, unit as int),
{
    let q: u64 = x / unit;
    proof {
        vstd::arithmetic::div_mod::lemma_fundamental_div_mod(x as int, unit as int);
        vstd::arithmetic::div_mod::lemma_mod_bound(x as int, unit as int);
        let (xi, ui, qi, ri) = (x as int, unit as int, q as int, x as int % unit as int);
        if ri == 0 {
            assert((xi + ui - 1) / ui == qi) by (nonlinear_arith)
                requires
                    xi == ui * qi,
                    ui > 0,
            ;
        } else {
            assert((xi + ui - 1) / ui == qi + 1) by (nonlinear_arith)
                requires
                    xi == ui * qi + ri,
                    0 < ri < ui,
            ;
            assert(qi < xi) by (nonlinear_arith)
                requires
                    xi == ui * qi + ri,
                    0 < ri < ui,
                    0 <= qi,
            ;
        }
    }
    if x % unit == 0 {
        q
    } else {
        q + 1
    }
}

proof fn lemma_units(x: int, u: int)
    by (nonlinear_arith)
    requires
        0 <= x,
        0 < u,
    ensures
        0 <= (x / u) * u <= x,
        x <= ((x + u - 1) / u) * u,
{
}

/// The whole units that cover a request: where they begin, their bytes, and
/// the blocks that they add.
#[must_use]
pub fn round_allocation(
    class: AlignmentClass,
    offset: u64,
    len: u64,
    counters: &mut AlignmentCounters,
) -> (r: (u64, u64, u64))
    requires
        units_over(request_end(offset, len), class.unit()) * class.unit() <= u64::MAX,
    ensures
        ({
            let unit = class.unit();
            let start = (offset as int / unit) * unit;
            let end = units_over(request_end(offset, len), unit) * unit;
            let added = if end - start > len {
                end - start - len
            } else {
                0
            };
            let padding = units_over(added, LBA_BLOCK_BYTES as int);
            &&& r.0 == start
            &&& r.1 == end - start
            &&& r.2 == padding
            &&& *final(counters) == (AlignmentCounters {
                allocation_padding_blocks: old(counters).allocation_padding_blocks.wrapping_add(
                    padding as u64,
                ),
                ..*old(counters)
            })
        }),
{
    let unit = class.bytes();
    proof {
        lemma_units(offset as int, unit as int);
        lemma_units(request_end(offset, len), unit as int);
    }
    let start: u64 = (offset / unit) * unit;
    let end: u64 = div_ceil(offset.saturating_add(len), unit) * unit;
    let aligned_len: u64 = end - start;
    let padding: u64 = div_ceil(aligned_len.saturating_sub(len), LBA_BLOCK_BYTES);
    counters.allocation_padding_blocks = counters.allocation_padding_blocks.wrapping_add(padding);
    (start, aligned_len, padding)
}

/// The allocation covers the request, begins and ends on unit boundaries, and
/// is no larger than that takes.
pub proof fn allocation_covers_request(class: AlignmentClass, offset: u64, len: u64)
    requires
        offset + len <= u64::MAX,
    ensures
        ({
            let unit = class.unit();
            let start = (offset as int / unit) * unit;
            let end = units_over(request_end(offset, len), unit) * unit;
            &&& start <= offset
            &&& offset + len <= end
            &&& offset - start < unit
            &&& end - (offset + len) < unit
        }),
{
}

/// The part of a range before the first unit boundary in it.
pub open spec fn head_len(unit: int, offset: u64, len: u64) -> int {
    let into = unit - offset as int % unit;
    if offset as int % unit == 0 {
        0
    } else if into < len {
        into
    } else {
        len as int
    }
}

/// The whole units of a range after its head.
pub open spec fn middle_len(unit: int, offset: u64, len: u64) -> int {
    ((len - head_len(unit, offset, len)) / unit) * unit
}

/// A segment, if it has any bytes.
pub open spec fn segment(at: int, len: int) -> Seq<(u64, u64)> {
    if len > 0 {
        seq![(at as u64, len as u64)]
    } else {
        Seq::empty()
    }
}

/// The range needs no cutting.
pub open spec fn is_aligned(class: AlignmentClass, offset: u64, len: u64) -> bool {
    class.unit() == 512 || (offset as int % class.unit() == 0 && len as int % class.unit() == 0)
}

/// The segments of a range: its head, its whole units, its tail.
pub open spec fn segments_of(class: AlignmentClass, offset: u64, len: u64) -> Seq<(u64, u64)> {
    let unit = class.unit();
    let head = head_len(unit, offset, len);
    let middle = middle_len(unit, offset, len);
    segment(offset as int, head) + segment(offset + head, middle) + segment(
        offset + head + middle,
        len - head - middle,
    )
}

/// Cuts a range into segments so that its whole units are one aligned
/// segment; also whether its ends need a bounce buffer.
#[must_use]
pub fn split_for_submission(
    class: AlignmentClass,
    offset: u64,
    len: u64,
    counters: &mut AlignmentCounters,
) -> (r: (Vec<(u64, u64)>, bool))
    requires
        is_aligned(class, offset, len) || offset + len <= u64::MAX,
    ensures
        if is_aligned(class, offset, len) {
            &&& r.0@ == seq![(offset, len)]
            &&& !r.1
            &&& *final(counters) == (AlignmentCounters {
                aligned_submissions: old(counters).aligned_submissions.wrapping_add(1),
                ..*old(counters)
            })
        } else {
            &&& r.0@ == segments_of(class, offset, len)
            &&& r.1 == (offset as int % class.unit() != 0 || len < class.unit())
            &&& *final(counters) == (AlignmentCounters {
                bounce_buffer_slow_path: if r.1 {
                    old(counters).bounce_buffer_slow_path.wrapping_add(1)
                } else {
                    old(counters).bounce_buffer_slow_path
                },
                descriptors_split: if middle_len(class.unit(), offset, len) > 0 {
                    old(counters).descriptors_split.wrapping_add(1)
                } else {
                    old(counters).descriptors_split
                },
                ..*old(counters)
            })
        },
{
    let unit = class.bytes();
    if unit == 512 || (offset % unit == 0 && len % unit == 0) {
        counters.aligned_submissions = counters.aligned_submissions.wrapping_add(1);
        let mut whole: Vec<(u64, u64)> = Vec::new();
        whole.push((offset, len));
        assert(whole@ =~= seq![(offset, len)]);
        return (whole, false);
    }
    let overhang: u64 = offset % unit;
    let needs_bounce = overhang != 0 || len < unit;
    if needs_bounce {
        counters.bounce_buffer_slow_path = counters.bounce_buffer_slow_path.wrapping_add(1);
    }
    let mut segments: Vec<(u64, u64)> = Vec::new();
    let head: u64 = if overhang == 0 {
        0
    } else if unit - overhang < len {
        unit - overhang
    } else {
        len
    };
    let middle: u64 = ((len - head) / unit) * unit;
    let tail: u64 = len - head - middle;
    if head > 0 {
        segments.push((offset, head));
    }
    if middle > 0 {
        segments.push((offset + head, middle));
        counters.descriptors_split = counters.descriptors_split.wrapping_add(1);
    }
    if tail > 0 {
        segments.push((offset + head + middle, tail));
    }
    assert(segments@ =~= segments_of(class, offset, len));
    (segments, needs_bounce)
}

/// Where segments end that begin at `at` and follow one another.
pub open spec fn tiles(segments: Seq<(u64, u64)>, at: int) -> Option<int>
    decreases segments.len(),
{
    if segments.len() == 0 {
        Some(at)
    } else if segments[0].0 == at {
        tiles(segments.drop_first(), at + segments[0].1)
    } else {
        None
    }
}

proof fn lemma_tiles_step(s: Seq<(u64, u64)>, rest: Seq<(u64, u64)>, at: int, len: int)
    requires
        0 <= at,
        0 <= len,
        at + len <= u64::MAX,
        s == segment(at, len) + rest,
    ensures
        tiles(s, at) == tiles(rest, at + len),
{
    if len > 0 {
        assert(s[0] == (at as u64, len as u64));
        assert(s.drop_first() =~= rest);
    } else {
        assert(s =~= rest);
    }
}

/// The segments of a range follow one another and make it up, there are at
/// most three, and all but the first and the last are made of whole units.
pub proof fn segments_tile_the_range(class: AlignmentClass, offset: u64, len: u64)
    requires
        offset + len <= u64::MAX,
    ensures
        ({
            let s = segments_of(class, offset, len);
            let unit = class.unit();
            let at = offset + head_len(unit, offset, len);
            let middle = middle_len(unit, offset, len);
            &&& s.len() <= 3
            &&& tiles(s, offset as int) == Some(offset + len)
            &&& middle % unit == 0
            &&& middle > 0 ==> at % unit == 0
            &&& head_len(unit, offset, len) < unit
            &&& len - head_len(unit, offset, len) - middle < unit
        }),
{
    let unit = class.unit();
    let head = head_len(unit, offset, len);
    let middle = middle_len(unit, offset, len);
    let tail = len - head - middle;
    assert(0 <= head <= len);
    assert(0 <= middle <= len - head);
    let s2 = segment(offset + head + middle, tail);
    let s1 = segment(offset + head, middle) + s2;
    let s = segments_of(class, offset, len);
    assert(s =~= segment(offset as int, head) + s1);
    lemma_tiles_step(s, s1, offset as int, head);
    lemma_tiles_step(s1, s2, offset + head, middle);
    assert(s2 =~= s2 + Seq::empty());
    lemma_tiles_step(s2, Seq::empty(), offset + head + middle, tail);
}

/// The counters in one line.
pub fn health_summary(counters: &AlignmentCounters) -> (r: String)
    ensures
        r@ == "aligned="@ + text::dec_text(counters.aligned_submissions as nat) + " split="@
            + text::dec_text(counters.descriptors_split as nat) + " bounce="@ + text::dec_text(
            counters.bounce_buffer_slow_path as nat,
        ) + " padding_blocks="@ + text::dec_text(counters.allocation_padding_blocks as nat),
{
    let mut s = String::from_str("aligned=");
    s.append(text::dec(counters.aligned_submissions).as_str());
    s.append(" split=");
    s.append(text::dec(counters.descriptors_split).as_str());
    s.append(" bounce=");
    s.append(text::dec(counters.bounce_buffer_slow_path).as_str());
    s.append(" padding_blocks=");
    s.append(text::dec(counters.allocation_padding_blocks).as_str());
    s
}

/// The class of a size is the smallest whose unit holds it, and the largest
/// class there is for what none of them holds. The units are what the classes
/// are named after.
pub proof fn class_is_the_smallest_that_fits(b: u64, other: AlignmentClass)
    ensures
        b <= class_of_bytes(b).unit() || class_of_bytes(b) == AlignmentClass::K64,
        b <= other.unit() ==> class_of_bytes(b).unit() <= other.unit(),
        AlignmentClass::Sector.unit() == 512,
        AlignmentClass::K4.unit() == 4 * 1024,
        AlignmentClass::K16.unit() == 16 * 1024,
        AlignmentClass::K64.unit() == 64 * 1024,
{
}

/// A request is sent as it is if and only if it starts and ends on whole units;
/// a class of single sectors takes every request.
pub proof fn whole_units_are_aligned(class: AlignmentClass, offset: u64, len: u64, i: int, n: int)
    requires
        0 <= i,
        0 <= n,
    ensures
        offset == i * class.unit() && len == n * class.unit() ==> is_aligned(class, offset, len),
        is_aligned(AlignmentClass::Sector, offset, len),
        class != AlignmentClass::Sector && (offset as int % class.unit() != 0 || len as int
            % class.unit() != 0) ==> !is_aligned(class, offset, len),
{
    let unit = class.unit();
    vstd::arithmetic::div_mod::lemma_mod_multiples_basic(i, unit);
    vstd::arithmetic::div_mod::lemma_mod_multiples_basic(n, unit);
}

} // verus!
