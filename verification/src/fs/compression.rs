//! Compression of blocks. Any bytes can be compressed; decompressing bytes
//! that were not compressed, or were damaged since, is an error.

use crate::codec;
use crate::error::{Error, ErrorKind};
use flate2::read::DeflateDecoder;
use flate2::write::DeflateEncoder;
use flate2::Compression;
use std::io::{Read, Write};
use vstd::prelude::*;

verus! {

/// The level that zstd compresses at, unless said otherwise.
pub const DEFAULT_ZSTD_LEVEL: i32 = 3;

/// The error of `lz4_flex::block::decompress_size_prepended`.
#[verifier::external_type_specification]
#[verifier::external_body]
pub struct ExDecompressError(lz4_flex::block::DecompressError);

/// The error of the readers and writers of `zstd` and `flate2`.
#[verifier::external_type_specification]
#[verifier::external_body]
pub struct ExIoError(std::io::Error);

/// What `lz4_flex::block::decompress_size_prepended` makes of bytes; `None` if
/// it fails.
pub uninterp spec fn lz4_decoded(data: Seq<u8>) -> Option<Seq<u8>>;

/// What `zstd::stream::decode_all` makes of bytes; `None` if it fails.
pub uninterp spec fn zstd_decoded(data: Seq<u8>) -> Option<Seq<u8>>;

/// What `flate2::read::DeflateDecoder` makes of bytes when it is read to its
/// end; `None` if that fails.
pub uninterp spec fn deflate_decoded(data: Seq<u8>) -> Option<Seq<u8>>;

/// Whether `lz4_flex::block::compress_prepend_size` may give `out` for `data`.
/// What it gives can differ from machine to machine.
pub uninterp spec fn lz4_encodes(data: Seq<u8>, out: Seq<u8>) -> bool;

/// Whether `zstd::stream::encode_all` may give `out` for `data` at a level.
/// What it gives can differ from build to build of the library.
pub uninterp spec fn zstd_encodes(data: Seq<u8>, level: i32, out: Seq<u8>) -> bool;

/// Whether `flate2::write::DeflateEncoder`, at its usual level, may give `out`
/// for `data`. What it gives can differ from build to build of the library.
pub uninterp spec fn deflate_encodes(data: Seq<u8>, out: Seq<u8>) -> bool;

/// The buffer that LZ4 sets up for so many bytes is one that a vector can have.
pub open spec fn lz4_fits(len: nat) -> bool {
    len * 110 <= u64::MAX && 24 + len * 110 / 100 <= isize::MAX
}

/// The length that stands in front of an LZ4 block.
pub open spec fn lz4_length(data: Seq<u8>) -> nat {
    codec::from_le(data.subrange(0, 4))
}

/// Calls `lz4_flex::block::compress_prepend_size`. The result begins with the
/// length of the input in four bytes, and decompressing it gives the input
/// back, if the length fits. The other bytes are only said to be some that the
/// call may give: which matches are found depends on the word size of the
/// machine. It reserves a tenth more than the input, and 24 bytes.
#[verifier::external_body]
fn lz4_compress(data: &[u8]) -> (r: Vec<u8>)
    requires
        lz4_fits(data@.len()),
    ensures
        lz4_encodes(data@, r@),
        data@.len() <= u32::MAX ==> r@.len() >= 4 && lz4_length(r@) == data@.len(),
        data@.len() <= u32::MAX ==> lz4_decoded(r@) == Some(data@),
{
    lz4_flex::block::compress_prepend_size(data)
}

/// Calls `lz4_flex::block::decompress_size_prepended`. It reserves as many
/// bytes as the length in front says, so that length has to be one that a
/// vector can have. The result is named; that is all that is said of it.
#[verifier::external_body]
fn lz4_decompress(data: &[u8]) -> (r: Result<Vec<u8>, lz4_flex::block::DecompressError>)
    requires
        data@.len() >= 4 ==> lz4_length(data@) <= isize::MAX,
    ensures
        match r {
            Ok(v) => lz4_decoded(data@) == Some(v@),
            Err(_) => lz4_decoded(data@) is None,
        },
{
    lz4_flex::block::decompress_size_prepended(data)
}

/// Calls `zstd::stream::encode_all`, from memory into memory, at a level that
/// zstd has, which cannot fail. The bytes are some that the call may give for
/// the data and the level, and decoding them gives the data back. A machine
/// without the memory to compress is left aside.
#[verifier::external_body]
fn zstd_encode(data: &[u8], level: i32) -> (r: Result<Vec<u8>, std::io::Error>)
    requires
        1 <= level <= 22,
    ensures
        r is Ok,
        zstd_encodes(data@, level, r->Ok_0@),
        zstd_decoded(r->Ok_0@) == Some(data@),
{
    zstd::stream::encode_all(data, level)
}

/// Calls `zstd::stream::decode_all`. The result is named; that is all that is
/// said of it. A machine without the memory for a window is left aside.
#[verifier::external_body]
fn zstd_decode(data: &[u8]) -> (r: Result<Vec<u8>, std::io::Error>)
    ensures
        match r {
            Ok(v) => zstd_decoded(data@) == Some(v@),
            Err(_) => zstd_decoded(data@) is None,
        },
{
    zstd::stream::decode_all(data)
}

/// Writes through `flate2::write::DeflateEncoder`, at the usual level, into
/// memory, which cannot fail. Inflating the result gives the input back. The
/// bytes are only said to be some that the call may give.
#[verifier::external_body]
fn deflate(data: &[u8]) -> (r: Vec<u8>)
    ensures
        deflate_encodes(data@, r@),
        deflate_decoded(r@) == Some(data@),
{
    let mut enc = DeflateEncoder::new(Vec::new(), Compression::default());
    enc.write_all(data).expect("in-memory deflate write cannot fail");
    enc.finish().expect("in-memory deflate finish cannot fail")
}

/// Reads `flate2::read::DeflateDecoder` to its end. The result is named; that
/// is all that is said of it.
#[verifier::external_body]
fn inflate(data: &[u8]) -> (r: Result<Vec<u8>, std::io::Error>)
    ensures
        match r {
            Ok(v) => deflate_decoded(data@) == Some(v@),
            Err(_) => deflate_decoded(data@) is None,
        },
{
    let mut out = Vec::new();
    match DeflateDecoder::new(data).read_to_end(&mut out) {
        Ok(_) => Ok(out),
        Err(e) => Err(e),
    }
}

/// A way to compress.
pub trait CompressionAlgorithm {
    /// The number of the algorithm.
    spec fn number(&self) -> u8;

    /// What decompressing bytes gives; `None` if they cannot be decompressed.
    spec fn decoded(&self, data: Seq<u8>) -> Option<Seq<u8>>;

    /// Whether so many bytes can be compressed.
    spec fn accepts(&self, len: nat) -> bool;

    /// Whether compressing `data` may give `out`.
    spec fn encodes(&self, data: Seq<u8>, out: Seq<u8>) -> bool;

    /// The longest input that decompressing gives back.
    spec fn reach(&self) -> nat;

    /// The number of the algorithm.
    fn id(&self) -> (r: u8)
        ensures
            r == self.number(),
    ;

    /// Compresses bytes.
    fn compress(&self, data: &[u8]) -> (r: Vec<u8>)
        requires
            self.accepts(data@.len()),
        ensures
            self.encodes(data@, r@),
            data@.len() <= self.reach() ==> self.decoded(r@) == Some(data@),
    ;

    /// Decompresses bytes.
    fn decompress(&self, data: &[u8]) -> (r: Result<Vec<u8>, Error>)
        ensures
            match self.decoded(data@) {
                Some(d) => r matches Ok(v) && v@ == d,
                None => r matches Err(e) && e.kind == ErrorKind::InvalidData,
            },
    ;
}

/// LZ4, with the length in front.
pub struct Lz4;

/// Zstandard.
pub struct Zstd;

/// Deflate.
pub struct Deflate;

/// A length in front of an LZ4 block that no vector can have.
pub open spec fn lz4_too_long(data: Seq<u8>) -> bool {
    data.len() >= 4 && lz4_length(data) > isize::MAX
}

impl CompressionAlgorithm for Lz4 {
    open spec fn number(&self) -> u8 {
        1
    }

    open spec fn decoded(&self, data: Seq<u8>) -> Option<Seq<u8>> {
        if lz4_too_long(data) {
            None
        } else {
            lz4_decoded(data)
        }
    }

    open spec fn accepts(&self, len: nat) -> bool {
        lz4_fits(len)
    }

    open spec fn encodes(&self, data: Seq<u8>, out: Seq<u8>) -> bool {
        lz4_encodes(data, out)
    }

    open spec fn reach(&self) -> nat {
        if isize::MAX < u32::MAX {
            isize::MAX as nat
        } else {
            u32::MAX as nat
        }
    }

    fn id(&self) -> (r: u8) {
        1
    }

    fn compress(&self, data: &[u8]) -> (r: Vec<u8>) {
        lz4_compress(data)
    }

    fn decompress(&self, data: &[u8]) -> (r: Result<Vec<u8>, Error>) {
        if data.len() >= 4 {
            let length: u128 = codec::get_le(data, 0, 4);
            if length > isize::MAX as u128 {
                return Err(Error::new(ErrorKind::InvalidData, "LZ4 decompress failed"));
            }
        }
        match lz4_decompress(data) {
            Ok(v) => Ok(v),
            Err(_) => Err(Error::new(ErrorKind::InvalidData, "LZ4 decompress failed")),
        }
    }
}

impl CompressionAlgorithm for Zstd {
    open spec fn number(&self) -> u8 {
        2
    }

    open spec fn decoded(&self, data: Seq<u8>) -> Option<Seq<u8>> {
        zstd_decoded(data)
    }

    open spec fn accepts(&self, len: nat) -> bool {
        true
    }

    open spec fn encodes(&self, data: Seq<u8>, out: Seq<u8>) -> bool {
        zstd_encodes(data, DEFAULT_ZSTD_LEVEL, out)
    }

    open spec fn reach(&self) -> nat {
        usize::MAX as nat
    }

    fn id(&self) -> (r: u8) {
        2
    }

    fn compress(&self, data: &[u8]) -> (r: Vec<u8>)
        ensures
            self.decoded(r@) == Some(data@),
    {
        zstd_compress_at_level(data, DEFAULT_ZSTD_LEVEL)
    }

    fn decompress(&self, data: &[u8]) -> (r: Result<Vec<u8>, Error>) {
        zstd_decompress(data)
    }
}

impl CompressionAlgorithm for Deflate {
    open spec fn number(&self) -> u8 {
        3
    }

    open spec fn decoded(&self, data: Seq<u8>) -> Option<Seq<u8>> {
        deflate_decoded(data)
    }

    open spec fn accepts(&self, len: nat) -> bool {
        true
    }

    open spec fn encodes(&self, data: Seq<u8>, out: Seq<u8>) -> bool {
        deflate_encodes(data, out)
    }

    open spec fn reach(&self) -> nat {
        usize::MAX as nat
    }

    fn id(&self) -> (r: u8) {
        3
    }

    fn compress(&self, data: &[u8]) -> (r: Vec<u8>)
        ensures
            self.decoded(r@) == Some(data@),
    {
        deflate(data)
    }

    fn decompress(&self, data: &[u8]) -> (r: Result<Vec<u8>, Error>) {
        match inflate(data) {
            Ok(v) => Ok(v),
            Err(_) => Err(Error::new(ErrorKind::InvalidData, "Deflate decompress failed")),
        }
    }
}

/// The level that zstd can use.
pub open spec fn usable_level(level: i32) -> i32 {
    if level < 1 {
        1
    } else if level > 22 {
        22
    } else {
        level
    }
}

fn clamp_level(level: i32) -> (r: i32)
    ensures
        r == usable_level(level),
        1 <= r <= 22,
{
    if level < 1 {
        1
    } else if level > 22 {
        22
    } else {
        level
    }
}

/// How a volume compresses.
#[derive(Debug, Clone, Copy, PartialEq, Eq, Structural)]
pub struct CompressionSettings {
    pub level: i32,
}

impl Default for CompressionSettings {
    fn default() -> (r: Self)
        ensures
            r.level == DEFAULT_ZSTD_LEVEL,
    {
        CompressionSettings { level: DEFAULT_ZSTD_LEVEL }
    }
}

/// Sets the level that zstd compresses at.
pub fn set_zstd_level(settings: &mut CompressionSettings, level: i32)
    ensures
        final(settings).level == usable_level(level),
{
    settings.level = clamp_level(level);
}

/// The level that zstd compresses at.
pub fn zstd_level(settings: &CompressionSettings) -> (r: i32)
    ensures
        r == settings.level,
{
    settings.level
}

/// What a compression comes to: the bytes that it gave, or the data as it is.
pub fn or_unchanged(encoded: Option<Vec<u8>>, data: &[u8]) -> (r: Vec<u8>)
    ensures
        r@ == (match encoded {
            Some(v) => v@,
            None => data@,
        }),
{
    match encoded {
        Some(v) => v,
        None => vstd::slice::slice_to_vec(data),
    }
}

/// Compresses with zstd at a level, the nearest one that zstd has.
pub fn zstd_compress_at_level(data: &[u8], level: i32) -> (r: Vec<u8>)
    ensures
        zstd_encodes(data@, usable_level(level), r@),
        zstd_decoded(r@) == Some(data@),
{
    match zstd_encode(data, clamp_level(level)) {
        Ok(v) => or_unchanged(Some(v), data),
        Err(_) => or_unchanged(None, data),
    }
}

/// Decompresses with zstd.
pub fn zstd_decompress(data: &[u8]) -> (r: Result<Vec<u8>, Error>)
    ensures
        match zstd_decoded(data@) {
            Some(d) => r matches Ok(v) && v@ == d,
            None => r matches Err(e) && e.kind == ErrorKind::InvalidData,
        },
{
    match zstd_decode(data) {
        Ok(v) => Ok(v),
        Err(_) => Err(Error::new(ErrorKind::InvalidData, "Zstd decompress failed")),
    }
}

/// One of the algorithms.
pub enum Algorithm {
    Lz4(Lz4),
    Zstd(Zstd),
    Deflate(Deflate),
}

impl CompressionAlgorithm for Algorithm {
    open spec fn number(&self) -> u8 {
        match self {
            Algorithm::Lz4(a) => a.number(),
            Algorithm::Zstd(a) => a.number(),
            Algorithm::Deflate(a) => a.number(),
        }
    }

    open spec fn decoded(&self, data: Seq<u8>) -> Option<Seq<u8>> {
        match self {
            Algorithm::Lz4(a) => a.decoded(data),
            Algorithm::Zstd(a) => a.decoded(data),
            Algorithm::Deflate(a) => a.decoded(data),
        }
    }

    open spec fn accepts(&self, len: nat) -> bool {
        match self {
            Algorithm::Lz4(a) => a.accepts(len),
            Algorithm::Zstd(a) => a.accepts(len),
            Algorithm::Deflate(a) => a.accepts(len),
        }
    }

    open spec fn encodes(&self, data: Seq<u8>, out: Seq<u8>) -> bool {
        match self {
            Algorithm::Lz4(a) => a.encodes(data, out),
            Algorithm::Zstd(a) => a.encodes(data, out),
            Algorithm::Deflate(a) => a.encodes(data, out),
        }
    }

    open spec fn reach(&self) -> nat {
        match self {
            Algorithm::Lz4(a) => a.reach(),
            Algorithm::Zstd(a) => a.reach(),
            Algorithm::Deflate(a) => a.reach(),
        }
    }

    fn id(&self) -> (r: u8) {
        match self {
            Algorithm::Lz4(a) => a.id(),
            Algorithm::Zstd(a) => a.id(),
            Algorithm::Deflate(a) => a.id(),
        }
    }

    fn compress(&self, data: &[u8]) -> (r: Vec<u8>) {
        match self {
            Algorithm::Lz4(a) => a.compress(data),
            Algorithm::Zstd(a) => a.compress(data),
            Algorithm::Deflate(a) => a.compress(data),
        }
    }

    fn decompress(&self, data: &[u8]) -> (r: Result<Vec<u8>, Error>) {
        match self {
            Algorithm::Lz4(a) => a.decompress(data),
            Algorithm::Zstd(a) => a.decompress(data),
            Algorithm::Deflate(a) => a.decompress(data),
        }
    }
}

/// The algorithm of a number; `None` if there is none.
pub open spec fn algorithm_of(id: u8) -> Option<Algorithm> {
    if id == 1 {
        Some(Algorithm::Lz4(Lz4))
    } else if id == 2 {
        Some(Algorithm::Zstd(Zstd))
    } else if id == 3 {
        Some(Algorithm::Deflate(Deflate))
    } else {
        None
    }
}

/// Picks algorithms.
pub struct CompressionManager;

/// The algorithm that is tried: the preferred one, or LZ4 if there is no such.
pub open spec fn tried(preferred: u8) -> Algorithm {
    match algorithm_of(preferred) {
        Some(a) => a,
        None => Algorithm::Lz4(Lz4),
    }
}

impl CompressionManager {
    /// The algorithm of a number.
    pub fn get_algorithm(id: u8) -> (r: Option<Algorithm>)
        ensures
            r == algorithm_of(id),
            r matches Some(a) ==> a.number() == id,
    {
        if id == 1 {
            Some(Algorithm::Lz4(Lz4))
        } else if id == 2 {
            Some(Algorithm::Zstd(Zstd))
        } else if id == 3 {
            Some(Algorithm::Deflate(Deflate))
        } else {
            None
        }
    }

    /// What is kept of a compression: its result and the number of the
    /// algorithm if it is smaller than the data, else the data and 0.
    pub fn keep_smaller(id: u8, compressed: Vec<u8>, data: &[u8]) -> (r: (u8, Vec<u8>))
        ensures
            compressed@.len() < data@.len() ==> r.0 == id && r.1@ == compressed@,
            compressed@.len() >= data@.len() ==> r.0 == 0 && r.1@ == data@,
    {
        if compressed.len() < data.len() {
            (id, compressed)
        } else {
            (0, vstd::slice::slice_to_vec(data))
        }
    }

    /// Compresses data, if that makes it smaller. The result is the number of
    /// the algorithm and the bytes; with 0 they are the data as it is.
    pub fn adaptive_compress(data: &[u8], preferred: u8) -> (r: (u8, Vec<u8>))
        requires
            tried(preferred).accepts(data@.len()),
        ensures
            exists|out: Seq<u8>| #[trigger]
                tried(preferred).encodes(data@, out) && (data@.len() <= tried(preferred).reach()
                    ==> tried(preferred).decoded(out) == Some(data@))
                    && if out.len() < data@.len() {
                    r.0 == tried(preferred).number() && r.1@ == out
                } else {
                    r.0 == 0 && r.1@ == data@
                },
    {
        let algo = match Self::get_algorithm(preferred) {
            Some(a) => a,
            None => Algorithm::Lz4(Lz4),
        };
        let compressed = algo.compress(data);
        assert(tried(preferred).encodes(data@, compressed@));
        Self::keep_smaller(algo.id(), compressed, data)
    }
}

/// Decompressing what was compressed gives the data back, whatever the
/// algorithm: `out` is what compressing gave, `back` what decompressing that
/// gave.
pub proof fn compressed_data_is_read_back<A: CompressionAlgorithm>(
    algo: A,
    data: Seq<u8>,
    out: Seq<u8>,
    back: Result<Vec<u8>, Error>,
)
    requires
        data.len() <= algo.reach(),
        data.len() <= algo.reach() ==> algo.decoded(out) == Some(data),
        match algo.decoded(out) {
            Some(d) => back matches Ok(v) && v@ == d,
            None => back matches Err(e) && e.kind == ErrorKind::InvalidData,
        },
    ensures
        back matches Ok(v) && v@ == data,
{
}

/// What is kept of data that was compressed into `out` can be read back with
/// the algorithm whose number is kept with it.
pub proof fn kept_data_is_read_back(
    data: Seq<u8>,
    preferred: u8,
    out: Seq<u8>,
    id: u8,
    bytes: Seq<u8>,
)
    requires
        tried(preferred).decoded(out) == Some(data),
        if out.len() < data.len() {
            id == tried(preferred).number() && bytes == out
        } else {
            id == 0 && bytes == data
        },
    ensures
        if id == 0 {
            bytes == data
        } else {
            algorithm_of(id) is Some && algorithm_of(id)->0.decoded(bytes) == Some(data)
        },
{
}

/// Each number stands for its own format, and for one that decompresses with
/// that format: 1 for LZ4, 2 for Zstandard, 3 for Deflate. Another number
/// stands for none, and LZ4 is tried in its place.
pub proof fn numbers_stand_for_their_formats(id: u8, data: Seq<u8>, out: Seq<u8>)
    ensures
        algorithm_of(id) is Some <==> 1 <= id <= 3,
        algorithm_of(id) matches Some(a) ==> a.number() == id && tried(id) == a,
        algorithm_of(id) is None ==> tried(id).number() == 1,
        algorithm_of(1) matches Some(a) && a.decoded(data) == (if data.len() >= 4
            && codec::from_le(data.subrange(0, 4)) > isize::MAX {
            None
        } else {
            lz4_decoded(data)
        }) && (a.encodes(data, out) <==> lz4_encodes(data, out)),
        algorithm_of(2) matches Some(a) && a.decoded(data) == zstd_decoded(data) && (a.encodes(
            data,
            out,
        ) <==> zstd_encodes(data, 3, out)),
        algorithm_of(3) matches Some(a) && a.decoded(data) == deflate_decoded(data) && (a.encodes(
            data,
            out,
        ) <==> deflate_encodes(data, out)),
{
}

/// The level that is used is the nearest one that zstd has: what was asked for
/// between 1 and 22, else the end that it lies beyond.
pub proof fn levels_are_the_nearest(level: i32, other: i32)
    requires
        1 <= other <= 22,
    ensures
        1 <= usable_level(level) <= 22,
        1 <= level <= 22 ==> usable_level(level) == level,
        level <= usable_level(level) <= other || other <= usable_level(level) <= level
            || usable_level(level) == level,
{
}

} // verus!
