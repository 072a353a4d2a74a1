//! Checksum algorithms.

use crate::codec;
use sha2::Digest;
use vstd::prelude::*;

verus! {

/// A checksum algorithm.
#[derive(Debug, Clone, Copy, PartialEq, Eq, Structural)]
pub enum ChecksumAlgorithm {
    /// No checksum.
    Off,
    /// CRC32, 4 bytes.
    Crc32c,
    /// XXH64 with seed 0, 8 bytes.
    XxHash64,
    /// SHA-256.
    Sha256,
    /// BLAKE3.
    Blake3,
}

/// What `crc32fast::hash` gives.
pub uninterp spec fn crc32_of(data: Seq<u8>) -> u32;

/// What `xxhash_rust::xxh64::xxh64` gives.
pub uninterp spec fn xxh64_of(data: Seq<u8>, seed: u64) -> u64;

/// What SHA-256 gives.
pub uninterp spec fn sha256_of(data: Seq<u8>) -> Seq<u8>;

/// What `blake3::hash` gives.
pub uninterp spec fn blake3_of(data: Seq<u8>) -> Seq<u8>;

/// Calls `crc32fast::hash`. The result is a function of the bytes.
#[verifier::external_body]
pub(crate) fn crc32(data: &[u8]) -> (r: u32)
    ensures
        r == crc32_of(data@),
{
    crc32fast::hash(data)
}

/// Calls `xxhash_rust::xxh64::xxh64`. The result is a function of the bytes
/// and the seed.
#[verifier::external_body]
fn xxh64(data: &[u8], seed: u64) -> (r: u64)
    ensures
        r == xxh64_of(data@, seed),
{
    xxhash_rust::xxh64::xxh64(data, seed)
}

/// Calls `sha2::Sha256::digest`. The result is a function of the bytes.
#[verifier::external_body]
fn sha256(data: &[u8]) -> (r: [u8; 32])
    ensures
        r@ == sha256_of(data@),
{
    sha2::Sha256::digest(data).into()
}

/// Calls `blake3::hash`. The result is a function of the bytes.
#[verifier::external_body]
pub(crate) fn blake3_hash(data: &[u8]) -> (r: [u8; 32])
    ensures
        r@ == blake3_of(data@),
{
    *blake3::hash(data).as_bytes()
}

/// The record of a checksum number: `n` bytes of it, lowest first, and zeros.
pub open spec fn number_record(x: u64, n: nat) -> Seq<u8> {
    codec::le(x as nat, n) + Seq::new((32 - n) as nat, |i: int| 0u8)
}

/// How many bytes of a record an algorithm uses.
pub open spec fn relevant_bytes(algo: ChecksumAlgorithm) -> int {
    match algo {
        ChecksumAlgorithm::Off => 0,
        ChecksumAlgorithm::Crc32c => 4,
        ChecksumAlgorithm::XxHash64 => 8,
        ChecksumAlgorithm::Sha256 => 32,
        ChecksumAlgorithm::Blake3 => 32,
    }
}

/// The checksum record of `data`.
pub open spec fn checksum_record(algo: ChecksumAlgorithm, data: Seq<u8>) -> Seq<u8> {
    match algo {
        ChecksumAlgorithm::Off => Seq::new(32, |i: int| 0u8),
        ChecksumAlgorithm::Crc32c => number_record(crc32_of(data) as u64, 4),
        ChecksumAlgorithm::XxHash64 => number_record(xxh64_of(data, 0), 8),
        ChecksumAlgorithm::Sha256 => sha256_of(data),
        ChecksumAlgorithm::Blake3 => blake3_of(data),
    }
}

impl ChecksumAlgorithm {
    /// The algorithm of a number; an unknown number stands for none.
    pub fn from_u8(val: u8) -> (r: Self)
        ensures
            r == (if val == 1 {
                ChecksumAlgorithm::Crc32c
            } else if val == 2 {
                ChecksumAlgorithm::XxHash64
            } else if val == 3 {
                ChecksumAlgorithm::Sha256
            } else if val == 4 {
                ChecksumAlgorithm::Blake3
            } else {
                ChecksumAlgorithm::Off
            }),
    {
        match val {
            1 => ChecksumAlgorithm::Crc32c,
            2 => ChecksumAlgorithm::XxHash64,
            3 => ChecksumAlgorithm::Sha256,
            4 => ChecksumAlgorithm::Blake3,
            _ => ChecksumAlgorithm::Off,
        }
    }
}

/// The record that holds the low `n` bytes of a checksum number.
pub fn record_of_number(x: u64, n: usize) -> (r: [u8; 32])
    requires
        n <= 8,
    ensures
        r@ == number_record(x, n as nat),
{
    let mut bytes: Vec<u8> = Vec::new();
    codec::put_le(&mut bytes, x as u128, n);
    proof {
        codec::lemma_le_len(x as nat, n as nat);
    }
    let mut result = [0u8;32];
    let mut i: usize = 0;
    while i < n
        invariant
            n <= 8,
            i <= n,
            bytes@.len() == n,
            result@.len() == 32,
            bytes@ == codec::le(x as nat, n as nat),
            forall|j: int| 0 <= j < i ==> result@[j] == bytes@[j],
            forall|j: int| i <= j < 32 ==> result@[j] == 0,
        decreases n - i,
    {
        result[i] = bytes[i];
        i = i + 1;
    }
    assert(result@ =~= number_record(x, n as nat));
    result
}

/// The checksum record of `data`.
pub fn calculate_checksum(algo: ChecksumAlgorithm, data: &[u8]) -> (r: [u8; 32])
    ensures
        r@ == checksum_record(algo, data@),
        algo is Off ==> r@ == Seq::new(32, |i: int| 0u8),
        algo is Crc32c ==> r@.take(4) == codec::le(crc32_of(data@) as nat, 4) && r@.skip(4)
            == Seq::new(28, |i: int| 0u8),
        algo is XxHash64 ==> r@.take(8) == codec::le(xxh64_of(data@, 0) as nat, 8) && r@.skip(8)
            == Seq::new(24, |i: int| 0u8),
        algo is Sha256 ==> r@ == sha256_of(data@),
        algo is Blake3 ==> r@ == blake3_of(data@),
{
    proof {
        record_is_the_hash_of_all_the_data(data@);
    }
    match algo {
        ChecksumAlgorithm::Off => {
            let r = [0u8;32];
            assert(r@ =~= Seq::new(32, |i: int| 0u8));
            r
        },
        ChecksumAlgorithm::Crc32c => record_of_number(crc32(data) as u64, 4),
        ChecksumAlgorithm::XxHash64 => record_of_number(xxh64(data, 0), 8),
        ChecksumAlgorithm::Sha256 => sha256(data),
        ChecksumAlgorithm::Blake3 => blake3_hash(data),
    }
}

/// Two records agree in the bytes that the algorithm uses.
pub open spec fn records_agree(algo: ChecksumAlgorithm, a: Seq<u8>, b: Seq<u8>) -> bool {
    a.take(relevant_bytes(algo)) == b.take(relevant_bytes(algo))
}

/// Whether two records agree in the bytes that the algorithm uses.
pub fn checksums_agree(algo: ChecksumAlgorithm, computed: &[u8; 32], expected: &[u8; 32]) -> (r:
    bool)
    ensures
        r == records_agree(algo, computed@, expected@),
{
    let n: usize = match algo {
        ChecksumAlgorithm::Off => 0,
        ChecksumAlgorithm::Crc32c => 4,
        ChecksumAlgorithm::XxHash64 => 8,
        ChecksumAlgorithm::Sha256 => 32,
        ChecksumAlgorithm::Blake3 => 32,
    };
    let mut i: usize = 0;
    while i < n
        invariant
            n == relevant_bytes(algo),
            n <= 32,
            i <= n,
            forall|j: int| 0 <= j < i ==> computed@[j] == expected@[j],
        decreases n - i,
    {
        if computed[i] != expected[i] {
            assert(computed@.take(n as int)[i as int] != expected@.take(n as int)[i as int]);
            return false;
        }
        i = i + 1;
    }
    assert(computed@.take(n as int) =~= expected@.take(n as int));
    true
}

/// Whether `expected` is the checksum record of `data`, as far as the
/// algorithm uses it. Without an algorithm every record passes.
pub fn verify_checksum(algo: ChecksumAlgorithm, data: &[u8], expected: &[u8; 32]) -> (r: bool)
    ensures
        r == records_agree(algo, checksum_record(algo, data@), expected@),
        algo is Off ==> r,
        algo is Crc32c ==> r == (codec::from_le(expected@.take(4)) == crc32_of(data@)),
        algo is XxHash64 ==> r == (codec::from_le(expected@.take(8)) == xxh64_of(data@, 0)),
        algo is Sha256 ==> r == (expected@ == sha256_of(data@)),
        algo is Blake3 ==> r == (expected@ == blake3_of(data@)),
{
    proof {
        lemma_verifies_by_number(data@, expected@);
        assert(expected@.take(0) =~= checksum_record(ChecksumAlgorithm::Off, data@).take(0));
    }
    if algo == ChecksumAlgorithm::Off {
        return true;
    }
    let computed = calculate_checksum(algo, data);
    assert(computed@.take(32) =~= computed@);
    assert(expected@.take(32) =~= expected@);
    checksums_agree(algo, &computed, expected)
}

/// The record is the hash of all of the data, whatever its length: the whole
/// record for the hashes of 32 bytes, else the number's bytes with the lowest
/// first and then zeros. Without an algorithm it is zeros.
pub proof fn record_is_the_hash_of_all_the_data(data: Seq<u8>)
    ensures
        checksum_record(ChecksumAlgorithm::Off, data) == Seq::new(32, |i: int| 0u8),
        checksum_record(ChecksumAlgorithm::Crc32c, data).take(4) == codec::le(
            crc32_of(data) as nat,
            4,
        ),
        checksum_record(ChecksumAlgorithm::Crc32c, data).skip(4) == Seq::new(28, |i: int| 0u8),
        checksum_record(ChecksumAlgorithm::XxHash64, data).take(8) == codec::le(
            xxh64_of(data, 0) as nat,
            8,
        ),
        checksum_record(ChecksumAlgorithm::XxHash64, data).skip(8) == Seq::new(24, |i: int| 0u8),
        checksum_record(ChecksumAlgorithm::Sha256, data) == sha256_of(data),
        checksum_record(ChecksumAlgorithm::Blake3, data) == blake3_of(data),
{
    codec::lemma_le_len(crc32_of(data) as nat, 4);
    codec::lemma_le_len(xxh64_of(data, 0) as nat, 8);
    let c = checksum_record(ChecksumAlgorithm::Crc32c, data);
    let x = checksum_record(ChecksumAlgorithm::XxHash64, data);
    assert(c.take(4) =~= codec::le(crc32_of(data) as nat, 4));
    assert(c.skip(4) =~= Seq::new(28, |i: int| 0u8));
    assert(x.take(8) =~= codec::le(xxh64_of(data, 0) as nat, 8));
    assert(x.skip(8) =~= Seq::new(24, |i: int| 0u8));
}

proof fn lemma_verifies_by_number(data: Seq<u8>, expected: Seq<u8>)
    requires
        expected.len() == 32,
    ensures
        records_agree(
            ChecksumAlgorithm::Crc32c,
            checksum_record(ChecksumAlgorithm::Crc32c, data),
            expected,
        ) == (codec::from_le(expected.take(4)) == crc32_of(data)),
        records_agree(
            ChecksumAlgorithm::XxHash64,
            checksum_record(ChecksumAlgorithm::XxHash64, data),
            expected,
        ) == (codec::from_le(expected.take(8)) == xxh64_of(data, 0)),
{
    record_is_the_hash_of_all_the_data(data);
    codec::lemma_pow256_values();
    codec::lemma_from_le_of_le(crc32_of(data) as nat, 4);
    codec::lemma_from_le_of_le(xxh64_of(data, 0) as nat, 8);
    codec::lemma_le_of_from_le(expected.take(4));
    codec::lemma_le_of_from_le(expected.take(8));
}

/// A record verifies if and only if it holds the hash of all of the data: bytes
/// with another hash do not verify against it.
pub proof fn only_data_with_the_same_hash_verifies(data: Seq<u8>, expected: Seq<u8>)
    requires
        expected.len() == 32,
        sha256_of(data).len() == 32,
        blake3_of(data).len() == 32,
    ensures
        records_agree(
            ChecksumAlgorithm::Crc32c,
            checksum_record(ChecksumAlgorithm::Crc32c, data),
            expected,
        ) == (codec::from_le(expected.take(4)) == crc32_of(data)),
        records_agree(
            ChecksumAlgorithm::XxHash64,
            checksum_record(ChecksumAlgorithm::XxHash64, data),
            expected,
        ) == (codec::from_le(expected.take(8)) == xxh64_of(data, 0)),
        records_agree(
            ChecksumAlgorithm::Sha256,
            checksum_record(ChecksumAlgorithm::Sha256, data),
            expected,
        ) == (expected == sha256_of(data)),
        records_agree(
            ChecksumAlgorithm::Blake3,
            checksum_record(ChecksumAlgorithm::Blake3, data),
            expected,
        ) == (expected == blake3_of(data)),
{
    lemma_verifies_by_number(data, expected);
    assert(expected.take(32) =~= expected);
    assert(sha256_of(data).take(32) =~= sha256_of(data));
    assert(blake3_of(data).take(32) =~= blake3_of(data));
}

/// The record of the bytes themselves always verifies.
pub proof fn checksum_roundtrip(algo: ChecksumAlgorithm, data: Seq<u8>)
    ensures
        records_agree(algo, checksum_record(algo, data), checksum_record(algo, data)),
{
}

/// Bytes whose record differs from the expected one in a byte that the
/// algorithm uses do not verify.
pub proof fn checksum_detects_difference(
    algo: ChecksumAlgorithm,
    data: Seq<u8>,
    expected: Seq<u8>,
    i: int,
)
    requires
        checksum_record(algo, data).len() == 32,
        expected.len() == 32,
        0 <= i < relevant_bytes(algo),
        checksum_record(algo, data)[i] != expected[i],
    ensures
        !records_agree(algo, checksum_record(algo, data), expected),
{
    let n = relevant_bytes(algo);
    assert(checksum_record(algo, data).take(n)[i] != expected.take(n)[i]);
}

} // verus!
