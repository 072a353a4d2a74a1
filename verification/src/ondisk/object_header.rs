//! The header of an object that describes itself: its kind, its length and a
//! checksum.

use crate::common::checksum;
use crate::common::checksum::fletcher32;
use vstd::prelude::*;

verus! {

/// Begins every header.
pub const OBJECT_MAGIC: u32 = 0x4C4F_424A;

/// The kind of an object.
#[derive(Debug, Clone, Copy, PartialEq, Eq, Structural)]
pub enum ObjectKind {
    Unknown,
    ExtendedAttribute,
}

impl ObjectKind {
    /// The number of a kind.
    pub open spec fn number(self) -> u8 {
        match self {
            ObjectKind::Unknown => 0,
            ObjectKind::ExtendedAttribute => 1,
        }
    }

    /// The number of a kind.
    pub fn code(self) -> (r: u8)
        ensures
            r == self.number(),
    {
        match self {
            ObjectKind::Unknown => 0,
            ObjectKind::ExtendedAttribute => 1,
        }
    }
}

/// A header.
#[derive(Debug, Clone, Copy, PartialEq, Eq, Structural)]
pub struct ObjectHeader {
    pub magic: u32,
    pub kind: u8,
    pub version: u8,
    pub _padding: u16,
    pub payload_len: u32,
    pub checksum: u32,
}

/// The header of a payload.
pub open spec fn header_of(kind: ObjectKind, payload: Seq<u8>) -> ObjectHeader {
    ObjectHeader {
        magic: OBJECT_MAGIC,
        kind: kind.number(),
        version: 1,
        _padding: 0,
        payload_len: payload.len() as u32,
        checksum: checksum::fletcher32_of(payload),
    }
}

impl ObjectHeader {
    /// The header and the payload belong together.
    pub open spec fn fits(self, payload: Seq<u8>) -> bool {
        &&& self.magic == OBJECT_MAGIC
        &&& self.payload_len == payload.len()
        &&& self.checksum == checksum::fletcher32_of(payload)
    }

    /// The header of a payload.
    pub fn new(kind: ObjectKind, payload: &[u8]) -> (r: Self)
        ensures
            r == header_of(kind, payload@),
    {
        ObjectHeader {
            magic: OBJECT_MAGIC,
            kind: kind.code(),
            version: 1,
            _padding: 0,
            payload_len: payload.len() as u32,
            checksum: fletcher32(payload),
        }
    }

    /// Whether the header and the payload belong together.
    pub fn verify(&self, payload: &[u8]) -> (r: bool)
        ensures
            r == self.fits(payload@),
    {
        self.magic == OBJECT_MAGIC && self.payload_len as usize == payload.len() && self.checksum
            == fletcher32(payload)
    }
}

/// A header fits the payload that it was made for, if the length of that fits
/// the header.
pub proof fn header_fits_its_payload(kind: ObjectKind, payload: Seq<u8>)
    requires
        payload.len() <= u32::MAX,
    ensures
        header_of(kind, payload).fits(payload),
{
}

/// A header fits no payload of another length or checksum.
pub proof fn header_rejects_other_payloads(kind: ObjectKind, payload: Seq<u8>, other: Seq<u8>)
    requires
        payload.len() <= u32::MAX,
        other.len() != payload.len() || checksum::fletcher32_of(other) != checksum::fletcher32_of(
            payload,
        ),
    ensures
        !header_of(kind, payload).fits(other),
{
}

} // verus!
