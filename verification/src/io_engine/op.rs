//! What a device is asked to do, and what it answers.

use vstd::prelude::*;

verus! {

/// The kind of an operation.
#[derive(Debug, Clone, Copy, PartialEq, Eq, Hash, Structural)]
pub enum OpKind {
    /// Reads at an offset.
    Read,
    /// Writes at an offset.
    Write,
    /// Writes, and is done only when the bytes are durable.
    WriteFua,
    /// Makes durable what was written before.
    FlushData,
    /// Writes where the zone ends; the answer says where that was.
    ZoneAppend,
    /// Gives up a range.
    Deallocate,
}

impl OpKind {
    /// The name of the kind.
    #[must_use]
    pub fn name(&self) -> (r: &'static str)
        ensures
            r@ == (match *self {
                OpKind::Read => "read"@,
                OpKind::Write => "write"@,
                OpKind::WriteFua => "write-fua"@,
                OpKind::FlushData => "flush"@,
                OpKind::ZoneAppend => "zone-append"@,
                OpKind::Deallocate => "deallocate"@,
            }),
    {
        match self {
            OpKind::Read => "read",
            OpKind::Write => "write",
            OpKind::WriteFua => "write-fua",
            OpKind::FlushData => "flush",
            OpKind::ZoneAppend => "zone-append",
            OpKind::Deallocate => "deallocate",
        }
    }
}

/// One operation.
#[derive(Debug, Clone, Copy, PartialEq, Eq, Structural)]
pub struct IoOp {
    pub kind: OpKind,
    /// Which device.
    pub device: u16,
    /// Where on the device.
    pub offset: u64,
    /// How many bytes.
    pub len: u32,
    /// Which zone, for an append.
    pub zone: u32,
    /// Which slot of the arena.
    pub buf: u32,
    /// Where in the slot.
    pub buf_off: u32,
    /// What the answer is told by.
    pub user_data: u64,
}

impl IoOp {
    /// A read.
    #[must_use]
    pub fn read(device: u16, offset: u64, len: u32, buf: u32, buf_off: u32, user_data: u64) -> (r:
        Self)
        ensures
            r == (IoOp {
                kind: OpKind::Read,
                device,
                offset,
                len,
                zone: 0,
                buf,
                buf_off,
                user_data,
            }),
    {
        IoOp { kind: OpKind::Read, device, offset, len, zone: 0, buf, buf_off, user_data }
    }

    /// A write.
    #[must_use]
    pub fn write(device: u16, offset: u64, len: u32, buf: u32, buf_off: u32, user_data: u64) -> (r:
        Self)
        ensures
            r == (IoOp {
                kind: OpKind::Write,
                device,
                offset,
                len,
                zone: 0,
                buf,
                buf_off,
                user_data,
            }),
    {
        IoOp { kind: OpKind::Write, device, offset, len, zone: 0, buf, buf_off, user_data }
    }

    /// A write that is durable when it is done.
    #[must_use]
    pub fn write_fua(
        device: u16,
        offset: u64,
        len: u32,
        buf: u32,
        buf_off: u32,
        user_data: u64,
    ) -> (r: Self)
        ensures
            r == (IoOp {
                kind: OpKind::WriteFua,
                device,
                offset,
                len,
                zone: 0,
                buf,
                buf_off,
                user_data,
            }),
    {
        IoOp { kind: OpKind::WriteFua, device, offset, len, zone: 0, buf, buf_off, user_data }
    }

    /// An append to a zone.
    #[must_use]
    pub fn zone_append(
        device: u16,
        zone: u32,
        len: u32,
        buf: u32,
        buf_off: u32,
        user_data: u64,
    ) -> (r: Self)
        ensures
            r == (IoOp {
                kind: OpKind::ZoneAppend,
                device,
                offset: 0,
                len,
                zone,
                buf,
                buf_off,
                user_data,
            }),
    {
        IoOp { kind: OpKind::ZoneAppend, device, offset: 0, len, zone, buf, buf_off, user_data }
    }

    /// A flush.
    #[must_use]
    pub fn flush_data(device: u16, user_data: u64) -> (r: Self)
        ensures
            r == (IoOp {
                kind: OpKind::FlushData,
                device,
                offset: 0,
                len: 0,
                zone: 0,
                buf: 0,
                buf_off: 0,
                user_data,
            }),
    {
        IoOp {
            kind: OpKind::FlushData,
            device,
            offset: 0,
            len: 0,
            zone: 0,
            buf: 0,
            buf_off: 0,
            user_data,
        }
    }
}

/// How an operation ended.
#[derive(Debug, Clone, Copy, PartialEq, Eq, Structural)]
pub enum OpResult {
    /// So many bytes were read or written.
    Done(u32),
    /// Everything is durable.
    Flushed,
    /// It failed, with this error number.
    Failed(i32),
}

impl OpResult {
    /// Whether the operation failed.
    #[must_use]
    pub fn is_err(&self) -> (r: bool)
        ensures
            r == (self is Failed),
    {
        match self {
            OpResult::Failed(_) => true,
            _ => false,
        }
    }
}

/// The answer to an operation.
#[derive(Debug, Clone, Copy, PartialEq, Eq, Structural)]
pub struct Completion {
    /// What the operation is told by.
    pub user_data: u64,
    pub kind: OpKind,
    /// Where an append was placed.
    pub placed_offset: u64,
    pub result: OpResult,
}

impl Completion {
    /// A flush that is done.
    #[must_use]
    pub fn ok(user_data: u64, kind: OpKind) -> (r: Self)
        ensures
            r == (Completion { user_data, kind, placed_offset: 0, result: OpResult::Flushed }),
    {
        Completion { user_data, kind, placed_offset: 0, result: OpResult::Flushed }
    }

    /// A transfer that is done.
    #[must_use]
    pub fn data(user_data: u64, kind: OpKind, bytes: u32) -> (r: Self)
        ensures
            r == (Completion {
                user_data,
                kind,
                placed_offset: 0,
                result: OpResult::Done(bytes),
            }),
    {
        Completion { user_data, kind, placed_offset: 0, result: OpResult::Done(bytes) }
    }

    /// An append that is done.
    #[must_use]
    pub fn zone_append(user_data: u64, placed_offset: u64, bytes: u32) -> (r: Self)
        ensures
            r == (Completion {
                user_data,
                kind: OpKind::ZoneAppend,
                placed_offset,
                result: OpResult::Done(bytes),
            }),
    {
        Completion {
            user_data,
            kind: OpKind::ZoneAppend,
            placed_offset,
            result: OpResult::Done(bytes),
        }
    }

    /// A failure.
    #[must_use]
    pub fn err(user_data: u64, kind: OpKind, errno: i32) -> (r: Self)
        ensures
            r == (Completion {
                user_data,
                kind,
                placed_offset: 0,
                result: OpResult::Failed(errno),
            }),
    {
        Completion { user_data, kind, placed_offset: 0, result: OpResult::Failed(errno) }
    }
}

} // verus!
