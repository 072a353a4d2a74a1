//! The side of the ring that needs no ring: how an answer of the kernel is
//! matched to its operation, and what the owner of the ring does next.

use crate::io_engine::engine::EngineStats;
use crate::io_engine::mpmc::MpmcQueue;
use crate::io_engine::op::{Completion, IoOp, OpKind, OpResult};
use crate::ordmap::OrdMap;
use crate::posix;
use vstd::prelude::*;

verus! {

/// Where the tag of the kind begins.
pub const KIND_TAG_SHIFT: u64 = 62;

/// The part of an answer's number that the operation is told by.
pub const USER_DATA_MASK: u64 = 0x3fff_ffff_ffff_ffff;

/// The tag of a kind. Kinds of which the ring is asked the like share one.
pub open spec fn kind_tag(kind: OpKind) -> u64 {
    match kind {
        OpKind::Read | OpKind::Deallocate => 0,
        OpKind::Write | OpKind::WriteFua => 1,
        OpKind::FlushData => 2,
        OpKind::ZoneAppend => 3,
    }
}

/// The number that an operation has in the ring.
pub open spec fn tagged(user_data: u64, kind: OpKind) -> u64 {
    (kind_tag(kind) << 62) | (user_data & USER_DATA_MASK)
}

/// The kind that a tag stands for.
pub open spec fn kind_of_tag(tag: u64) -> OpKind {
    if tag == 1 {
        OpKind::Write
    } else if tag == 2 {
        OpKind::FlushData
    } else if tag == 3 {
        OpKind::ZoneAppend
    } else {
        OpKind::Read
    }
}

/// Puts the kind of an operation into the top bits of its number.
#[must_use]
pub fn tag_user_data(user_data: u64, kind: OpKind) -> (r: u64)
    ensures
        r == tagged(user_data, kind),
{
    let k: u64 = match kind {
        OpKind::Read | OpKind::Deallocate => 0,
        OpKind::Write | OpKind::WriteFua => 1,
        OpKind::FlushData => 2,
        OpKind::ZoneAppend => 3,
    };
    (k << 62) | (user_data & USER_DATA_MASK)
}

/// Reads the kind out of the top bits of a number.
pub fn kind_for_user_data(user_data: u64) -> (r: OpKind)
    ensures
        r == kind_of_tag(user_data >> 62),
{
    let tag: u64 = user_data >> 62;
    if tag == 1 {
        OpKind::Write
    } else if tag == 2 {
        OpKind::FlushData
    } else if tag == 3 {
        OpKind::ZoneAppend
    } else {
        OpKind::Read
    }
}

/// What an operation of 62 bits is told by survives its number in the ring, and
/// so does its kind, but that a durable write shares its tag with a write and
/// giving up a range with a read.
pub proof fn tagging_round_trips(user_data: u64, kind: OpKind)
    ensures
        tagged(user_data, kind) & USER_DATA_MASK == user_data & USER_DATA_MASK,
        user_data <= USER_DATA_MASK ==> tagged(user_data, kind) & USER_DATA_MASK == user_data,
        kind_of_tag(tagged(user_data, kind) >> 62) == (match kind {
            OpKind::WriteFua => OpKind::Write,
            OpKind::Deallocate => OpKind::Read,
            _ => kind,
        }),
{
    let k = kind_tag(kind);
    assert(((k << 62u64) | (user_data & 0x3fff_ffff_ffff_ffff)) & 0x3fff_ffff_ffff_ffff
        == user_data & 0x3fff_ffff_ffff_ffff) by (bit_vector);
    assert(k <= 3 ==> ((k << 62u64) | (user_data & 0x3fff_ffff_ffff_ffff)) >> 62u64 == k)
        by (bit_vector);
    assert(user_data <= 0x3fff_ffff_ffff_ffff ==> user_data & 0x3fff_ffff_ffff_ffff == user_data)
        by (bit_vector);
}

/// An operation that the kernel has not answered.
#[derive(Debug, Clone, Copy, PartialEq, Eq, Structural)]
pub struct Pending {
    /// What the operation is told by.
    pub user_data: u64,
    pub kind: OpKind,
    /// Where on the device.
    pub offset: u64,
}

/// What is remembered of an operation.
pub open spec fn pending_of(op: IoOp) -> Pending {
    Pending { user_data: op.user_data, kind: op.kind, offset: op.offset }
}

/// The operations that the kernel has not answered, by their number in the
/// ring.
pub struct PendingOps {
    pub ops: OrdMap<Pending>,
}

impl PendingOps {
    /// The operations by their number in the ring.
    pub open spec fn view(&self) -> Map<u64, Pending> {
        self.ops@
    }

    /// The map is sound.
    pub open spec fn wf(&self) -> bool {
        self.ops.wf()
    }

    /// No operations.
    pub fn new() -> (r: Self)
        ensures
            r.wf(),
            r@ == Map::<u64, Pending>::empty(),
    {
        PendingOps { ops: OrdMap::new() }
    }

    /// Remembers an operation.
    pub fn record(&mut self, op: &IoOp)
        requires
            old(self).wf(),
        ensures
            final(self).wf(),
            final(self)@ == old(self)@.insert(tagged(op.user_data, op.kind), pending_of(*op)),
    {
        let pending = Pending { user_data: op.user_data, kind: op.kind, offset: op.offset };
        self.ops.insert(tag_user_data(op.user_data, op.kind), pending);
    }
}

/// The operation that an answer of the kernel is for: the one that is
/// remembered under its number, else what the number tells.
pub open spec fn answered_op(raw: u64, pending: Map<u64, Pending>) -> Pending {
    if pending.contains_key(raw) {
        pending[raw]
    } else {
        Pending { user_data: raw & USER_DATA_MASK, kind: kind_of_tag(raw >> 62), offset: 0 }
    }
}

/// What an answer of the kernel says: a negative result is an error, and a
/// read of nothing is one too, for a read fills its buffer or fails.
pub open spec fn reaped(raw: u64, res: i32, pending: Map<u64, Pending>) -> Completion {
    let op = answered_op(raw, pending);
    let result = if res < 0 {
        OpResult::Failed((-res) as i32)
    } else if op.kind == OpKind::Read && res == 0 {
        OpResult::Failed(posix::EIO)
    } else if op.kind == OpKind::FlushData {
        OpResult::Flushed
    } else {
        OpResult::Done(res as u32)
    };
    Completion {
        user_data: op.user_data,
        kind: op.kind,
        placed_offset: if op.kind == OpKind::ZoneAppend && res >= 0 {
            op.offset
        } else {
            0
        },
        result,
    }
}

/// Turns an answer of the kernel into that of an operation, which is then
/// answered.
pub fn reap_one(
    raw_user_data: u64,
    res: i32,
    pending: &mut PendingOps,
    stats: &mut EngineStats,
) -> (r: Completion)
    requires
        old(pending).wf(),
        res > i32::MIN,
    ensures
        final(pending).wf(),
        r == reaped(raw_user_data, res, old(pending)@),
        *final(stats) == old(stats).after(r.kind, r.result),
        final(pending)@ == old(pending)@.remove(raw_user_data),
{
    let ghost before = pending@;
    let op = match pending.ops.take(raw_user_data) {
        Some(op) => op,
        None => Pending {
            user_data: raw_user_data & USER_DATA_MASK,
            kind: kind_for_user_data(raw_user_data),
            offset: 0,
        },
    };
    assert(pending@ =~= before.remove(raw_user_data));
    let completion = if res < 0 {
        Completion::err(op.user_data, op.kind, -res)
    } else if op.kind == OpKind::Read && res == 0 {
        Completion::err(op.user_data, op.kind, posix::EIO)
    } else if op.kind == OpKind::ZoneAppend {
        Completion::zone_append(op.user_data, op.offset, res as u32)
    } else if op.kind == OpKind::FlushData {
        Completion::ok(op.user_data, op.kind)
    } else {
        Completion::data(op.user_data, op.kind, res as u32)
    };
    stats.note_result(op.kind, completion.result);
    completion
}

/// An operation that was submitted is answered by what it is told by and with
/// its own kind, an append with its place too, and giving up a range is done,
/// unless one under way has the same number in the ring.
pub proof fn answer_is_that_of_the_operation(op: IoOp, res: i32, pending: Map<u64, Pending>)
    ensures
        ({
            let c = reaped(
                tagged(op.user_data, op.kind),
                res,
                pending.insert(tagged(op.user_data, op.kind), pending_of(op)),
            );
            &&& c.user_data == op.user_data
            &&& c.kind == op.kind
            &&& op.kind == OpKind::ZoneAppend && res >= 0 ==> c.placed_offset == op.offset
            &&& op.kind == OpKind::Deallocate && res == 0 ==> c.result == OpResult::Done(0)
        }),
{
}

/// The depth of the ring for a wanted depth, and that of its answers.
pub fn ring_shape(sq_depth: usize) -> (r: (u32, u32))
    ensures
        r.0 == (if sq_depth < 64 {
            64
        } else if sq_depth > 32_768 {
            32_768
        } else {
            sq_depth as int
        }),
        r.1 == r.0 * 4,
{
    let depth: u32 = if sq_depth < 64 {
        64
    } else if sq_depth > 32_768 {
        32_768
    } else {
        sq_depth as u32
    };
    (depth, depth * 4)
}

/// What the owner of the ring does next.
#[derive(Debug, Clone, Copy, PartialEq, Eq, Structural)]
pub enum OwnerAction {
    /// Waits in the kernel for an answer, which is bound to come.
    WaitForKernel,
    /// Waits for something to be submitted.
    Park,
    /// Looks once more for what was submitted.
    LookAgain,
    /// Ends.
    Stop,
}

/// What the owner of the ring does next, given the operations that the kernel
/// has not answered: it waits in the kernel only if there are any, and ends
/// only when nothing is left.
pub fn owner_next(shutdown: bool, inbox_empty: bool, kernel_pending: u64) -> (r: OwnerAction)
    ensures
        r == (if kernel_pending > 0 {
            OwnerAction::WaitForKernel
        } else if !shutdown {
            OwnerAction::Park
        } else if inbox_empty {
            OwnerAction::Stop
        } else {
            OwnerAction::LookAgain
        }),
{
    if kernel_pending > 0 {
        OwnerAction::WaitForKernel
    } else if !shutdown {
        OwnerAction::Park
    } else if inbox_empty {
        OwnerAction::Stop
    } else {
        OwnerAction::LookAgain
    }
}

/// The operations that the kernel has not answered once it was given some and
/// answered some.
pub fn pending_after(kernel_pending: u64, pushed: u64, answered: u64) -> (r: u64)
    requires
        kernel_pending + pushed <= u64::MAX,
    ensures
        r == (if kernel_pending + pushed > answered {
            kernel_pending + pushed - answered
        } else {
            0
        }),
{
    (kernel_pending + pushed).saturating_sub(answered)
}

/// What the ring is asked to do for an operation.
#[derive(Debug, Clone, Copy, PartialEq, Eq, Structural)]
pub enum RingRequest {
    /// Reads into the buffer.
    Read,
    /// Writes from the buffer.
    Write,
    /// Writes from the buffer, with a flush linked behind.
    WriteLinked,
    /// Makes data durable.
    SyncData,
    /// Nothing.
    Nop,
}

/// What the ring is asked to do for an operation of a kind. An append is a
/// write where the zone was found to end.
pub open spec fn request_of(kind: OpKind) -> RingRequest {
    match kind {
        OpKind::Read => RingRequest::Read,
        OpKind::Write => RingRequest::Write,
        OpKind::WriteFua => RingRequest::WriteLinked,
        OpKind::FlushData => RingRequest::SyncData,
        OpKind::ZoneAppend => RingRequest::Write,
        OpKind::Deallocate => RingRequest::Nop,
    }
}

/// One entry of the ring.
#[derive(Debug, Clone, Copy, PartialEq, Eq, Structural)]
pub struct RingEntry {
    pub request: RingRequest,
    /// The operation that it is for.
    pub op: IoOp,
    /// Its number in the ring.
    pub user_data: u64,
}

/// The entry for an operation.
pub open spec fn entry_of(op: IoOp) -> RingEntry {
    RingEntry { request: request_of(op.kind), op, user_data: tagged(op.user_data, op.kind) }
}

/// Says what the ring is asked to do for an operation.
pub fn translate_op(op: &IoOp) -> (r: RingEntry)
    ensures
        r == entry_of(*op),
{
    let request = match op.kind {
        OpKind::Read => RingRequest::Read,
        OpKind::Write => RingRequest::Write,
        OpKind::WriteFua => RingRequest::WriteLinked,
        OpKind::FlushData => RingRequest::SyncData,
        OpKind::ZoneAppend => RingRequest::Write,
        OpKind::Deallocate => RingRequest::Nop,
    };
    RingEntry { request, op: *op, user_data: tag_user_data(op.user_data, op.kind) }
}

/// What is remembered once the first `n` operations are submitted.
pub open spec fn pending_with(
    pending: Map<u64, Pending>,
    ops: Seq<IoOp>,
    n: int,
) -> Map<u64, Pending>
    decreases n,
{
    if n <= 0 {
        pending
    } else {
        let op = ops[n - 1];
        pending_with(pending, ops, n - 1).insert(tagged(op.user_data, op.kind), pending_of(op))
    }
}

/// The entries for operations, as many as the ring has room for.
pub fn submit_batch(ops: &[IoOp], room: usize, pending: &mut PendingOps) -> (r: Vec<RingEntry>)
    requires
        old(pending).wf(),
    ensures
        final(pending).wf(),
        r@.len() == (if ops@.len() < room {
            ops@.len() as int
        } else {
            room as int
        }),
        forall|i: int| 0 <= i < r@.len() ==> #[trigger] r@[i] == entry_of(ops@[i]),
        final(pending)@ == pending_with(old(pending)@, ops@, r@.len() as int),
{
    let mut out: Vec<RingEntry> = Vec::new();
    let mut i: usize = 0;
    while i < ops.len() && i < room
        invariant
            i <= ops@.len(),
            i <= room,
            out@.len() == i,
            pending.wf(),
            forall|j: int| 0 <= j < i ==> #[trigger] out@[j] == entry_of(ops@[j]),
            pending@ == pending_with(old(pending)@, ops@, i as int),
        decreases ops@.len() - i,
    {
        pending.record(&ops[i]);
        out.push(translate_op(&ops[i]));
        i = i + 1;
    }
    out
}

/// Moves waiting operations behind those that are staged, until `limit` are.
pub fn drain_inbox(inbox: &mut MpmcQueue<IoOp>, staged: &mut Vec<IoOp>, limit: usize)
    requires
        old(inbox).wf(),
    ensures
        final(inbox).wf(),
        final(inbox).bound() == old(inbox).bound(),
        ({
            let room = if limit > old(staged)@.len() {
                limit - old(staged)@.len()
            } else {
                0
            };
            let n = if room < old(inbox)@.len() {
                room
            } else {
                old(inbox)@.len() as int
            };
            &&& final(staged)@ == old(staged)@ + old(inbox)@.take(n)
            &&& final(inbox)@ == old(inbox)@.skip(n)
        }),
{
    let ghost all = inbox@;
    let ghost before = staged@;
    let ghost mut n: int = 0;
    assert(staged@ =~= before + all.take(0));
    assert(inbox@ =~= all.skip(0));
    while staged.len() < limit && !inbox.is_empty()
        invariant
            inbox.wf(),
            inbox.bound() == old(inbox).bound(),
            0 <= n <= all.len(),
            staged@ == before + all.take(n),
            inbox@ == all.skip(n),
            n > 0 ==> staged@.len() <= limit,
        decreases inbox@.len(),
    {
        match inbox.pop() {
            Some(op) => {
                staged.push(op);
            },
            None => {},
        }
        proof {
            n = n + 1;
            assert(staged@ =~= before + all.take(n));
            assert(inbox@ =~= all.skip(n));
        }
    }
}

/// What the kernel's number for an operation comes to: a negative one is the
/// error, and so is a read of nothing; a flush is flushed; any other number is
/// that of the bytes. Only an append that did not fail says where its bytes
/// are.
pub proof fn kernel_results_are_answered(raw: u64, res: i32, pending: Map<u64, Pending>)
    requires
        pending.contains_key(raw),
        res > i32::MIN,
    ensures
        ({
            let op = pending[raw];
            let c = reaped(raw, res, pending);
            &&& c.user_data == op.user_data && c.kind == op.kind
            &&& res < 0 ==> c.result == OpResult::Failed((-res) as i32) && c.placed_offset == 0
            &&& res == 0 && op.kind == OpKind::Read ==> c.result == OpResult::Failed(5)
            &&& res >= 0 && op.kind == OpKind::FlushData ==> c.result == OpResult::Flushed
            &&& res > 0 && op.kind != OpKind::FlushData ==> c.result == OpResult::Done(res as u32)
            &&& res == 0 && op.kind != OpKind::Read && op.kind != OpKind::FlushData ==> c.result
                == OpResult::Done(0)
            &&& res >= 0 && op.kind == OpKind::ZoneAppend ==> c.placed_offset == op.offset
            &&& op.kind != OpKind::ZoneAppend ==> c.placed_offset == 0
        }),
{
}

/// What the kernel is asked for: a write that is to be durable is linked to a
/// sync, an append is a write, and a hint is nothing. The tag of the request
/// tells which operation it answers.
pub proof fn operations_become_requests(op: IoOp)
    ensures
        ({
            let e = entry_of(op);
            &&& e.op == op
            &&& e.user_data & 0x3fff_ffff_ffff_ffff == op.user_data & 0x3fff_ffff_ffff_ffff
            &&& e.request == (match op.kind {
                OpKind::Read => RingRequest::Read,
                OpKind::Write => RingRequest::Write,
                OpKind::WriteFua => RingRequest::WriteLinked,
                OpKind::FlushData => RingRequest::SyncData,
                OpKind::ZoneAppend => RingRequest::Write,
                OpKind::Deallocate => RingRequest::Nop,
            })
        }),
{
    tagging_round_trips(op.user_data, op.kind);
}

} // verus!
