//! The engine: what is submitted waits in one queue, what is done in another.
//! Whoever runs the devices takes operations from the first and puts answers
//! into the second.

use crate::error::Error;
use crate::io_engine::mpmc;
use crate::io_engine::mpmc::MpmcQueue;
use crate::io_engine::op::{Completion, IoOp, OpKind, OpResult};
use crate::io_engine::zero_copy::BufHandle;
use crate::posix;
use vstd::prelude::*;

verus! {

/// What the engine has done so far. The counters wrap around.
#[derive(Debug, Clone, Copy, PartialEq, Eq, Structural)]
pub struct EngineStats {
    pub submitted: u64,
    pub completed: u64,
    pub failed: u64,
    pub flushes: u64,
    pub zone_appends: u64,
    /// The most operations that were under way at once.
    pub max_in_flight: u64,
}

impl Default for EngineStats {
    fn default() -> (r: Self)
        ensures
            r == (EngineStats {
                submitted: 0,
                completed: 0,
                failed: 0,
                flushes: 0,
                zone_appends: 0,
                max_in_flight: 0,
            }),
    {
        EngineStats {
            submitted: 0,
            completed: 0,
            failed: 0,
            flushes: 0,
            zone_appends: 0,
            max_in_flight: 0,
        }
    }
}

impl EngineStats {
    /// The counters once an operation has ended.
    pub open spec fn after(self, kind: OpKind, result: OpResult) -> EngineStats {
        match result {
            OpResult::Failed(_) => EngineStats { failed: self.failed.wrapping_add(1), ..self },
            _ => if kind == OpKind::ZoneAppend {
                EngineStats { zone_appends: self.zone_appends.wrapping_add(1), ..self }
            } else {
                self
            },
        }
    }

    /// Remembers how many operations are under way, if they were never more.
    pub fn note_in_flight(&mut self, current: u64)
        ensures
            *final(self) == (EngineStats {
                max_in_flight: if current > old(self).max_in_flight {
                    current
                } else {
                    old(self).max_in_flight
                },
                ..*old(self)
            }),
    {
        if current > self.max_in_flight {
            self.max_in_flight = current;
        }
    }

    /// Counts an operation that has ended.
    pub fn note_result(&mut self, kind: OpKind, result: OpResult)
        ensures
            *final(self) == old(self).after(kind, result),
    {
        match result {
            OpResult::Failed(_) => {
                self.failed = self.failed.wrapping_add(1);
            },
            OpResult::Done(_) | OpResult::Flushed => {
                if kind == OpKind::ZoneAppend {
                    self.zone_appends = self.zone_appends.wrapping_add(1);
                }
            },
        }
    }
}

/// How an engine is to be made.
#[derive(Debug, Clone, Copy)]
pub struct EngineBuilder {
    pub sq_depth: usize,
    pub sqpoll: bool,
    pub iopoll: bool,
    pub workers: usize,
}

impl EngineBuilder {
    /// The usual engine on a machine with so many processors.
    #[must_use]
    pub fn for_cpus(cpus: usize) -> (r: Self)
        ensures
            r == (EngineBuilder { sq_depth: 1024, sqpoll: false, iopoll: false, workers: cpus }),
    {
        EngineBuilder { sq_depth: 1024, sqpoll: false, iopoll: false, workers: cpus }
    }

    /// The same engine, with a polling kernel thread or without.
    #[must_use]
    pub fn with_sqpoll(self, on: bool) -> (r: Self)
        ensures
            r == (EngineBuilder { sqpoll: on, ..self }),
    {
        EngineBuilder { sqpoll: on, ..self }
    }

    /// The same engine, with polled completions or without.
    #[must_use]
    pub fn with_iopoll(self, on: bool) -> (r: Self)
        ensures
            r == (EngineBuilder { iopoll: on, ..self }),
    {
        EngineBuilder { iopoll: on, ..self }
    }

    /// The worker threads and the queue depth of the threaded engine.
    #[must_use]
    pub fn threaded_shape(&self) -> (r: (usize, usize))
        ensures
            r.0 == (if self.workers == 0 {
                1
            } else {
                self.workers
            }),
            r.1 == (if self.sq_depth < 64 {
                64
            } else {
                self.sq_depth
            }),
    {
        let workers: usize = if self.workers == 0 {
            1
        } else {
            self.workers
        };
        let depth: usize = if self.sq_depth < 64 {
            64
        } else {
            self.sq_depth
        };
        (workers, depth)
    }
}

/// What is to be done about an operation.
#[derive(Debug, Clone, Copy, PartialEq, Eq, Structural)]
pub enum OpPlan {
    /// Nothing: this is the answer.
    Answer(Completion),
    /// Fill the buffer from the device.
    Fill { buf: BufHandle, offset: u64 },
    /// Write the buffer to the device, and make it durable if `sync`.
    Store { buf: BufHandle, offset: u64, sync: bool },
    /// Make everything durable.
    Sync,
}

/// What is to be done about an operation.
pub open spec fn plan_of(op: IoOp, devices: usize) -> OpPlan {
    let buf = BufHandle { slot: op.buf, off: op.buf_off, len: op.len };
    let offset = op.offset;
    if op.device >= devices {
        OpPlan::Answer(
            Completion {
                user_data: op.user_data,
                kind: op.kind,
                placed_offset: 0,
                result: OpResult::Failed(posix::EINVAL),
            },
        )
    } else {
        match op.kind {
            OpKind::Read => OpPlan::Fill { buf, offset },
            OpKind::Write => OpPlan::Store { buf, offset, sync: false },
            OpKind::WriteFua => OpPlan::Store { buf, offset, sync: true },
            OpKind::FlushData => OpPlan::Sync,
            OpKind::ZoneAppend => OpPlan::Store { buf, offset, sync: false },
            OpKind::Deallocate => OpPlan::Answer(
                Completion {
                    user_data: op.user_data,
                    kind: op.kind,
                    placed_offset: 0,
                    result: OpResult::Done(0),
                },
            ),
        }
    }
}

/// Says what is to be done about an operation: one on a device that does not
/// exist fails, and giving up a range asks nothing of a device.
pub fn plan_op(op: &IoOp, devices: usize) -> (r: OpPlan)
    ensures
        r == plan_of(*op, devices),
{
    if op.device as usize >= devices {
        return OpPlan::Answer(Completion::err(op.user_data, op.kind, posix::EINVAL));
    }
    let buf = BufHandle { slot: op.buf, off: op.buf_off, len: op.len };
    let offset = op.offset;
    match op.kind {
        OpKind::Read => OpPlan::Fill { buf, offset },
        OpKind::Write => OpPlan::Store { buf, offset, sync: false },
        OpKind::WriteFua => OpPlan::Store { buf, offset, sync: true },
        OpKind::FlushData => OpPlan::Sync,
        OpKind::ZoneAppend => OpPlan::Store { buf, offset, sync: false },
        OpKind::Deallocate => OpPlan::Answer(Completion::data(op.user_data, op.kind, 0)),
    }
}

/// The answer to an operation that the device did `bytes` of, or failed.
pub open spec fn answer_of(op: IoOp, outcome: Result<u32, i32>) -> Completion {
    match outcome {
        Err(errno) => Completion {
            user_data: op.user_data,
            kind: op.kind,
            placed_offset: 0,
            result: OpResult::Failed(errno),
        },
        Ok(bytes) => match op.kind {
            OpKind::FlushData => Completion {
                user_data: op.user_data,
                kind: op.kind,
                placed_offset: 0,
                result: OpResult::Flushed,
            },
            OpKind::Read => Completion {
                user_data: op.user_data,
                kind: op.kind,
                placed_offset: 0,
                result: OpResult::Done(op.len),
            },
            OpKind::ZoneAppend => Completion {
                user_data: op.user_data,
                kind: op.kind,
                placed_offset: op.offset,
                result: OpResult::Done(bytes),
            },
            OpKind::Deallocate => Completion {
                user_data: op.user_data,
                kind: op.kind,
                placed_offset: 0,
                result: OpResult::Done(0),
            },
            _ => Completion {
                user_data: op.user_data,
                kind: op.kind,
                placed_offset: 0,
                result: OpResult::Done(bytes),
            },
        },
    }
}

/// Says what an operation is answered, given what the device did.
pub fn answer_op(op: &IoOp, outcome: Result<u32, i32>) -> (r: Completion)
    ensures
        r == answer_of(*op, outcome),
{
    match outcome {
        Err(errno) => Completion::err(op.user_data, op.kind, errno),
        Ok(bytes) => match op.kind {
            OpKind::FlushData => Completion::ok(op.user_data, op.kind),
            OpKind::Read => Completion::data(op.user_data, op.kind, op.len),
            OpKind::ZoneAppend => Completion::zone_append(op.user_data, op.offset, bytes),
            OpKind::Deallocate => Completion::data(op.user_data, op.kind, 0),
            _ => Completion::data(op.user_data, op.kind, bytes),
        },
    }
}

/// Every answer is told by what its operation is told by, and is of its kind.
pub proof fn answers_match_their_operation(op: IoOp, devices: usize, outcome: Result<u32, i32>)
    ensures
        answer_of(op, outcome).user_data == op.user_data,
        answer_of(op, outcome).kind == op.kind,
        plan_of(op, devices) matches OpPlan::Answer(c) ==> c.user_data == op.user_data && c.kind
            == op.kind,
{
}

/// The queues of an engine and what it has done so far.
#[derive(Debug)]
pub struct ThreadedEngine {
    /// What waits to be done.
    pub inbox: MpmcQueue<IoOp>,
    /// What is done.
    pub outbox: MpmcQueue<Completion>,
    /// How many devices there are.
    pub devices: usize,
    pub stats: EngineStats,
    /// How many operations are under way, modulo two to the power of 64.
    pub in_flight: u64,
}

/// The smaller of two numbers.
pub open spec fn min(a: int, b: int) -> int {
    if a < b {
        a
    } else {
        b
    }
}

impl ThreadedEngine {
    /// The queues are sound.
    pub open spec fn wf(&self) -> bool {
        &&& self.inbox.wf()
        &&& self.outbox.wf()
    }

    /// An engine with queues of at least the given depth; that of the answers
    /// is four times as deep.
    pub fn new(devices: usize, queue_depth: usize) -> (r: Self)
        requires
            devices > 0,
            queue_depth * 4 <= usize::MAX / 2 + 1,
        ensures
            r.wf(),
            r.inbox@.len() == 0,
            r.outbox@.len() == 0,
            ({
                let depth = if queue_depth < 64 {
                    64
                } else {
                    queue_depth as int
                };
                &&& mpmc::is_next_pow2(depth, r.inbox.bound())
                &&& mpmc::is_next_pow2(depth * 4, r.outbox.bound())
            }),
            r.devices == devices,
            r.stats == (EngineStats {
                submitted: 0,
                completed: 0,
                failed: 0,
                flushes: 0,
                zone_appends: 0,
                max_in_flight: 0,
            }),
            r.in_flight == 0,
    {
        let depth: usize = if queue_depth < 64 {
            64
        } else {
            queue_depth
        };
        assert(usize::MAX >= 0xffff_ffff);
        ThreadedEngine {
            inbox: MpmcQueue::with_capacity_hint(depth),
            outbox: MpmcQueue::with_capacity_hint(depth * 4),
            devices,
            stats: EngineStats::default(),
            in_flight: 0,
        }
    }

    /// Takes the next operation to be done.
    pub fn next_op(&mut self) -> (r: Option<IoOp>)
        requires
            old(self).wf(),
        ensures
            final(self).wf(),
            old(self).inbox@.len() == 0 ==> r is None && final(self).inbox@ == old(self).inbox@,
            old(self).inbox@.len() > 0 ==> r == Some(old(self).inbox@[0]) && final(self).inbox@
                == old(self).inbox@.drop_first(),
            final(self).inbox.bound() == old(self).inbox.bound(),
            *final(self) == (ThreadedEngine { inbox: final(self).inbox, ..*old(self) }),
    {
        self.inbox.pop()
    }

    /// Takes an answer; `false`, and nothing is counted, if there is no room
    /// for it yet.
    pub fn complete(&mut self, kind: OpKind, completion: Completion) -> (ok: bool)
        requires
            old(self).wf(),
        ensures
            final(self).wf(),
            ok == (old(self).outbox@.len() < old(self).outbox.bound()),
            final(self).outbox@ == (if ok {
                old(self).outbox@.push(completion)
            } else {
                old(self).outbox@
            }),
            final(self).stats == (if ok {
                old(self).stats.after(kind, completion.result)
            } else {
                old(self).stats
            }),
            final(self).outbox.bound() == old(self).outbox.bound(),
            *final(self) == (ThreadedEngine {
                outbox: final(self).outbox,
                stats: final(self).stats,
                ..*old(self)
            }),
    {
        let ok = self.outbox.push(completion);
        if ok {
            self.stats.note_result(kind, completion.result);
        }
        ok
    }
}

/// Takes operations into a queue as long as there is room, and counts them; how
/// many.
pub fn submit_ops(
    inbox: &mut MpmcQueue<IoOp>,
    stats: &mut EngineStats,
    in_flight: &mut u64,
    ops: &[IoOp],
) -> (n: usize)
    requires
        old(inbox).wf(),
    ensures
        final(inbox).wf(),
        final(inbox).bound() == old(inbox).bound(),
        n == min(ops@.len() as int, old(inbox).bound() - old(inbox)@.len()),
        final(inbox)@ == old(inbox)@ + ops@.take(n as int),
        *final(in_flight) == (*old(in_flight)).wrapping_add(n as u64),
        *final(stats) == (EngineStats {
            submitted: old(stats).submitted.wrapping_add(n as u64),
            max_in_flight: if *final(in_flight) > old(stats).max_in_flight {
                *final(in_flight)
            } else {
                old(stats).max_in_flight
            },
            ..*old(stats)
        }),
{
    let ghost before = inbox@;
    let ghost bound = inbox.bound();
    let mut n: usize = 0;
    assert(inbox@ =~= before + ops@.take(0));
    while n < ops.len() && inbox.len() < inbox.capacity()
        invariant
            inbox.wf(),
            n <= ops@.len(),
            inbox@ == before + ops@.take(n as int),
            inbox@.len() <= inbox.bound(),
            inbox.bound() == bound,
        decreases ops@.len() - n,
    {
        let _ = inbox.push(ops[n]);
        n = n + 1;
        assert(inbox@ =~= before + ops@.take(n as int));
    }
    stats.submitted = stats.submitted.wrapping_add(n as u64);
    *in_flight = in_flight.wrapping_add(n as u64);
    stats.note_in_flight(*in_flight);
    n
}

/// Moves up to `max` answers out of a queue, and counts them; how many.
pub fn reap_answers(
    outbox: &mut MpmcQueue<Completion>,
    stats: &mut EngineStats,
    in_flight: &mut u64,
    out: &mut Vec<Completion>,
    max: usize,
) -> (n: usize)
    requires
        old(outbox).wf(),
    ensures
        final(outbox).wf(),
        final(outbox).bound() == old(outbox).bound(),
        n == min(max as int, old(outbox)@.len() as int),
        final(out)@ == old(out)@ + old(outbox)@.take(n as int),
        final(outbox)@ == old(outbox)@.skip(n as int),
        *final(in_flight) == (*old(in_flight)).wrapping_sub(n as u64),
        *final(stats) == (EngineStats {
            completed: old(stats).completed.wrapping_add(n as u64),
            ..*old(stats)
        }),
{
    let ghost all = outbox@;
    let ghost before = out@;
    let ghost bound = outbox.bound();
    let mut n: usize = 0;
    assert(out@ =~= before + all.take(0));
    assert(outbox@ =~= all.skip(0));
    while n < max && !outbox.is_empty()
        invariant
            outbox.wf(),
            n <= max,
            n <= all.len(),
            out@ == before + all.take(n as int),
            outbox@ == all.skip(n as int),
            outbox.bound() == bound,
        decreases max - n,
    {
        match outbox.pop() {
            Some(c) => {
                out.push(c);
            },
            None => {},
        }
        n = n + 1;
        assert(out@ =~= before + all.take(n as int));
        assert(outbox@ =~= all.skip(n as int));
    }
    stats.completed = stats.completed.wrapping_add(n as u64);
    *in_flight = in_flight.wrapping_sub(n as u64);
    n
}

/// A running engine: it takes operations and gives answers.
pub trait IoEngine {
    /// The engine is sound.
    spec fn sound(&self) -> bool;

    /// What waits to be done.
    spec fn queued(&self) -> Seq<IoOp>;

    /// What is done and not reaped yet.
    spec fn answered(&self) -> Seq<Completion>;

    /// How many operations can wait.
    spec fn depth(&self) -> int;

    /// The name of the engine.
    fn name(&self) -> (r: &'static str);

    /// Takes operations as long as there is room; how many.
    fn submit(&mut self, ops: &[IoOp]) -> (n: usize)
        requires
            old(self).sound(),
        ensures
            final(self).sound(),
            n == min(ops@.len() as int, old(self).depth() - old(self).queued().len()),
            final(self).queued() == old(self).queued() + ops@.take(n as int),
            final(self).answered() == old(self).answered(),
            final(self).depth() == old(self).depth(),
    ;

    /// Says that operations were submitted, to an engine that has to be told.
    fn submit_doorbell(&mut self) -> (r: Result<(), Error>)
        requires
            old(self).sound(),
        ensures
            final(self).sound(),
            final(self).queued() == old(self).queued(),
            final(self).answered() == old(self).answered(),
            final(self).depth() == old(self).depth(),
    ;

    /// Moves up to `max` answers into `out`; how many.
    fn reap(&mut self, out: &mut Vec<Completion>, max: usize) -> (n: usize)
        requires
            old(self).sound(),
        ensures
            final(self).sound(),
            n == min(max as int, old(self).answered().len() as int),
            final(out)@ == old(out)@ + old(self).answered().take(n as int),
            final(self).answered() == old(self).answered().skip(n as int),
            final(self).queued() == old(self).queued(),
            final(self).depth() == old(self).depth(),
    ;

    /// Whether there are answers to reap.
    fn has_completions(&self) -> (r: bool)
        ensures
            r == (self.answered().len() > 0),
    ;

    /// What the engine has done so far.
    fn stats(&self) -> (r: &EngineStats);
}

impl IoEngine for ThreadedEngine {
    open spec fn sound(&self) -> bool {
        self.wf()
    }

    open spec fn queued(&self) -> Seq<IoOp> {
        self.inbox@
    }

    open spec fn answered(&self) -> Seq<Completion> {
        self.outbox@
    }

    open spec fn depth(&self) -> int {
        self.inbox.bound()
    }

    fn name(&self) -> (r: &'static str)
        ensures
            r@ == "threaded"@,
    {
        "threaded"
    }

    fn submit(&mut self, ops: &[IoOp]) -> (n: usize)
        ensures
            final(self).in_flight == old(self).in_flight.wrapping_add(n as u64),
            final(self).stats == (EngineStats {
                submitted: old(self).stats.submitted.wrapping_add(n as u64),
                max_in_flight: if final(self).in_flight > old(self).stats.max_in_flight {
                    final(self).in_flight
                } else {
                    old(self).stats.max_in_flight
                },
                ..old(self).stats
            }),
            final(self).outbox == old(self).outbox,
            final(self).devices == old(self).devices,
    {
        submit_ops(&mut self.inbox, &mut self.stats, &mut self.in_flight, ops)
    }

    fn submit_doorbell(&mut self) -> (r: Result<(), Error>)
        ensures
            r is Ok,
            *final(self) == *old(self),
    {
        Ok(())
    }

    fn reap(&mut self, out: &mut Vec<Completion>, max: usize) -> (n: usize)
        ensures
            final(self).outbox.bound() == old(self).outbox.bound(),
            final(self).stats == (EngineStats {
                completed: old(self).stats.completed.wrapping_add(n as u64),
                ..old(self).stats
            }),
            final(self).in_flight == old(self).in_flight.wrapping_sub(n as u64),
            final(self).inbox == old(self).inbox,
            final(self).devices == old(self).devices,
    {
        reap_answers(&mut self.outbox, &mut self.stats, &mut self.in_flight, out, max)
    }

    fn has_completions(&self) -> (r: bool) {
        !self.outbox.is_empty()
    }

    fn stats(&self) -> (r: &EngineStats)
        ensures
            *r == self.stats,
    {
        &self.stats
    }
}

/// What is to be done about an operation. One for a device that is not there
/// is refused. A read fills its buffer from its offset; the writes store theirs
/// at it, and only the one that asks for it is made durable at once; a flush
/// makes everything durable; a hint is answered at once.
pub proof fn operations_are_planned_by_kind(op: IoOp, devices: usize)
    ensures
        ({
            let plan = plan_of(op, devices);
            let buf = BufHandle { slot: op.buf, off: op.buf_off, len: op.len };
            &&& op.device >= devices ==> plan == OpPlan::Answer(
                Completion {
                    user_data: op.user_data,
                    kind: op.kind,
                    placed_offset: 0,
                    result: OpResult::Failed(22),
                },
            )
            &&& op.device < devices ==> {
                &&& op.kind == OpKind::Read ==> plan == (OpPlan::Fill { buf, offset: op.offset })
                &&& op.kind == OpKind::Write || op.kind == OpKind::ZoneAppend ==> plan == (
                OpPlan::Store { buf, offset: op.offset, sync: false })
                &&& op.kind == OpKind::WriteFua ==> plan == (OpPlan::Store {
                    buf,
                    offset: op.offset,
                    sync: true,
                })
                &&& op.kind == OpKind::FlushData ==> plan is Sync
                &&& op.kind == OpKind::Deallocate ==> (plan matches OpPlan::Answer(c) && c.result
                    == OpResult::Done(0))
            }
        }),
{
}

/// What an operation is answered: the error that it ended in; else that it was
/// flushed, or how many bytes were moved, which for a read are those that were
/// asked for. Only an append says where its bytes are.
pub proof fn outcomes_are_answered(op: IoOp, bytes: u32, errno: i32)
    ensures
        answer_of(op, Err(errno)).result == OpResult::Failed(errno),
        answer_of(op, Err(errno)).placed_offset == 0,
        ({
            let c = answer_of(op, Ok(bytes));
            &&& op.kind == OpKind::FlushData ==> c.result == OpResult::Flushed
            &&& op.kind == OpKind::Read ==> c.result == OpResult::Done(op.len)
            &&& op.kind == OpKind::Write || op.kind == OpKind::WriteFua || op.kind
                == OpKind::ZoneAppend ==> c.result == OpResult::Done(bytes)
            &&& op.kind == OpKind::Deallocate ==> c.result == OpResult::Done(0)
            &&& c.placed_offset == (if op.kind == OpKind::ZoneAppend {
                op.offset
            } else {
                0
            })
        }),
{
}

/// What a result adds to the statistics: a failure counts as one, whatever
/// failed; an append that did not fail counts as one; nothing else changes.
pub proof fn results_are_counted(stats: EngineStats, kind: OpKind, result: OpResult)
    requires
        stats.failed < u64::MAX,
        stats.zone_appends < u64::MAX,
    ensures
        ({
            let after = stats.after(kind, result);
            &&& after.failed == stats.failed + (if result is Failed {
                1int
            } else {
                0
            })
            &&& after.zone_appends == stats.zone_appends + (if kind == OpKind::ZoneAppend
                && !(result is Failed) {
                1int
            } else {
                0
            })
            &&& after == (EngineStats {
                failed: after.failed,
                zone_appends: after.zone_appends,
                ..stats
            })
        }),
{
}

} // verus!
