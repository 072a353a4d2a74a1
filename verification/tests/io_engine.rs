use lionfs::io_engine::op::{Completion, IoOp, OpKind, OpResult};
use lionfs::io_engine::shard::{shard_of, splitmix64, FreeSpaceRun, ShardTable, NUM_SHARDS_MAX};
use lionfs::io_engine::mpmc::MpmcQueue;
use lionfs::media::MediaClass;
use lionfs::io_engine::engine::{
    answer_op, plan_op, EngineBuilder, EngineStats, IoEngine, OpPlan, ThreadedEngine,
};
use lionfs::io_engine::uring::{
    kind_for_user_data, owner_next, pending_after, reap_one, ring_shape, submit_batch,
    tag_user_data, OwnerAction, PendingOps, RingRequest, KIND_TAG_SHIFT,
};
use lionfs::io_engine::zero_copy::{BufHandle, RegisteredBufArena};

#[test]
fn descriptors_are_plain_data() {
    let ops = [
        IoOp::read(0, 4096, 4096, 1, 0, 42),
        IoOp::write_fua(0, 8192, 4096, 1, 4096, 43),
        IoOp::zone_append(0, 7, 16 * 1024, 2, 0, 44),
        IoOp::flush_data(0, 45),
    ];
    assert_eq!(ops[0].kind, OpKind::Read);
    assert_eq!(ops[1].kind, OpKind::WriteFua);
    assert_eq!(ops[2].zone, 7);
    assert_eq!(ops[3].user_data, 45);
    // 48-byte POD: fits in a cache line with room for one neighbor.
    assert!(std::mem::size_of::<IoOp>() <= 48);
}

#[test]
fn completion_shapes() {
    let c = Completion::zone_append(9, 0x1_0000, 16 * 1024);
    assert_eq!(c.placed_offset, 0x1_0000);
    assert_eq!(c.result, OpResult::Done(16 * 1024));
    let e = Completion::err(1, OpKind::Read, 5);
    assert!(e.result.is_err());
}

#[test]
fn splitmix_avalanches() {
    // Adjacent inputs must produce outputs with a healthy Hamming
    // distance (avalanche): expected 32, accept 20..44.
    let a = splitmix64(1);
    let b = splitmix64(2);
    let dist = (a ^ b).count_ones();
    assert!(
        (20..44).contains(&dist),
        "hamming distance {dist} not avalanche-like"
    );
}

#[test]
fn shard_routing_is_stable_and_spread() {
    let n = 8;
    let mut counts = vec![0usize; n];
    for fd in 0..16u32 {
        for ino in 1..=64u64 {
            let s = shard_of(fd, ino, n);
            assert!(s < n);
            counts[s] += 1;
        }
    }
    // With 1024 samples over 8 shards, every shard must have been
    // hit (a shard starvation here would be a routing bug).
    assert!(counts.iter().all(|&c| c > 0));
    // And no single shard may absorb a pathological share.
    assert!(counts.iter().all(|&c| c < 512), "counts: {counts:?}");
}

#[test]
fn shard_table_sizing() {
    let t = ShardTable::for_cpus(1);
    assert_eq!(t.len(), 1);
    let t = ShardTable::for_cpus(5);
    assert_eq!(t.len(), 8);
    let t = ShardTable::for_cpus(1 << 20);
    assert_eq!(t.len(), NUM_SHARDS_MAX);
}

#[test]
fn allocate_takes_and_splits_runs() {
    let mut t = ShardTable::for_cpus(1);
    let s = t.get_mut(0);
    assert!(s.release(FreeSpaceRun {
        start: 100,
        blocks: 10,
        media: MediaClass::Ssd
    }));
    let got = s.allocate(4).unwrap();
    assert_eq!(got.start, 100);
    assert_eq!(got.blocks, 4);
    // Leftover run remains.
    let got2 = s.allocate(6).unwrap();
    assert_eq!(got2.start, 104);
    assert_eq!(got2.blocks, 6);
    assert!(s.allocate(1).is_none());
}

#[test]
fn allocate_returns_none_when_only_small_runs() {
    let mut t = ShardTable::for_cpus(1);
    let s = t.get_mut(0);
    s.release(FreeSpaceRun {
        start: 0,
        blocks: 2,
        media: MediaClass::Ssd,
    });
    assert!(s.allocate(4).is_none());
    // The small run is still there for a small allocation.
    assert!(s.allocate(2).is_some());
}

#[test]
fn cross_shard_accounting_sums() {
    let mut t = ShardTable::for_cpus(4);
    for id in 0..t.len() {
        t.get_mut(id).release(FreeSpaceRun {
            start: 0,
            blocks: 7,
            media: MediaClass::Ssd,
        });
    }
    assert_eq!(t.total_local_free(), 28);
}


#[test]
fn fifo_order_single_thread() {
    let mut q = MpmcQueue::<u64>::with_capacity_hint(16);
    for i in 0..16 {
        assert!(q.push(i));
    }
    assert!(!q.push(99), "queue must be full at capacity");
    for i in 0..16 {
        assert_eq!(q.pop(), Some(i));
    }
    assert_eq!(q.pop(), None);
}

#[test]
fn wraparound_after_drain() {
    let mut q = MpmcQueue::<u64>::with_capacity_hint(4);
    for round in 0..1000u64 {
        assert!(q.push(round));
        assert_eq!(q.pop(), Some(round));
    }
    assert!(q.is_empty());
}

#[test]
fn len_is_racy_but_bounded() {
    let mut q = MpmcQueue::<u8>::with_capacity_hint(8);
    q.push(1);
    q.push(2);
    let l = q.len();
    assert!(l <= 2);
}

#[test]
fn lease_release_exclusivity() {
    let mut arena = RegisteredBufArena::new(4, 4096, 4096);
    let h = arena.lease(512).unwrap();
    // Slot is exclusively leased: re-leasing must skip it, and with
    // all slots leased the arena reports backpressure.
    let h2 = arena.lease(512).unwrap();
    let h3 = arena.lease(512).unwrap();
    let h4 = arena.lease(512).unwrap();
    assert_eq!(arena.outstanding_leases(), 4);
    assert!(arena.lease(8).is_none(), "full arena must be backpressure");
    arena.release(h);
    arena.release(h2);
    arena.release(h3);
    arena.release(h4);
    assert_eq!(arena.outstanding_leases(), 0);
    assert!(arena.lease(8).is_some());
}

#[test]
fn oversize_request_rejected() {
    let mut arena = RegisteredBufArena::new(2, 4096, 4096);
    assert!(arena.lease(8192).is_none());
}

#[test]
fn write_and_read_back_through_arena() {
    let mut arena = RegisteredBufArena::new(2, 64 * 1024, 4096);
    let h = arena.copy_in(&[9u8; 100]).unwrap();
    let s = arena.slice(h);
    assert!(s.iter().take(100).all(|&b| b == 9));
    let mut out = vec![0u8; 50];
    arena.copy_out(h, &mut out);
    assert!(out.iter().all(|&b| b == 9));
    assert_eq!(arena.bounce.copy_in, 1);
    assert_eq!(arena.bounce.copy_out, 1);
}

#[test]
fn many_slots_alloc_free_cycle() {
    for _ in 0..64 {
        let mut arena = RegisteredBufArena::new(16, 8192, 4096);
        let hs: Vec<_> = (0..16).filter_map(|_| arena.lease(16)).collect();
        assert_eq!(hs.len(), 16);
        for h in hs {
            arena.release(h);
        }
    }
}


#[test]
fn user_data_tagging_roundtrip() {
    let ud = (1u64 << 40) | 0xdead;
    for kind in [
        OpKind::Read,
        OpKind::Write,
        OpKind::FlushData,
        OpKind::ZoneAppend,
    ] {
        let tagged = tag_user_data(ud, kind);
        assert_eq!(kind_for_user_data(tagged), kind);
        assert_eq!(tagged & ((1 << KIND_TAG_SHIFT) - 1), ud);
    }
}

#[test]
fn user_data_tagging_fits_62_bit_ids() {
    let ud = u64::MAX >> 2;
    let tagged = tag_user_data(ud, OpKind::ZoneAppend);
    assert_eq!(tagged & ((1 << KIND_TAG_SHIFT) - 1), ud);
    assert_eq!(kind_for_user_data(tagged), OpKind::ZoneAppend);
}

#[test]
fn full_queue_of_one_keeps_its_item() {
    let mut q = MpmcQueue::<u8>::with_capacity_hint(1);
    assert_eq!(q.capacity(), 1);
    assert!(q.push(7));
    assert!(!q.push(8));
    assert_eq!(q.pop(), Some(7));
    assert_eq!(q.pop(), None);
    assert_eq!(MpmcQueue::<u8>::with_capacity_hint(5).capacity(), 8);
}

#[test]
fn engine_gives_answers_in_order() {
    let mut e = ThreadedEngine::new(1, 1);
    assert_eq!(e.name(), "threaded");
    let ops = [IoOp::write(0, 0, 4, 0, 0, 1), IoOp::flush_data(0, 2), IoOp::read(9, 0, 4, 0, 0, 3)];
    assert_eq!(e.submit(&ops), 3);
    assert!(!e.has_completions());
    let mut seen = 0;
    while let Some(op) = e.next_op() {
        let answer = match plan_op(&op, e.devices) {
            OpPlan::Answer(c) => c,
            OpPlan::Store { sync, .. } => {
                assert!(!sync);
                answer_op(&op, Ok(4))
            }
            _ => answer_op(&op, Ok(0)),
        };
        assert!(e.complete(op.kind, answer));
        seen += 1;
    }
    assert_eq!(seen, 3);
    let mut out = Vec::new();
    assert_eq!(e.reap(&mut out, 2), 2);
    assert_eq!(e.reap(&mut out, 2), 1);
    assert_eq!(out[0].result, OpResult::Done(4));
    assert_eq!(out[1].result, OpResult::Flushed);
    assert_eq!(out[2].result, OpResult::Failed(22));
    assert_eq!(out[2].user_data, 3);
    let stats = e.stats();
    assert_eq!((stats.submitted, stats.completed, stats.failed), (3, 3, 1));
    assert_eq!(stats.max_in_flight, 3);
}

#[test]
fn kernel_answers_are_matched_to_operations() {
    let mut pending = PendingOps::new();
    let mut stats = EngineStats::default();
    let mut append = IoOp::zone_append(0, 3, 512, 0, 0, 90);
    append.offset = 0x2_0000;
    let entries = submit_batch(&[append, IoOp::read(0, 0, 8, 0, 0, 91)], 1, &mut pending);
    assert_eq!(entries.len(), 1);
    assert_eq!(entries[0].request, RingRequest::Write);
    let c = reap_one(entries[0].user_data, 512, &mut pending, &mut stats);
    assert_eq!(c, Completion::zone_append(90, 0x2_0000, 512));
    assert_eq!(stats.zone_appends, 1);
    let read = tag_user_data(5, OpKind::Read);
    assert_eq!(reap_one(read, 0, &mut pending, &mut stats).result, OpResult::Failed(5));
    assert_eq!(reap_one(read, -22, &mut pending, &mut stats).result, OpResult::Failed(22));
    assert_eq!(reap_one(read, 8, &mut pending, &mut stats).result, OpResult::Done(8));
    assert_eq!(stats.failed, 2);
    // Kinds that share a tag come back as what they were.
    let mut gone = IoOp::read(0, 0, 8, 0, 0, 92);
    gone.kind = OpKind::Deallocate;
    let durable = IoOp::write_fua(0, 0, 8, 0, 0, u64::MAX);
    let entries = submit_batch(&[gone, durable], 8, &mut pending);
    let c = reap_one(entries[0].user_data, 0, &mut pending, &mut stats);
    assert_eq!(c, Completion::data(92, OpKind::Deallocate, 0));
    let c = reap_one(entries[1].user_data, 8, &mut pending, &mut stats);
    assert_eq!(c, Completion::data(u64::MAX, OpKind::WriteFua, 8));
    assert_eq!(ring_shape(7), (64, 256));
    assert_eq!(ring_shape(1 << 20), (32_768, 131_072));
    assert_eq!(owner_next(true, true, 0), OwnerAction::Stop);
    assert_eq!(owner_next(true, true, 1), OwnerAction::WaitForKernel);
    assert_eq!(owner_next(false, true, 0), OwnerAction::Park);
    assert_eq!(pending_after(2, 3, 4), 1);
}

/// An engine with one device of 8 MiB, held in memory.
struct Rig {
    engine: ThreadedEngine,
    arena: RegisteredBufArena,
    device: Vec<u8>,
}

fn test_engine() -> Rig {
    Rig {
        engine: ThreadedEngine::new(1, 64),
        arena: RegisteredBufArena::new(32, 64 * 1024, 4096),
        device: vec![0u8; 8 * 1024 * 1024],
    }
}

impl Rig {
    /// Does one operation on the device.
    fn execute(&mut self, op: &IoOp) -> Completion {
        match plan_op(op, self.engine.devices) {
            OpPlan::Answer(c) => c,
            OpPlan::Fill { buf, offset } => {
                let end = offset as usize + buf.len as usize;
                if end > self.device.len() {
                    return answer_op(op, Err(5));
                }
                let bytes = self.device[offset as usize..end].to_vec();
                self.arena.fill(buf, &bytes);
                answer_op(op, Ok(bytes.len() as u32))
            }
            OpPlan::Store { buf, offset, .. } => {
                let end = offset as usize + buf.len as usize;
                if end > self.device.len() {
                    return answer_op(op, Err(5));
                }
                let bytes = self.arena.slice(buf).to_vec();
                self.device[offset as usize..end].copy_from_slice(&bytes);
                answer_op(op, Ok(bytes.len() as u32))
            }
            OpPlan::Sync => answer_op(op, Ok(0)),
        }
    }

    /// Works off the inbox, then takes `want` answers.
    fn wait_for_completions(&mut self, want: usize, out: &mut Vec<Completion>) {
        while let Some(op) = self.engine.next_op() {
            let done = self.execute(&op);
            assert!(self.engine.complete(op.kind, done));
        }
        self.engine.reap(out, want);
        assert_eq!(out.len(), want);
    }
}

#[test]
fn write_then_read_roundtrip() {
    let mut rig = test_engine();
    let h = rig.arena.copy_in(&[0xA5u8; 4096]).expect("arena");
    let ops = [IoOp::write(0, 8192, 4096, h.slot, h.off, 77)];
    assert_eq!(rig.engine.submit(&ops), 1);
    let mut out = Vec::new();
    rig.wait_for_completions(1, &mut out);
    assert_eq!(out[0].user_data, 77);
    assert_eq!(out[0].result, OpResult::Done(4096));

    let h2 = rig.arena.lease(4096).expect("arena");
    let ops = [IoOp::read(0, 8192, 4096, h2.slot, h2.off, 78)];
    assert_eq!(rig.engine.submit(&ops), 1);
    let mut out = Vec::new();
    rig.wait_for_completions(1, &mut out);
    assert_eq!(out[0].user_data, 78);
    let data = rig.arena.slice(h2);
    assert!(data.iter().all(|&b| b == 0xA5));
}

#[test]
fn zone_append_places_at_hinted_pointer() {
    let mut rig = test_engine();
    let h = rig.arena.copy_in(&[0x11u8; 512]).unwrap();
    // The "zone write pointer" for this simulated zone is 0x2_0000.
    let mut op = IoOp::zone_append(0, 3, 512, h.slot, h.off, 90);
    op.offset = 0x2_0000;
    assert_eq!(rig.engine.submit(&[op]), 1);
    let mut out = Vec::new();
    rig.wait_for_completions(1, &mut out);
    assert_eq!(out[0].placed_offset, 0x2_0000);
    assert_eq!(out[0].result, OpResult::Done(512));
    assert!(rig.engine.stats().zone_appends >= 1);
}

#[test]
fn flush_data_completes() {
    let mut rig = test_engine();
    let ops = [IoOp::flush_data(0, 1)];
    assert_eq!(rig.engine.submit(&ops), 1);
    let mut out = Vec::new();
    rig.wait_for_completions(1, &mut out);
    assert_eq!(out[0].result, OpResult::Flushed);
}

#[test]
fn short_read_past_eof_is_failure_not_garbage() {
    let mut rig = test_engine();
    let h = rig.arena.lease(4096).unwrap();
    // Device is 8 MiB; read at EOF.
    let ops = [IoOp::read(0, 8 * 1024 * 1024, 4096, h.slot, h.off, 3)];
    assert_eq!(rig.engine.submit(&ops), 1);
    let mut out = Vec::new();
    rig.wait_for_completions(1, &mut out);
    assert!(out[0].result.is_err());
    assert!(rig.engine.stats().failed >= 1);
}

#[test]
fn invalid_device_index_fails_cleanly() {
    let mut rig = test_engine();
    let h = rig.arena.lease(16).unwrap();
    let ops = [IoOp::read(9, 0, 16, h.slot, h.off, 5)];
    assert_eq!(rig.engine.submit(&ops), 1);
    let mut out = Vec::new();
    rig.wait_for_completions(1, &mut out);
    assert!(out[0].result.is_err());
}

#[test]
fn batch_of_many_round_trips() {
    let mut rig = test_engine();
    const N: usize = 256;
    let mut handles: Vec<BufHandle> = Vec::with_capacity(N);
    for i in 0usize..N {
        // We can only lease 32 at a time: flush the wave BEFORE
        // leasing the next handle, so the arena never over-subscribes.
        if handles.len() == 32 {
            let wave: Vec<IoOp> = handles
                .iter()
                .enumerate()
                .map(|(j, h)| {
                    let at = (i - 32 + j) as u64;
                    IoOp::write(0, at * 4096, 4096, h.slot, h.off, at)
                })
                .collect();
            assert_eq!(rig.engine.submit(&wave), 32);
            let mut out = Vec::new();
            rig.wait_for_completions(32, &mut out);
            for h in handles.drain(..) {
                rig.arena.release(h);
            }
        }
        let h = rig
            .arena
            .lease(4096)
            .expect("arena has 32 slots; waves respect backpressure");
        handles.push(h);
    }
    if !handles.is_empty() {
        let start = N - handles.len();
        let wave: Vec<IoOp> = handles
            .iter()
            .enumerate()
            .map(|(j, h)| {
                let at = (start + j) as u64;
                IoOp::write(0, at * 4096, 4096, h.slot, h.off, at)
            })
            .collect();
        assert_eq!(rig.engine.submit(&wave), wave.len());
        let mut out = Vec::new();
        rig.wait_for_completions(wave.len(), &mut out);
    }
    assert!(rig.engine.stats().completed >= N as u64);
}

#[test]
fn builders_keep_what_they_are_given() {
    let b = EngineBuilder::for_cpus(0).with_sqpoll(true).with_iopoll(false);
    assert!(b.sqpoll && !b.iopoll);
    assert_eq!((b.sq_depth, b.workers), (1024, 0));
    assert_eq!(b.threaded_shape(), (1, 1024));
    let a = RegisteredBufArena::with_defaults(4096);
    assert_eq!(a.outstanding_leases(), 0);
    assert!(a.slot_count() > 0);
}

#[test]
fn dirty_bytes_are_staged_and_drained() {
    let mut table = ShardTable::for_cpus(3);
    let shard = table.get_mut(2);
    shard.stage_dirty(100);
    shard.stage_dirty(28);
    assert_eq!(shard.drain_dirty(), 128);
    assert_eq!(shard.drain_dirty(), 0);
    assert_eq!(table.len(), 4);
}

#[test]
fn mixing_has_a_known_value() {
    assert_eq!(splitmix64(0), 0xE220_A839_7B1D_CDAF);
}
