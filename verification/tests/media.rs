use lionfs::media::alignment::{
    health_summary, round_allocation, split_for_submission, AlignmentClass, AlignmentCounters,
    DeviceGeometry,
};
use lionfs::media::tier::{barrier_for, place, Barrier, MemoryTier, PlacementTarget};

fn geo(logical: u32, physical: u32, optimal: Option<u32>) -> DeviceGeometry {
    DeviceGeometry {
        size_bytes: 1 << 40,
        logical_sector_size: logical,
        physical_sector_size: physical,
        optimal_io_size: optimal,
    }
}

#[test]
fn class_from_geometry_prefers_optimal() {
    assert_eq!(
        AlignmentClass::from_geometry(&geo(512, 4096, Some(16_384))),
        AlignmentClass::K16
    );
    assert_eq!(
        AlignmentClass::from_geometry(&geo(512, 4096, Some(65_536))),
        AlignmentClass::K64
    );
    assert_eq!(
        AlignmentClass::from_geometry(&geo(512, 4096, None)),
        AlignmentClass::K4
    );
    // 512-byte sector reports floor at the filesystem block size.
    assert_eq!(
        AlignmentClass::from_geometry(&geo(512, 512, None)),
        AlignmentClass::K4
    );
}

#[test]
fn round_allocation_pads_without_lying() {
    let mut counters = AlignmentCounters::default();
    let (off, len, padding) = round_allocation(AlignmentClass::K4, 4096, 100, &mut counters);
    assert_eq!(off, 4096);
    assert_eq!(len, 4096);
    assert_eq!(padding, 1);
    // Covering semantics at 64K: a 4-KiB request straddling a unit
    // boundary expands to the whole containing unit (start rounds
    // down, end rounds up), with the expansion accounted as padding.
    let (off, big_len, _p) = round_allocation(AlignmentClass::K64, 4096, 4096, &mut counters);
    assert_eq!(off, 0);
    assert_eq!(big_len, 65_536);
    // Exactly-unit-aligned requests pass through unchanged.
    let (off, exact, _p) = round_allocation(AlignmentClass::K64, 65_536, 65_536, &mut counters);
    assert_eq!((off, exact), (65_536, 65_536));
}

#[test]
fn aligned_submission_is_fast_path() {
    let mut counters = AlignmentCounters::default();
    let base = counters.aligned_submissions;
    let (segs, bounce) = split_for_submission(AlignmentClass::K4, 8192, 8192, &mut counters);
    assert_eq!(segs, vec![(8192, 8192)]);
    assert!(!bounce);
    assert_eq!(
        counters.aligned_submissions,
        base + 1
    );
}

#[test]
fn misaligned_head_takes_bounce_path() {
    let mut counters = AlignmentCounters::default();
    let base = counters.bounce_buffer_slow_path;
    let (segs, bounce) = split_for_submission(AlignmentClass::K4, 8192 + 100, 4096, &mut counters);
    assert!(bounce);
    assert!(counters.bounce_buffer_slow_path >= base + 1);
    // Segments must tile the requested range exactly.
    let covered: u64 = segs.iter().map(|(_, l)| l).sum();
    assert_eq!(covered, 4096);
    let mut cur = 8192 + 100;
    for (off, len) in segs {
        assert_eq!(off, cur);
        cur += len;
    }
}

#[test]
fn mixed_range_merges_full_units() {
    let mut counters = AlignmentCounters::default();
    // 12 KiB starting at 4 KiB boundary: one full 4K unit + tail.
    let (segs, _bounce) = split_for_submission(AlignmentClass::K4, 4096, 12_288, &mut counters);
    let covered: u64 = segs.iter().map(|(_, l)| l).sum();
    assert_eq!(covered, 12_288);
    // The aligned middle must be merged, not one segment per unit.
    assert!(segs.len() <= 3, "segments: {segs:?}");
}

#[test]
fn sector_class_never_splits() {
    let mut counters = AlignmentCounters::default();
    let (segs, bounce) = split_for_submission(AlignmentClass::Sector, 33, 77, &mut counters);
    assert_eq!(segs, vec![(33, 77)]);
    assert!(!bounce);
}

#[test]
fn health_summary_is_populated() {
    let s = health_summary(&AlignmentCounters::default());
    assert!(s.starts_with("aligned="));
}

#[test]
fn classes_name_themselves() {
    assert_eq!(AlignmentClass::K64.name(), "64K");
    assert_eq!(AlignmentClass::K16.name(), "16K");
    assert_eq!(AlignmentClass::K4.name(), "4K");
}

#[test]
fn journal_leaves_filters_prefer_pmem() {
    for t in [
        PlacementTarget::IntentJournal,
        PlacementTarget::MetadataLeaves,
        PlacementTarget::DedupBloomFilter,
    ] {
        let p = place(t, true);
        assert_eq!(p.tier, MemoryTier::CxlPmem);
        assert!(!p.steer_dma);
    }
}

#[test]
fn without_pmem_everything_is_dram() {
    let p = place(PlacementTarget::IntentJournal, false);
    assert_eq!(p.tier, MemoryTier::Dram);
    assert!(!p.steer_dma);
}

#[test]
fn rmw_staging_steers_dma_to_pmem() {
    let p = place(PlacementTarget::RmwStaging, true);
    assert_eq!(p.tier, MemoryTier::CxlPmem);
    assert!(p.steer_dma);
    let p = place(PlacementTarget::RmwStaging, false);
    assert_eq!(p.tier, MemoryTier::Dram);
    assert!(!p.steer_dma);
}

#[test]
fn transient_stays_dram() {
    let p = place(PlacementTarget::Transient, true);
    assert_eq!(p.tier, MemoryTier::Dram);
}

#[test]
fn barriers_match_tiers() {
    assert_eq!(barrier_for(MemoryTier::CxlPmem), Barrier::ClwbFence);
    assert_eq!(barrier_for(MemoryTier::Dram), Barrier::DeviceFlush);
}

#[test]
fn counters_tell_what_alignment_cost() {
    let mut counters = AlignmentCounters::default();
    let _ = round_allocation(AlignmentClass::K16, 5000, 10, &mut counters);
    let (segs, bounce) = split_for_submission(AlignmentClass::K4, 4000, 9000, &mut counters);
    assert_eq!(segs, vec![(4000, 96), (4096, 8192), (12_288, 712)]);
    assert!(bounce);
    assert_eq!(
        health_summary(&counters),
        "aligned=0 split=1 bounce=1 padding_blocks=4"
    );
    assert_eq!(MemoryTier::CxlPmem.name(), "cxl-pmem");
    assert!(!MemoryTier::Dram.durable_via_clwb());
}
