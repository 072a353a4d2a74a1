//! Which tier of memory something is placed in, and what makes it durable
//! there.

use vstd::prelude::*;

verus! {

/// A tier of memory.
#[derive(Debug, Clone, Copy, PartialEq, Eq, PartialOrd, Ord, Structural)]
pub enum MemoryTier {
    /// What is transient.
    Dram,
    /// Persistent memory, byte by byte.
    CxlPmem,
}

impl MemoryTier {
    /// The name of the tier.
    #[must_use]
    pub fn name(self) -> (r: &'static str)
        ensures
            r@ == (match self {
                MemoryTier::Dram => "dram"@,
                MemoryTier::CxlPmem => "cxl-pmem"@,
            }),
    {
        match self {
            MemoryTier::Dram => "dram",
            MemoryTier::CxlPmem => "cxl-pmem",
        }
    }

    /// Whether writing back cache lines makes writes durable.
    #[must_use]
    pub fn durable_via_clwb(self) -> (r: bool)
        ensures
            r == (self == MemoryTier::CxlPmem),
    {
        match self {
            MemoryTier::Dram => false,
            MemoryTier::CxlPmem => true,
        }
    }
}

/// What is placed.
#[derive(Debug, Clone, Copy, PartialEq, Eq, Structural)]
pub enum PlacementTarget {
    IntentJournal,
    MetadataLeaves,
    DedupBloomFilter,
    /// Where a device writes what is read, changed and written again.
    RmwStaging,
    /// Ordinary data.
    Transient,
}

/// Where something is placed.
#[derive(Debug, Clone, Copy, PartialEq, Eq, Structural)]
pub struct TierPlacement {
    pub target: PlacementTarget,
    pub tier: MemoryTier,
    /// Whether devices write straight into it.
    pub steer_dma: bool,
}

/// Where something is to be placed.
#[must_use]
pub fn place(target: PlacementTarget, pmem_available: bool) -> (r: TierPlacement)
    ensures
        r.target == target,
        r.tier == (if pmem_available && target != PlacementTarget::Transient {
            MemoryTier::CxlPmem
        } else {
            MemoryTier::Dram
        }),
        r.steer_dma == (pmem_available && target == PlacementTarget::RmwStaging),
{
    let tier = match target {
        PlacementTarget::Transient => MemoryTier::Dram,
        _ => if pmem_available {
            MemoryTier::CxlPmem
        } else {
            MemoryTier::Dram
        },
    };
    let steer_dma = match target {
        PlacementTarget::RmwStaging => pmem_available,
        _ => false,
    };
    TierPlacement { target, tier, steer_dma }
}

/// What makes writes durable.
#[derive(Debug, Clone, Copy, PartialEq, Eq, Structural)]
pub enum Barrier {
    /// Cache lines are written back, and a fence follows.
    ClwbFence,
    /// The device is flushed.
    DeviceFlush,
}

/// What makes writes to a tier durable.
#[must_use]
pub fn barrier_for(tier: MemoryTier) -> (r: Barrier)
    ensures
        r == (if tier == MemoryTier::CxlPmem {
            Barrier::ClwbFence
        } else {
            Barrier::DeviceFlush
        }),
{
    if tier.durable_via_clwb() {
        Barrier::ClwbFence
    } else {
        Barrier::DeviceFlush
    }
}

} // verus!
