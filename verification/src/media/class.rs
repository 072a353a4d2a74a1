//! The kinds of devices.

use vstd::prelude::*;

verus! {

/// What a device is made of.
#[derive(Debug, Clone, Copy, PartialEq, Eq, Structural)]
pub enum MediaClass {
    Hdd,
    Ssd,
    Smr,
    Zns,
    CxlPmem,
}

} // verus!
