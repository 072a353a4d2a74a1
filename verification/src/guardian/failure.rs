//! How likely a drive is to fail.

use vstd::prelude::*;

verus! {

/// How far a drive has come on the way to failing.
#[derive(Clone, Copy, PartialEq, Eq, Debug, Structural)]
pub enum RiskBand {
    Healthy,
    Watch,
    Degraded,
    Failing,
}

/// The verdict on one drive.
#[derive(Clone, Copy, PartialEq, Eq, Debug, Structural)]
pub struct RiskAssessment {
    pub band: RiskBand,
    /// How many times the hazard of a healthy drive, in hundredths.
    pub hazard_multiplier_x100: u64,
}

} // verus!
