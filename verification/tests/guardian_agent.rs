use lionfs::guardian::agent::{AdvisoryKind, Agent, AgentAction, AgentConfig};
use lionfs::guardian::entropy::Suspicion;
use lionfs::guardian::failure::{RiskAssessment, RiskBand};
use lionfs::guardian::workload::StreamClass;


fn suspicion(score_bps: u32) -> Suspicion {
    Suspicion { score_bps, freeze_recommended: score_bps >= 8_000 }
}

#[test]
fn healthy_evidence_emits_nothing() {
    let mut a = Agent::new(AgentConfig::default());
    a.tick();
    a.observe_suspicion(suspicion(200));
    assert_eq!(a.pending(), 0);
    assert!(a.drain().is_empty());
}

#[test]
fn mid_suspicion_logs_only() {
    let mut a = Agent::new(AgentConfig::default());
    a.tick();
    a.observe_suspicion(suspicion(4_500)); // >= 4000 = freeze/2
    let advisories = a.drain();
    assert_eq!(advisories.len(), 1);
    assert_eq!(advisories[0].action, AgentAction::LogOnly);
    assert_eq!(advisories[0].evidence, 4_500);
}

#[test]
fn freeze_suspicion_freezes_snapshots() {
    let mut a = Agent::new(AgentConfig::default());
    a.tick();
    a.observe_suspicion(suspicion(9_200));
    let advisories = a.drain();
    assert_eq!(advisories[0].kind, AdvisoryKind::RansomwareSuspicion);
    assert_eq!(advisories[0].action, AgentAction::FreezeSnapshots);
    assert_eq!(advisories[0].evidence, 9_200);
}

#[test]
fn flapping_detector_is_rate_limited() {
    let mut a = Agent::new(AgentConfig::default());
    // Windows 1..=6, all at freeze level: the gap is 5, so
    // emissions land at windows 1 and 6 only.
    for _ in 0..6 {
        a.tick();
        a.observe_suspicion(suspicion(9_000));
    }
    let advisories = a.drain();
    assert_eq!(advisories.len(), 2, "got {:?}", advisories.len());
    assert_eq!(advisories[0].window, 1);
    assert_eq!(advisories[1].window, 6);
}

#[test]
fn drive_risk_actions_escalate_with_band() {
    let mut a = Agent::new(AgentConfig::default());

    let healthy = RiskAssessment { band: RiskBand::Healthy, hazard_multiplier_x100: 100 };
    a.tick();
    a.observe_drive(0, &healthy);
    let out = a.drain();
    assert_eq!(out[0].action, AgentAction::LogOnly);

    let degraded = RiskAssessment { band: RiskBand::Degraded, hazard_multiplier_x100: 900 };
    a.tick();
    a.observe_drive(0, &degraded);
    let out = a.drain();
    // Default migration_band = Degraded -> plan migration.
    assert_eq!(out[0].action, AgentAction::PlanMigration);

    let failing = RiskAssessment { band: RiskBand::Failing, hazard_multiplier_x100: 4_000 };
    a.tick();
    a.observe_drive(0, &failing);
    let out = a.drain();
    assert_eq!(out[0].action, AgentAction::PlanMigration);
    assert!(matches!(out[0].kind, AdvisoryKind::DriveRisk { band: _ }));
}

#[test]
fn per_device_advisories_are_independent() {
    let mut a = Agent::new(AgentConfig::default());
    let t = RiskAssessment { band: RiskBand::Degraded, hazard_multiplier_x100: 900 };
    a.tick();
    a.observe_drive(0, &t);
    a.observe_drive(1, &t); // different device: not rate limited
    assert_eq!(a.drain().len(), 2);
}

#[test]
fn workload_shift_emits_once_per_change() {
    let mut a = Agent::new(AgentConfig::default());
    a.tick();
    a.observe_workload(StreamClass::Db);
    a.tick();
    a.observe_workload(StreamClass::Db); // same class: silent
    assert_eq!(a.drain().len(), 1);
    a.tick();
    a.observe_workload(StreamClass::Vm); // changed: advisory
    let out = a.drain();
    assert_eq!(out.len(), 1);
    assert_eq!(out[0].action, AgentAction::RetunePolicies);
    assert!(matches!(out[0].kind, AdvisoryKind::WorkloadShift { .. }));
}

#[test]
fn advisory_ring_is_bounded() {
    let mut cfg = AgentConfig::default();
    cfg.ring_capacity = 4;
    cfg.repeat_window_gap = 0; // allow back-to-back for the test
    let mut a = Agent::new(cfg);
    for w in 0..10 {
        a.tick();
        a.observe_workload(match w % 2 {
            0 => StreamClass::Db,
            _ => StreamClass::Vm,
        });
    }
    assert_eq!(a.pending(), 4);
}

#[test]
fn custom_migration_threshold_failing_only() {
    let mut cfg = AgentConfig::default();
    cfg.migration_band = RiskBand::Failing;
    let mut a = Agent::new(cfg);
    let degraded = RiskAssessment { band: RiskBand::Degraded, hazard_multiplier_x100: 900 };
    a.tick();
    a.observe_drive(0, &degraded);
    let out = a.drain();
    // Migration threshold at Failing: degraded only escalates scrub.
    assert_eq!(out[0].action, AgentAction::EscalateScrub);
}

#[test]
fn kinds_name_themselves() {
    assert_eq!(AdvisoryKind::RansomwareSuspicion.name(), "ransomware-suspicion");
    assert_eq!(AdvisoryKind::DriveRisk { band: RiskBand::Watch }.name(), "drive-risk");
    assert_eq!(AdvisoryKind::WorkloadShift { class: StreamClass::Log }.name(), "workload-shift");
}

#[test]
fn a_worse_band_is_no_repeat() {
    let mut a = Agent::new(AgentConfig::default());
    a.tick();
    a.observe_drive(3, &RiskAssessment { band: RiskBand::Watch, hazard_multiplier_x100: 150 });
    a.observe_drive(3, &RiskAssessment { band: RiskBand::Failing, hazard_multiplier_x100: 5_000 });
    a.observe_drive(3, &RiskAssessment { band: RiskBand::Watch, hazard_multiplier_x100: 150 });
    let out = a.drain();
    assert_eq!(out.len(), 2);
    assert_eq!(out[0].action, AgentAction::LogOnly);
    assert_eq!(out[1].action, AgentAction::PlanMigration);
    assert_eq!(out[1].evidence, 5_000);
    assert_eq!(a.window(), 1);
    assert_eq!(a.config().ring_capacity, 256);
}
