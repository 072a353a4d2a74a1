//! The agent: what it advises on the evidence of a window, and how often.
//!
//! The agent never touches data. It emits advisories into a bounded ring, and
//! the same advisory not more often than once in a number of windows.

use crate::guardian::entropy::{Suspicion, FREEZE_BPS};
use crate::guardian::failure::{RiskAssessment, RiskBand};
use crate::guardian::workload::StreamClass;
use std::collections::VecDeque;
use vstd::prelude::*;

verus! {

/// What an advisory is about.
#[derive(Clone, Copy, PartialEq, Eq, Debug, Structural)]
pub enum AdvisoryKind {
    /// Files seem to be encrypted by an intruder.
    RansomwareSuspicion,
    /// The risk of a drive.
    DriveRisk { band: RiskBand },
    /// Another kind of work.
    WorkloadShift { class: StreamClass },
}

impl AdvisoryKind {
    /// The name of the kind.
    #[must_use]
    pub fn name(&self) -> (r: &'static str)
        ensures
            r@ == (match *self {
                AdvisoryKind::RansomwareSuspicion => "ransomware-suspicion"@,
                AdvisoryKind::DriveRisk { .. } => "drive-risk"@,
                AdvisoryKind::WorkloadShift { .. } => "workload-shift"@,
            }),
    {
        match self {
            AdvisoryKind::RansomwareSuspicion => "ransomware-suspicion",
            AdvisoryKind::DriveRisk { .. } => "drive-risk",
            AdvisoryKind::WorkloadShift { .. } => "workload-shift",
        }
    }

    /// What repeats of an advisory have in common: the band or the class
    /// counts, so that a change for the worse is no repeat.
    fn rate_key(&self, device: u64) -> (r: RateKey)
        ensures
            r == (RateKey { kind: *self, device }),
    {
        RateKey { kind: *self, device }
    }
}

/// What repeats of an advisory have in common.
#[derive(Clone, Copy, PartialEq, Eq, Debug, Structural)]
pub struct RateKey {
    pub kind: AdvisoryKind,
    pub device: u64,
}

/// What is to be done.
#[derive(Clone, Copy, PartialEq, Eq, Debug, Structural)]
pub enum AgentAction {
    /// Hold the rotation of snapshots, so that none is lost.
    FreezeSnapshots,
    /// Verify the device soon.
    EscalateScrub,
    /// Plan to move data off the device.
    PlanMigration,
    /// Retune to the new kind of work.
    RetunePolicies,
    /// Nothing but a record.
    LogOnly,
}

/// One advisory.
#[derive(Clone, Debug, PartialEq, Eq, Structural)]
pub struct Advisory {
    pub kind: AdvisoryKind,
    pub action: AgentAction,
    /// The score behind it.
    pub evidence: u64,
    /// The window in which it was emitted.
    pub window: u64,
}

/// What the agent goes by.
#[derive(Clone, Copy, Debug)]
pub struct AgentConfig {
    /// The suspicion, in hundredths of a percent, at which snapshots freeze.
    pub freeze_bps: u32,
    /// The band from which data is moved off a drive.
    pub migration_band: RiskBand,
    /// The most advisories that wait.
    pub ring_capacity: usize,
    /// The fewest windows from one advisory to its repeat.
    pub repeat_window_gap: u64,
}

impl Default for AgentConfig {
    fn default() -> (r: Self)
        ensures
            r.freeze_bps == FREEZE_BPS,
            r.migration_band == RiskBand::Degraded,
            r.ring_capacity == 256,
            r.repeat_window_gap == 5,
    {
        AgentConfig {
            freeze_bps: FREEZE_BPS,
            migration_band: RiskBand::Degraded,
            ring_capacity: 256,
            repeat_window_gap: 5,
        }
    }
}

/// The agent.
pub struct Agent {
    pub config: AgentConfig,
    pub ring: VecDeque<Advisory>,
    pub window: u64,
    /// The window of the last advisory of each key.
    pub last_emitted: Vec<(RateKey, u64)>,
    pub last_workload: Option<StreamClass>,
}

/// What an agent holds.
pub struct AgentView {
    pub config: AgentConfig,
    pub ring: Seq<Advisory>,
    pub window: u64,
    pub last: Seq<(RateKey, u64)>,
    pub last_workload: Option<StreamClass>,
}

/// The window of the last advisory of a key.
pub open spec fn last_window(last: Seq<(RateKey, u64)>, key: RateKey) -> Option<u64>
    decreases last.len(),
{
    if last.len() == 0 {
        None
    } else if last[0].0 == key {
        Some(last[0].1)
    } else {
        last_window(last.drop_first(), key)
    }
}

/// The advisories that wait once another one is added: the oldest goes where
/// there are too many.
pub open spec fn pushed(ring: Seq<Advisory>, advisory: Advisory, capacity: usize) -> Seq<Advisory> {
    if ring.len() + 1 > capacity {
        ring.push(advisory).drop_first()
    } else {
        ring.push(advisory)
    }
}

/// The windows of the last advisories of all keys but one.
pub open spec fn without(last: Seq<(RateKey, u64)>, key: RateKey) -> Seq<(RateKey, u64)> {
    last.filter(|e: (RateKey, u64)| e.0 != key)
}

/// The windows of the last advisories once one of `key` is emitted.
pub open spec fn remembered(last: Seq<(RateKey, u64)>, key: RateKey, window: u64) -> Seq<
    (RateKey, u64),
> {
    without(last, key).push((key, window))
}

impl AgentView {
    /// An advisory of the key came too short a time ago.
    pub open spec fn limited(self, key: RateKey) -> bool {
        match last_window(self.last, key) {
            Some(w) => {
                let since = if self.window > w {
                    self.window - w
                } else {
                    0
                };
                since < self.config.repeat_window_gap
            },
            None => false,
        }
    }

    /// The agent once it has emitted an advisory, or kept it back.
    pub open spec fn emitted(
        self,
        device: u64,
        kind: AdvisoryKind,
        action: AgentAction,
        evidence: u64,
    ) -> AgentView {
        let key = RateKey { kind, device };
        if self.limited(key) {
            self
        } else {
            AgentView {
                ring: pushed(
                    self.ring,
                    Advisory { kind, action, evidence, window: self.window },
                    self.config.ring_capacity,
                ),
                last: remembered(self.last, key, self.window),
                ..self
            }
        }
    }

    /// The agent once it has seen a suspicion.
    pub open spec fn after_suspicion(self, s: Suspicion) -> AgentView {
        if s.freeze_recommended {
            self.emitted(
                0,
                AdvisoryKind::RansomwareSuspicion,
                AgentAction::FreezeSnapshots,
                s.score_bps as u64,
            )
        } else if s.score_bps >= self.config.freeze_bps / 2 {
            self.emitted(
                0,
                AdvisoryKind::RansomwareSuspicion,
                AgentAction::LogOnly,
                s.score_bps as u64,
            )
        } else {
            self
        }
    }

    /// What is to be done about a drive.
    pub open spec fn drive_action(self, band: RiskBand) -> AgentAction {
        match band {
            RiskBand::Failing => AgentAction::PlanMigration,
            RiskBand::Degraded => if self.config.migration_band == RiskBand::Degraded {
                AgentAction::PlanMigration
            } else {
                AgentAction::EscalateScrub
            },
            _ => AgentAction::LogOnly,
        }
    }

    /// The agent once it has seen a kind of work.
    pub open spec fn after_workload(self, class: StreamClass) -> AgentView {
        if self.last_workload == Some(class) {
            self
        } else {
            AgentView { last_workload: Some(class), ..self }.emitted(
                0,
                AdvisoryKind::WorkloadShift { class },
                AgentAction::RetunePolicies,
                0,
            )
        }
    }
}

impl Agent {
    /// What the agent holds.
    pub open spec fn view(&self) -> AgentView {
        AgentView {
            config: self.config,
            ring: self.ring@,
            window: self.window,
            last: self.last_emitted@,
            last_workload: self.last_workload,
        }
    }

    /// No more advisories wait than may.
    pub open spec fn wf(&self) -> bool {
        self.ring@.len() <= self.config.ring_capacity
    }

    /// An agent that has seen nothing.
    #[must_use]
    pub fn new(config: AgentConfig) -> (r: Self)
        ensures
            r.wf(),
            r@ == fresh_agent(config),
    {
        Agent {
            config,
            ring: VecDeque::new(),
            window: 0,
            last_emitted: Vec::new(),
            last_workload: None,
        }
    }

    /// Begins the next window.
    pub fn tick(&mut self)
        requires
            old(self).wf(),
            old(self).window < u64::MAX,
        ensures
            final(self).wf(),
            final(self)@ == old(self)@.after(AgentEvent::Tick),
    {
        self.window = self.window + 1;
    }

    /// Takes the verdict of the entropy watcher.
    pub fn observe_suspicion(&mut self, s: Suspicion)
        requires
            old(self).wf(),
        ensures
            final(self).wf(),
            final(self)@ == old(self)@.after(AgentEvent::Suspicion(s)),
    {
        if s.freeze_recommended {
            self.emit(
                AdvisoryKind::RansomwareSuspicion,
                AgentAction::FreezeSnapshots,
                s.score_bps as u64,
            );
        } else if s.score_bps >= self.config.freeze_bps / 2 {
            self.emit(
                AdvisoryKind::RansomwareSuspicion,
                AgentAction::LogOnly,
                s.score_bps as u64,
            );
        }
    }

    /// Takes the verdict on a drive.
    pub fn observe_drive(&mut self, device: u64, a: &RiskAssessment)
        requires
            old(self).wf(),
        ensures
            final(self).wf(),
            final(self)@ == old(self)@.after(AgentEvent::Drive(device, *a)),
    {
        let band = a.band;
        let action = match band {
            RiskBand::Failing => AgentAction::PlanMigration,
            RiskBand::Degraded => if self.config.migration_band == RiskBand::Degraded {
                AgentAction::PlanMigration
            } else {
                AgentAction::EscalateScrub
            },
            RiskBand::Watch | RiskBand::Healthy => AgentAction::LogOnly,
        };
        self.emit_with_device(
            device,
            AdvisoryKind::DriveRisk { band },
            action,
            a.hazard_multiplier_x100,
        );
    }

    /// Takes the kind of work of the window.
    pub fn observe_workload(&mut self, class: StreamClass)
        requires
            old(self).wf(),
        ensures
            final(self).wf(),
            final(self)@ == old(self)@.after(AgentEvent::Workload(class)),
    {
        let same = match self.last_workload {
            Some(last) => last == class,
            None => false,
        };
        if !same {
            self.last_workload = Some(class);
            self.emit(AdvisoryKind::WorkloadShift { class }, AgentAction::RetunePolicies, 0);
        }
    }

    fn emit(&mut self, kind: AdvisoryKind, action: AgentAction, evidence: u64)
        requires
            old(self).wf(),
        ensures
            final(self).wf(),
            final(self)@ == old(self)@.emitted(0, kind, action, evidence),
    {
        self.emit_with_device(0, kind, action, evidence);
    }

    fn emit_with_device(
        &mut self,
        device: u64,
        kind: AdvisoryKind,
        action: AgentAction,
        evidence: u64,
    )
        requires
            old(self).wf(),
        ensures
            final(self).wf(),
            final(self)@ == old(self)@.emitted(device, kind, action, evidence),
    {
        let key = kind.rate_key(device);
        if let Some(w) = find_window(&self.last_emitted, key) {
            if self.window.saturating_sub(w) < self.config.repeat_window_gap {
                return ;
            }
        }
        self.last_emitted = without_key(&self.last_emitted, key);
        self.last_emitted.push((key, self.window));
        self.ring.push_back(Advisory { kind, action, evidence, window: self.window });
        if self.ring.len() > self.config.ring_capacity {
            let _ = self.ring.pop_front();
        }
        proof {
            let advisory = Advisory { kind, action, evidence, window: old(self).window };
            assert(self.ring@ =~= pushed(old(self).ring@, advisory, old(self).config.ring_capacity));
        }
    }

    /// Takes the advisories that wait, the oldest first.
    pub fn drain(&mut self) -> (r: Vec<Advisory>)
        requires
            old(self).wf(),
        ensures
            final(self).wf(),
            r@ == old(self)@.ring,
            final(self)@ == old(self)@.after(AgentEvent::Drain),
    {
        let mut out: Vec<Advisory> = Vec::new();
        let ghost all = self.ring@;
        while self.ring.len() > 0
            invariant
                out@ + self.ring@ =~= all,
                self.ring@.len() <= self.config.ring_capacity,
                self@ == (AgentView { ring: self.ring@, ..old(self)@ }),
            decreases self.ring@.len(),
        {
            match self.ring.pop_front() {
                Some(a) => {
                    out.push(a);
                },
                None => {},
            }
        }
        assert(self.ring@ =~= Seq::empty());
        out
    }

    /// How many advisories wait.
    #[must_use]
    pub fn pending(&self) -> (r: usize)
        ensures
            r == self@.ring.len(),
    {
        self.ring.len()
    }

    /// The window.
    #[must_use]
    pub fn window(&self) -> (r: u64)
        ensures
            r == self@.window,
    {
        self.window
    }

    /// The configuration.
    #[must_use]
    pub fn config(&self) -> (r: &AgentConfig)
        ensures
            *r == self@.config,
    {
        &self.config
    }
}

fn find_window(last: &Vec<(RateKey, u64)>, key: RateKey) -> (r: Option<u64>)
    ensures
        r == last_window(last@, key),
{
    let mut i: usize = 0;
    assert(last@.skip(0) =~= last@);
    while i < last.len()
        invariant
            i <= last@.len(),
            last_window(last@, key) == last_window(last@.skip(i as int), key),
        decreases last@.len() - i,
    {
        assert(last@.skip(i as int)[0] == last@[i as int]);
        if last[i].0 == key {
            return Some(last[i].1);
        }
        assert(last@.skip(i as int).drop_first() =~= last@.skip(i + 1));
        i = i + 1;
    }
    None
}

fn without_key(last: &Vec<(RateKey, u64)>, key: RateKey) -> (r: Vec<(RateKey, u64)>)
    ensures
        r@ == without(last@, key),
{
    let mut out: Vec<(RateKey, u64)> = Vec::new();
    let mut i: usize = 0;
    proof {
        reveal(Seq::filter);
        assert(without(last@.take(0), key) =~= Seq::empty());
    }
    while i < last.len()
        invariant
            i <= last@.len(),
            out@ == without(last@.take(i as int), key),
        decreases last@.len() - i,
    {
        proof {
            reveal(Seq::filter);
            assert(last@.take(i + 1).drop_last() =~= last@.take(i as int));
            assert(last@.take(i + 1).last() == last@[i as int]);
        }
        if last[i].0 != key {
            out.push(last[i]);
        }
        i = i + 1;
    }
    assert(last@.take(last@.len() as int) =~= last@);
    out
}

proof fn lemma_window_dropped(last: Seq<(RateKey, u64)>, key: RateKey, other: RateKey)
    ensures
        ({
            let kept = without(last, key);
            last_window(kept, other) == (if other == key {
                None
            } else {
                last_window(last, other)
            })
        }),
    decreases last.len(),
{
    if last.len() == 0 {
        reveal(Seq::filter);
        assert(without(last, key) =~= Seq::empty());
    } else {
        let init = last.drop_last();
        lemma_window_dropped(init, key, other);
        reveal(Seq::filter);
        assert(last =~= init.push(last.last()));
        lemma_window_push(init, last.last(), other);
        if last.last().0 != key {
            lemma_window_push(without(init, key), last.last(), other);
        }
    }
}

proof fn lemma_window_push(last: Seq<(RateKey, u64)>, e: (RateKey, u64), key: RateKey)
    ensures
        last_window(last.push(e), key) == (match last_window(last, key) {
            Some(w) => Some(w),
            None => if e.0 == key {
                Some(e.1)
            } else {
                None
            },
        }),
    decreases last.len(),
{
    if last.len() == 0 {
        assert(last.push(e).drop_first() =~= last);
    } else {
        assert(last.push(e).drop_first() =~= last.drop_first().push(e));
        lemma_window_push(last.drop_first(), e, key);
    }
}

/// What was emitted is remembered: its window becomes that of the key, and
/// those of all other keys stay.
pub proof fn emission_is_remembered(
    last: Seq<(RateKey, u64)>,
    key: RateKey,
    window: u64,
    other: RateKey,
)
    ensures
        last_window(remembered(last, key, window), key) == Some(window),
        other != key ==> last_window(remembered(last, key, window), other) == last_window(
            last,
            other,
        ),
{
    let kept = without(last, key);
    lemma_window_dropped(last, key, key);
    lemma_window_dropped(last, key, other);
    lemma_window_push(kept, (key, window), key);
    lemma_window_push(kept, (key, window), other);
}

/// An advisory is not repeated before the gap is over, however often the
/// evidence comes.
pub proof fn repeats_are_kept_back(
    a: AgentView,
    device: u64,
    kind: AdvisoryKind,
    action: AgentAction,
    evidence: u64,
    later: u64,
    again: AgentAction,
    more: u64,
)
    requires
        !a.limited(RateKey { kind, device }),
        a.window <= later,
        later - a.window < a.config.repeat_window_gap,
    ensures
        ({
            let once = AgentView {
                window: later,
                ..a.emitted(device, kind, action, evidence)
            };
            once.emitted(device, kind, again, more) == once
        }),
{
    emission_is_remembered(a.last, RateKey { kind, device }, a.window, RateKey { kind, device });
}

/// An advisory of another kind, band, class or device is never kept back on
/// account of this one.
pub proof fn other_advisories_pass(
    a: AgentView,
    device: u64,
    kind: AdvisoryKind,
    action: AgentAction,
    evidence: u64,
    other_device: u64,
    other_kind: AdvisoryKind,
)
    requires
        other_device != device || other_kind != kind,
    ensures
        a.emitted(device, kind, action, evidence).limited(
            RateKey { kind: other_kind, device: other_device },
        ) == a.limited(RateKey { kind: other_kind, device: other_device }),
{
    emission_is_remembered(
        a.last,
        RateKey { kind, device },
        a.window,
        RateKey { kind: other_kind, device: other_device },
    );
}

/// Evidence never makes more advisories wait than may, and takes back none of
/// the newest ones.
pub proof fn ring_keeps_the_newest(ring: Seq<Advisory>, advisory: Advisory, capacity: usize)
    requires
        ring.len() <= capacity,
    ensures
        pushed(ring, advisory, capacity).len() <= capacity,
        capacity > 0 ==> pushed(ring, advisory, capacity).last() == advisory,
        ring.len() < capacity ==> pushed(ring, advisory, capacity) == ring.push(advisory),
        ring.len() == capacity && capacity > 0 ==> pushed(ring, advisory, capacity)
            == ring.drop_first().push(advisory),
{
    assert(ring.len() > 0 ==> ring.push(advisory).drop_first() =~= ring.drop_first().push(
        advisory,
    ));
}

/// Something that happens to an agent.
pub enum AgentEvent {
    /// The next window begins.
    Tick,
    /// A verdict of the entropy watcher.
    Suspicion(Suspicion),
    /// A verdict on a drive.
    Drive(u64, RiskAssessment),
    /// A kind of work.
    Workload(StreamClass),
    /// The advisories that wait are taken.
    Drain,
}

impl AgentView {
    /// The advisory that is emitted, if it is not kept back.
    pub open spec fn emission(
        self,
        device: u64,
        kind: AdvisoryKind,
        action: AgentAction,
        evidence: u64,
    ) -> Option<Advisory> {
        if self.limited(RateKey { kind, device }) {
            None
        } else {
            Some(Advisory { kind, action, evidence, window: self.window })
        }
    }

    /// The advisory that an event makes the agent emit.
    pub open spec fn news(self, e: AgentEvent) -> Option<Advisory> {
        match e {
            AgentEvent::Suspicion(s) => if s.freeze_recommended {
                self.emission(
                    0,
                    AdvisoryKind::RansomwareSuspicion,
                    AgentAction::FreezeSnapshots,
                    s.score_bps as u64,
                )
            } else if s.score_bps >= self.config.freeze_bps / 2 {
                self.emission(
                    0,
                    AdvisoryKind::RansomwareSuspicion,
                    AgentAction::LogOnly,
                    s.score_bps as u64,
                )
            } else {
                None
            },
            AgentEvent::Drive(device, a) => self.emission(
                device,
                AdvisoryKind::DriveRisk { band: a.band },
                self.drive_action(a.band),
                a.hazard_multiplier_x100,
            ),
            AgentEvent::Workload(class) => if self.last_workload == Some(class) {
                None
            } else {
                self.emission(
                    0,
                    AdvisoryKind::WorkloadShift { class },
                    AgentAction::RetunePolicies,
                    0,
                )
            },
            AgentEvent::Tick | AgentEvent::Drain => None,
        }
    }

    /// The agent after an event: what `tick`, the three ways to observe and
    /// `drain` make of it.
    pub open spec fn after(self, e: AgentEvent) -> AgentView {
        match e {
            AgentEvent::Tick => AgentView { window: (self.window + 1) as u64, ..self },
            AgentEvent::Suspicion(s) => self.after_suspicion(s),
            AgentEvent::Drive(device, a) => self.emitted(
                device,
                AdvisoryKind::DriveRisk { band: a.band },
                self.drive_action(a.band),
                a.hazard_multiplier_x100,
            ),
            AgentEvent::Workload(class) => self.after_workload(class),
            AgentEvent::Drain => AgentView { ring: Seq::empty(), ..self },
        }
    }
}

/// An agent that has seen nothing.
pub open spec fn fresh_agent(config: AgentConfig) -> AgentView {
    AgentView {
        config,
        ring: Seq::empty(),
        window: 0,
        last: Seq::empty(),
        last_workload: None,
    }
}

/// A new agent after the events.
pub open spec fn after_all(config: AgentConfig, events: Seq<AgentEvent>) -> AgentView
    decreases events.len(),
{
    if events.len() == 0 {
        fresh_agent(config)
    } else {
        after_all(config, events.drop_last()).after(events.last())
    }
}

/// Everything that a new agent emits over the events since the last drain, the
/// oldest first.
pub open spec fn since_drain(config: AgentConfig, events: Seq<AgentEvent>) -> Seq<Advisory>
    decreases events.len(),
{
    if events.len() == 0 {
        Seq::empty()
    } else if events.last() is Drain {
        Seq::empty()
    } else {
        let before = since_drain(config, events.drop_last());
        match after_all(config, events.drop_last()).news(events.last()) {
            Some(advisory) => before.push(advisory),
            None => before,
        }
    }
}

/// The newest of the advisories, at most `n`.
pub open spec fn newest(log: Seq<Advisory>, n: usize) -> Seq<Advisory> {
    if log.len() <= n {
        log
    } else {
        log.skip(log.len() - n)
    }
}

/// What an event does to the advisories that wait, to the window and to the
/// configuration.
proof fn lemma_event(v: AgentView, e: AgentEvent)
    requires
        v.window < u64::MAX,
    ensures
        v.after(e).config == v.config,
        v.after(e).window == v.window + (if e is Tick {
            1int
        } else {
            0
        }),
        e is Drain ==> v.after(e).ring == Seq::<Advisory>::empty(),
        e !is Drain ==> v.after(e).ring == (match v.news(e) {
            Some(advisory) => pushed(v.ring, advisory, v.config.ring_capacity),
            None => v.ring,
        }),
        v.news(e) matches Some(advisory) ==> advisory.window == v.window,
{
    if let AgentEvent::Workload(class) = e {
        let w = AgentView { last_workload: Some(class), ..v };
        let key = RateKey { kind: AdvisoryKind::WorkloadShift { class }, device: 0 };
        assert(w.limited(key) == v.limited(key));
    }
}

/// Adding to the newest advisories gives the newest of all.
proof fn lemma_newest_pushed(log: Seq<Advisory>, advisory: Advisory, n: usize)
    ensures
        pushed(newest(log, n), advisory, n) == newest(log.push(advisory), n),
{
    assert(pushed(newest(log, n), advisory, n) =~= newest(log.push(advisory), n));
}

/// Over any history of a new agent: no more advisories wait than may; those
/// that wait, which a drain gives, are the newest ones emitted since the last
/// drain, the oldest first; their windows never go back; and a drain leaves
/// nothing to a second one, and the window as it is.
pub proof fn drain_gives_the_newest(config: AgentConfig, events: Seq<AgentEvent>)
    requires
        events.len() < u64::MAX,
    ensures
        ({
            let v = after_all(config, events);
            let log = since_drain(config, events);
            let drained = after_all(config, events.push(AgentEvent::Drain));
            &&& v.config == config
            &&& v.window <= events.len()
            &&& v.ring.len() <= config.ring_capacity
            &&& v.ring == newest(log, config.ring_capacity)
            &&& forall|i: int, j: int|
                0 <= i < j < log.len() ==> (#[trigger] log[i]).window <= (#[trigger] log[j]).window
            &&& forall|i: int, j: int|
                0 <= i < j < v.ring.len() ==> (#[trigger] v.ring[i]).window <= (
                #[trigger] v.ring[j]).window
            &&& forall|i: int| 0 <= i < log.len() ==> (#[trigger] log[i]).window <= v.window
            &&& drained == (AgentView { ring: Seq::empty(), ..v })
        }),
    decreases events.len(),
{
    let v = after_all(config, events);
    let log = since_drain(config, events);
    assert(events.push(AgentEvent::Drain).drop_last() =~= events);
    if events.len() > 0 {
        let rest = events.drop_last();
        drain_gives_the_newest(config, rest);
        let u = after_all(config, rest);
        let before = since_drain(config, rest);
        lemma_event(u, events.last());
        if events.last() !is Drain {
            if let Some(advisory) = u.news(events.last()) {
                lemma_newest_pushed(before, advisory, config.ring_capacity);
                assert forall|i: int, j: int| 0 <= i < j < log.len() implies (
                #[trigger] log[i]).window <= (#[trigger] log[j]).window by {
                    assert(log[i] == before[i]);
                    if j < before.len() {
                        assert(log[j] == before[j]);
                    }
                }
                assert forall|i: int| 0 <= i < log.len() implies (#[trigger] log[i]).window
                    <= v.window by {
                    if i < before.len() {
                        assert(log[i] == before[i]);
                    }
                }
            }
        }
    }
    let ring = newest(log, config.ring_capacity);
    assert forall|i: int, j: int| 0 <= i < j < ring.len() implies (#[trigger] ring[i]).window <= (
    #[trigger] ring[j]).window by {
        let d = log.len() - ring.len();
        assert(ring[i] == log[i + d]);
        assert(ring[j] == log[j + d]);
    }
}

/// What a suspicion leads to: snapshots are frozen if that is recommended; from
/// half of the mark on it is logged; below that nothing happens.
pub proof fn suspicion_is_answered(v: AgentView, s: Suspicion)
    requires
        v.config.ring_capacity > 0,
        v.ring.len() <= v.config.ring_capacity,
        last_window(v.last, RateKey { kind: AdvisoryKind::RansomwareSuspicion, device: 0 }) is None,
    ensures
        ({
            let after = v.after(AgentEvent::Suspicion(s));
            &&& s.freeze_recommended ==> after.ring.last() == (Advisory {
                kind: AdvisoryKind::RansomwareSuspicion,
                action: AgentAction::FreezeSnapshots,
                evidence: s.score_bps as u64,
                window: v.window,
            })
            &&& !s.freeze_recommended && s.score_bps >= v.config.freeze_bps / 2 ==> after.ring.last()
                == (Advisory {
                kind: AdvisoryKind::RansomwareSuspicion,
                action: AgentAction::LogOnly,
                evidence: s.score_bps as u64,
                window: v.window,
            })
            &&& !s.freeze_recommended && s.score_bps < v.config.freeze_bps / 2 ==> after == v
        }),
{
    ring_keeps_the_newest(
        v.ring,
        Advisory {
            kind: AdvisoryKind::RansomwareSuspicion,
            action: AgentAction::FreezeSnapshots,
            evidence: s.score_bps as u64,
            window: v.window,
        },
        v.config.ring_capacity,
    );
    ring_keeps_the_newest(
        v.ring,
        Advisory {
            kind: AdvisoryKind::RansomwareSuspicion,
            action: AgentAction::LogOnly,
            evidence: s.score_bps as u64,
            window: v.window,
        },
        v.config.ring_capacity,
    );
}

/// What the state of a drive leads to: data is moved off a failing drive, and
/// off a degraded one if that is where moving begins, else it is scrubbed more;
/// any other state is logged. Devices are told apart.
pub proof fn drive_state_is_answered(v: AgentView, device: u64, a: RiskAssessment)
    requires
        v.config.ring_capacity > 0,
        v.ring.len() <= v.config.ring_capacity,
        last_window(
            v.last,
            RateKey { kind: AdvisoryKind::DriveRisk { band: a.band }, device },
        ) is None,
    ensures
        v.after(AgentEvent::Drive(device, a)).ring.last() == (Advisory {
            kind: AdvisoryKind::DriveRisk { band: a.band },
            action: if a.band == RiskBand::Failing {
                AgentAction::PlanMigration
            } else if a.band == RiskBand::Degraded && v.config.migration_band == RiskBand::Degraded {
                AgentAction::PlanMigration
            } else if a.band == RiskBand::Degraded {
                AgentAction::EscalateScrub
            } else {
                AgentAction::LogOnly
            },
            evidence: a.hazard_multiplier_x100,
            window: v.window,
        }),
{
    ring_keeps_the_newest(
        v.ring,
        Advisory {
            kind: AdvisoryKind::DriveRisk { band: a.band },
            action: v.drive_action(a.band),
            evidence: a.hazard_multiplier_x100,
            window: v.window,
        },
        v.config.ring_capacity,
    );
}

/// A workload that is of another class than the last asks for a retuning; one
/// of the same class for nothing.
pub proof fn workload_shift_is_answered(v: AgentView, class: StreamClass)
    requires
        v.config.ring_capacity > 0,
        v.ring.len() <= v.config.ring_capacity,
        last_window(v.last, RateKey { kind: AdvisoryKind::WorkloadShift { class }, device: 0 })
            is None,
    ensures
        v.last_workload == Some(class) ==> v.after(AgentEvent::Workload(class)) == v,
        v.after(AgentEvent::Workload(class)).last_workload == Some(class),
        v.last_workload != Some(class) ==> v.after(AgentEvent::Workload(class)).ring.last() == (
        Advisory {
            kind: AdvisoryKind::WorkloadShift { class },
            action: AgentAction::RetunePolicies,
            evidence: 0,
            window: v.window,
        }),
{
    ring_keeps_the_newest(
        v.ring,
        Advisory {
            kind: AdvisoryKind::WorkloadShift { class },
            action: AgentAction::RetunePolicies,
            evidence: 0,
            window: v.window,
        },
        v.config.ring_capacity,
    );
}

/// Once the gap is over, the same advisory is given again.
pub proof fn repeats_pass_after_the_gap(
    a: AgentView,
    device: u64,
    kind: AdvisoryKind,
    action: AgentAction,
    evidence: u64,
    later: u64,
)
    requires
        last_window(a.last, RateKey { kind, device }) is None,
        a.window <= later,
        later - a.window >= a.config.repeat_window_gap,
        a.config.ring_capacity > 0,
        a.ring.len() <= a.config.ring_capacity,
    ensures
        ({
            let once = AgentView {
                window: later,
                ..a.emitted(device, kind, action, evidence)
            };
            once.emitted(device, kind, action, evidence).ring.last() == (Advisory {
                kind,
                action,
                evidence,
                window: later,
            })
        }),
{
    let key = RateKey { kind, device };
    emission_is_remembered(a.last, key, a.window, key);
    let first = Advisory { kind, action, evidence, window: a.window };
    ring_keeps_the_newest(a.ring, first, a.config.ring_capacity);
    ring_keeps_the_newest(
        pushed(a.ring, first, a.config.ring_capacity),
        Advisory { kind, action, evidence, window: later },
        a.config.ring_capacity,
    );
}

/// A new agent has emitted nothing and remembers nothing.
pub proof fn new_agent_has_seen_nothing(config: AgentConfig)
    ensures
        fresh_agent(config).config == config,
        fresh_agent(config).ring.len() == 0,
        fresh_agent(config).window == 0,
        fresh_agent(config).last.len() == 0,
        fresh_agent(config).last_workload is None,
{
}

} // verus!
