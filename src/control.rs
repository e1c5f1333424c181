use vstd::prelude::*;

use crate::reading::{probe_outcome, reading_of, ClockReading};

verus! {

/// Expected steady-state memory clock, in kHz (16901.0 MHz).
pub const TARGET_KHZ: i64 = 16_901_000;

/// Seconds the loop sleeps between two ordinary samples.
pub const IDLE_SECS: u64 = 3600;

/// Seconds the loop waits after remediating before it samples again.
pub const RECHECK_SECS: u64 = 15;

/// Immutable settings of the monitor, fixed once at startup.
#[derive(Clone, Copy, Debug, PartialEq, Eq, Structural)]
pub struct MonitorConfig {
    /// Lowest clock, in kHz, that counts as nominal.
    pub target_khz: i64,
    /// Long idle interval, in seconds.
    pub idle_secs: u64,
    /// Short interval after an escalation, in seconds.
    pub recheck_secs: u64,
}

/// The two states of the monitoring loop.
#[derive(Clone, Copy, Debug, PartialEq, Eq, Structural)]
pub enum Phase {
    /// Sleep the long interval, then sample.
    Idle,
    /// Take a sample and act on it.
    Sampling,
}

/// What the loop does after one sample, in this order: alert the operator
/// about `alert` (if any), launch remediation (if `remediate`), sleep
/// `sleep_secs`, then go on in `next`.
#[derive(Clone, Copy, Debug, PartialEq, Eq, Structural)]
pub struct Reaction {
    pub alert: Option<ClockReading>,
    pub remediate: bool,
    pub sleep_secs: u64,
    pub next: Phase,
}

/// The loop starts idle: it sleeps the long interval before its first sample.
pub fn initial_phase() -> (p: Phase)
    ensures
        p == Phase::Idle,
{
    Phase::Idle
}

impl MonitorConfig {
    /// The settings the daemon runs with.
    pub fn standard() -> (c: MonitorConfig)
        ensures
            c.target_khz == TARGET_KHZ,
            c.idle_secs == IDLE_SECS,
            c.recheck_secs == RECHECK_SECS,
    {
        MonitorConfig { target_khz: TARGET_KHZ, idle_secs: IDLE_SECS, recheck_secs: RECHECK_SECS }
    }
}

/// A sample is below target when its clock is strictly under the threshold.
pub open spec fn below_target(config: MonitorConfig, s: ClockReading) -> bool {
    s.khz < config.target_khz
}

/// Nothing is done and the loop goes idle.
pub open spec fn quiet() -> Reaction {
    Reaction { alert: None, remediate: false, sleep_secs: 0, next: Phase::Idle }
}

/// Operator alerted once, remediation launched once, short sleep, then a
/// fresh sample.
pub open spec fn escalation(config: MonitorConfig, s: ClockReading) -> Reaction {
    Reaction {
        alert: Some(s),
        remediate: true,
        sleep_secs: config.recheck_secs,
        next: Phase::Sampling,
    }
}

/// What the loop does in the Sampling phase on a sample, or on no data.
pub open spec fn reaction_to(config: MonitorConfig, sample: Option<ClockReading>) -> Reaction {
    match sample {
        Some(s) => if below_target(config, s) {
            escalation(config, s)
        } else {
            quiet()
        },
        None => quiet(),
    }
}

/// What the loop does in the Idle phase: sleep long, then sample.
pub open spec fn idle_reaction(config: MonitorConfig) -> Reaction {
    Reaction { alert: None, remediate: false, sleep_secs: config.idle_secs, next: Phase::Sampling }
}

/// Decides the loop's next moves in the Sampling phase.
pub fn react(config: &MonitorConfig, sample: Option<ClockReading>) -> (r: Reaction)
    ensures
        r == reaction_to(*config, sample),
{
    match sample {
        Some(s) => {
            if s.khz < config.target_khz {
                Reaction {
                    alert: Some(s),
                    remediate: true,
                    sleep_secs: config.recheck_secs,
                    next: Phase::Sampling,
                }
            } else {
                Reaction { alert: None, remediate: false, sleep_secs: 0, next: Phase::Idle }
            }
        },
        None => Reaction { alert: None, remediate: false, sleep_secs: 0, next: Phase::Idle },
    }
}

/// The loop's moves in the Idle phase.
pub fn rest(config: &MonitorConfig) -> (r: Reaction)
    ensures
        r == idle_reaction(*config),
{
    Reaction { alert: None, remediate: false, sleep_secs: config.idle_secs, next: Phase::Sampling }
}

/// A sample at or above the target leads to no alert and no remediation; the
/// loop goes idle and so sleeps the long interval before the next sample.
pub proof fn nominal_sample_is_quiet(config: MonitorConfig, s: ClockReading)
    requires
        s.khz >= config.target_khz,
    ensures
        reaction_to(config, Some(s)).alert is None,
        !reaction_to(config, Some(s)).remediate,
        reaction_to(config, Some(s)).next == Phase::Idle,
        idle_reaction(config).sleep_secs == config.idle_secs,
        idle_reaction(config).next == Phase::Sampling,
{
}

/// A sample below the target leads to exactly one alert, about that sample,
/// and one remediation launch, followed by the short sleep and a new sample.
pub proof fn low_sample_escalates(config: MonitorConfig, s: ClockReading)
    requires
        s.khz < config.target_khz,
    ensures
        reaction_to(config, Some(s)).alert == Some(s),
        reaction_to(config, Some(s)).remediate,
        reaction_to(config, Some(s)).sleep_secs == config.recheck_secs,
        reaction_to(config, Some(s)).next == Phase::Sampling,
{
}

/// With no data (the probe failed, or its output is not a number), the loop
/// neither alerts nor remediates, and goes idle for the long interval.
pub proof fn no_data_is_quiet(config: MonitorConfig, success: bool, out: Seq<u8>)
    requires
        !success || reading_of(out) is None,
    ensures
        probe_outcome(success, out) is None,
        reaction_to(config, probe_outcome(success, out)).alert is None,
        !reaction_to(config, probe_outcome(success, out)).remediate,
        reaction_to(config, probe_outcome(success, out)).next == Phase::Idle,
        idle_reaction(config).sleep_secs == config.idle_secs,
{
}

} // verus!
