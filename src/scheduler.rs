//! The scheduler's configuration and the per-pass state machine it drives:
//! `Idle -> Fetching -> Reconciling -> Committing -> {Done, Failed} -> Idle`.
use vstd::prelude::*;

verus! {

/// Runs a pass at start-up and then once every interval.
#[derive(Debug)]
pub struct SyncScheduler {
    pub interval_secs: u64,
}

impl SyncScheduler {
    /// A scheduler ticking every `interval_minutes` minutes.
    pub fn new(interval_minutes: u64) -> (r: Self)
        requires
            interval_minutes * 60 <= u64::MAX,
        ensures
            r.interval_secs == interval_minutes * 60,
    {
        SyncScheduler { interval_secs: interval_minutes * 60 }
    }
}

/// Where a pass stands.
#[derive(Clone, Copy, Debug, PartialEq, Eq, Structural)]
pub enum PassPhase {
    Idle,
    Fetching,
    Reconciling,
    Committing,
    Done,
    Failed,
}

/// What happened to the step under way.
#[derive(Clone, Copy, Debug, PartialEq, Eq, Structural)]
pub enum PassEvent {
    /// A tick or a manual trigger asks for a pass.
    Start,
    /// The step under way succeeded.
    Succeeded,
    /// The step under way failed.
    Failed,
    /// The outcome was logged or handed to the caller.
    Reported,
}

/// What the driver does next.
#[derive(Clone, Copy, Debug, PartialEq, Eq, Structural)]
pub enum PassAction {
    /// Fetch the snapshot; no storage transaction is open yet.
    Fetch,
    /// Open the storage transaction and merge the snapshot.
    Reconcile,
    /// Commit the storage transaction.
    Commit,
    /// Roll the storage transaction back, then report the failure.
    RollBack,
    /// Report the failure; nothing was written.
    ReportFailure,
    /// Report the summary.
    ReportSuccess,
    /// A pass is already under way: turn the request away.
    Reject,
    /// Nothing to do until the next event.
    Wait,
}

/// The transition table of one pass.
pub open spec fn transition(phase: PassPhase, event: PassEvent) -> (PassPhase, PassAction) {
    match (phase, event) {
        (PassPhase::Idle, PassEvent::Start) => (PassPhase::Fetching, PassAction::Fetch),
        (PassPhase::Fetching, PassEvent::Succeeded) => (PassPhase::Reconciling, PassAction::Reconcile),
        (PassPhase::Fetching, PassEvent::Failed) => (PassPhase::Failed, PassAction::ReportFailure),
        (PassPhase::Reconciling, PassEvent::Succeeded) => (PassPhase::Committing, PassAction::Commit),
        (PassPhase::Reconciling, PassEvent::Failed) => (PassPhase::Failed, PassAction::RollBack),
        (PassPhase::Committing, PassEvent::Succeeded) => (PassPhase::Done, PassAction::ReportSuccess),
        (PassPhase::Committing, PassEvent::Failed) => (PassPhase::Failed, PassAction::RollBack),
        (PassPhase::Done, PassEvent::Reported) => (PassPhase::Idle, PassAction::Wait),
        (PassPhase::Failed, PassEvent::Reported) => (PassPhase::Idle, PassAction::Wait),
        (_, PassEvent::Start) => (phase, PassAction::Reject),
        _ => (phase, PassAction::Wait),
    }
}

/// The next phase of a pass and the action to perform, given what happened.
pub fn next_phase(phase: PassPhase, event: PassEvent) -> (r: (PassPhase, PassAction))
    ensures
        r == transition(phase, event),
{
    match (phase, event) {
        (PassPhase::Idle, PassEvent::Start) => (PassPhase::Fetching, PassAction::Fetch),
        (PassPhase::Fetching, PassEvent::Succeeded) => (PassPhase::Reconciling, PassAction::Reconcile),
        (PassPhase::Fetching, PassEvent::Failed) => (PassPhase::Failed, PassAction::ReportFailure),
        (PassPhase::Reconciling, PassEvent::Succeeded) => (PassPhase::Committing, PassAction::Commit),
        (PassPhase::Reconciling, PassEvent::Failed) => (PassPhase::Failed, PassAction::RollBack),
        (PassPhase::Committing, PassEvent::Succeeded) => (PassPhase::Done, PassAction::ReportSuccess),
        (PassPhase::Committing, PassEvent::Failed) => (PassPhase::Failed, PassAction::RollBack),
        (PassPhase::Done, PassEvent::Reported) => (PassPhase::Idle, PassAction::Wait),
        (PassPhase::Failed, PassEvent::Reported) => (PassPhase::Idle, PassAction::Wait),
        (_, PassEvent::Start) => (phase, PassAction::Reject),
        _ => (phase, PassAction::Wait),
    }
}

/// A failure never stops the scheduler: once reported, a failed or finished
/// pass leaves the machine idle, ready for the next tick.
pub proof fn lemma_pass_returns_to_idle(phase: PassPhase)
    requires
        phase == PassPhase::Done || phase == PassPhase::Failed,
    ensures
        transition(phase, PassEvent::Reported).0 == PassPhase::Idle,
{
}

/// At most one pass runs at a time: a start request outside `Idle` is turned
/// away and leaves the phase unchanged.
pub proof fn lemma_one_pass_at_a_time(phase: PassPhase)
    requires
        phase != PassPhase::Idle,
    ensures
        transition(phase, PassEvent::Start) == (phase, PassAction::Reject),
{
}

/// A failure after the storage transaction opened always rolls it back; a
/// failed fetch opened none.
pub proof fn lemma_failure_rolls_back(phase: PassPhase)
    ensures
        (phase == PassPhase::Reconciling || phase == PassPhase::Committing) ==> transition(
            phase,
            PassEvent::Failed,
        ) == (PassPhase::Failed, PassAction::RollBack),
        phase == PassPhase::Fetching ==> transition(phase, PassEvent::Failed) == (
            PassPhase::Failed,
            PassAction::ReportFailure,
        ),
{
}

} // verus!
