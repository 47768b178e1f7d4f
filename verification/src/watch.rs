//! The watch supervisor's decision logic. The surrounding binary owns the
//! file watcher, the channel and the child process; every decision — whether
//! an event qualifies, whether it falls inside the debounce window, whether
//! a child may be spawned, whether a failed registration matters — is taken
//! here.

use vstd::prelude::*;

verus! {

/// The debounce window: a qualifying event within this many milliseconds of
/// the last accepted restart is dropped.
pub const DEBOUNCE_MS: u64 = 200;

/// What kind of change a filesystem event reports.
#[derive(Clone, Copy, Debug, PartialEq, Eq, Structural)]
pub enum ChangeKind {
    Modified,
    Created,
    Removed,
    Other,
}

/// What the supervisor's loop receives: a change to a watched file stamped
/// with a monotonic time, or the end of the event channel.
#[derive(Clone, Copy, Debug, PartialEq, Eq, Structural)]
pub enum WatchEvent {
    Change { kind: ChangeKind, at_ms: u64 },
    Closed,
}

/// What the loop is told to do for one event.
#[derive(Clone, Copy, Debug, PartialEq, Eq, Structural)]
pub enum WatchAction {
    /// Kill the child, reload the env files, spawn anew.
    Restart,
    /// Drop the event.
    Ignore,
    /// Kill and reap the child, then leave the loop with failure.
    Exit,
}

/// Whether a change of this kind can trigger a restart: only modifications
/// and creations do; deletions and everything else are ignored.
pub open spec fn relevant(kind: ChangeKind) -> bool {
    kind is Modified || kind is Created
}

/// Whether an event at `at_ms` lies outside the debounce window that opened
/// at `last_ms`: strictly more than `DEBOUNCE_MS` must have passed.
pub open spec fn outside_debounce(at_ms: u64, last_ms: u64) -> bool {
    at_ms > last_ms && at_ms - last_ms > DEBOUNCE_MS
}

/// The supervisor's whole state between events: when the last accepted
/// restart (or the initial run) happened.
pub struct Supervisor {
    pub last_restart_ms: u64,
}

impl Supervisor {
    /// What one event does to the state, and what the loop must do.
    pub open spec fn step_model(self, ev: WatchEvent) -> (Supervisor, WatchAction) {
        match ev {
            WatchEvent::Closed => (self, WatchAction::Exit),
            WatchEvent::Change { kind, at_ms } => {
                if relevant(kind) && outside_debounce(at_ms, self.last_restart_ms) {
                    (Supervisor { last_restart_ms: at_ms }, WatchAction::Restart)
                } else {
                    (self, WatchAction::Ignore)
                }
            },
        }
    }

    /// A supervisor that just performed its initial run at `start_ms`.
    pub fn new(start_ms: u64) -> (s: Supervisor)
        ensures
            s.last_restart_ms == start_ms,
    {
        Supervisor { last_restart_ms: start_ms }
    }

    /// Decides one event: restart exactly on a modification or creation
    /// strictly more than `DEBOUNCE_MS` after the last accepted restart;
    /// exit exactly when the channel closed; ignore everything else.
    pub fn step(&mut self, ev: &WatchEvent) -> (a: WatchAction)
        ensures
            ({
                let p = old(self).step_model(*ev);
                *final(self) == p.0 && a == p.1
            }),
    {
        match ev {
            WatchEvent::Closed => WatchAction::Exit,
            WatchEvent::Change { kind, at_ms } => {
                let qualifies = match kind {
                    ChangeKind::Modified => true,
                    ChangeKind::Created => true,
                    _ => false,
                };
                if qualifies && *at_ms > self.last_restart_ms && *at_ms - self.last_restart_ms
                    > DEBOUNCE_MS {
                    self.last_restart_ms = *at_ms;
                    WatchAction::Restart
                } else {
                    WatchAction::Ignore
                }
            },
        }
    }
}

/// Whether a (re)spawn may happen: only a successful reload of the env
/// files allows one. A failed reload skips the spawn for this cycle; the
/// loop keeps listening.
#[derive(Clone, Copy, Debug, PartialEq, Eq, Structural)]
pub enum SpawnDecision {
    Spawn,
    SkipSpawn,
}

/// The spawn policy shared by the initial run and every restart cycle: a
/// child is spawned exactly when loading the env files succeeded. Nothing
/// else — in particular no watcher registration failure — enters into it.
pub fn spawn_decision(load_ok: bool) -> (d: SpawnDecision)
    ensures
        d is Spawn <==> load_ok,
{
    if load_ok {
        SpawnDecision::Spawn
    } else {
        SpawnDecision::SkipSpawn
    }
}

/// How a failed watch registration is handled.
#[derive(Clone, Copy, Debug, PartialEq, Eq, Structural)]
pub enum RegistrationOutcome {
    Watching,
    /// Warn and go on with the files that could be registered.
    WarnAndContinue,
}

/// Watch resilience, registration half: failing to register a watched file
/// is never fatal — the supervisor warns and keeps watching the rest, and
/// keeps running the command.
pub fn registration_outcome(registered: bool) -> (r: RegistrationOutcome)
    ensures
        r is Watching <==> registered,
        r is WarnAndContinue <==> !registered,
{
    if registered {
        RegistrationOutcome::Watching
    } else {
        RegistrationOutcome::WarnAndContinue
    }
}

/// Debounce: of two qualifying changes after an accepted restart, the first
/// restarts; the second restarts exactly when it arrives strictly more than
/// `DEBOUNCE_MS` after the first — inside the window it is dropped.
pub proof fn lemma_debounce(
    s: Supervisor,
    k1: ChangeKind,
    k2: ChangeKind,
    t1: u64,
    t2: u64,
)
    requires
        relevant(k1),
        relevant(k2),
        outside_debounce(t1, s.last_restart_ms),
        t1 <= t2,
    ensures
        ({
            let p1 = s.step_model(WatchEvent::Change { kind: k1, at_ms: t1 });
            let p2 = p1.0.step_model(WatchEvent::Change { kind: k2, at_ms: t2 });
            &&& p1.1 is Restart
            &&& (t2 - t1 <= DEBOUNCE_MS ==> p2.1 is Ignore)
            &&& (t2 - t1 > DEBOUNCE_MS ==> p2.1 is Restart)
        }),
{
}

} // verus!
