//! When to reconcile: waiting for changes of the graph, and settling it.
use vstd::prelude::*;

verus! {

/// A "something changed, please reconcile" flag, set from the notification thread and consumed
/// by the watch loop.
#[derive(Debug)]
pub struct Dirty {
    pending: bool,
}

impl View for Dirty {
    type V = bool;

    closed spec fn view(&self) -> bool {
        self.pending
    }
}

impl Default for Dirty {
    /// Nothing has changed.
    fn default() -> (dirty: Dirty)
        ensures
            !dirty@,
    {
        Dirty { pending: false }
    }
}

impl Dirty {
    /// Notes that something changed.
    pub fn mark(&mut self)
        ensures
            final(self)@,
    {
        self.pending = true;
    }

    /// Clears the flag and tells whether it was set. Where it was not, the caller has to wait
    /// until something changes and ask again.
    pub fn wait_and_clear(&mut self) -> (was_pending: bool)
        ensures
            was_pending == old(self)@,
            !final(self)@,
    {
        let was_pending = self.pending;
        self.pending = false;
        was_pending
    }

    /// Forgets what changed.
    pub fn clear(&mut self)
        ensures
            !final(self)@,
    {
        self.pending = false;
    }
}

/// Where the watch loop stands.
#[derive(Clone, Copy, Debug, PartialEq, Eq, Structural)]
pub enum Phase {
    /// Before the initial pass.
    Starting,
    /// The initial pass is under way.
    First,
    /// Waiting for the graph to change.
    Idle,
    /// Waiting for a burst of changes to settle.
    Settling,
    /// A pass is under way.
    Reconciling,
    /// Absorbing the changes that the last pass made itself.
    Cooling,
    /// Those changes have been forgotten.
    Cleared,
    /// The loop has ended.
    Stopped,
}

/// What the watch loop does next.
#[derive(Clone, Copy, Debug, PartialEq, Eq, Structural)]
pub enum Task {
    /// Run a pass and tell whether it changed the graph.
    Reconcile,
    /// Wait until the flag is set, and clear it.
    AwaitChange,
    /// Sleep for so many milliseconds.
    Sleep(u64),
    /// Clear the flag.
    ClearFlag,
    /// Deactivate the client and end.
    ShutDown,
}

/// The phase after this one and the task that it begins with, where the last task changed the
/// graph or not (`changed`), and the loop has been asked to stop or not (`stop`).
///
/// A pass that changed something is followed by a cooldown, in which the events that it caused
/// itself come in and are forgotten, and by another pass. A pass that changed nothing is not:
/// what happened during it keeps the flag set for the next wait.
pub open spec fn next_phase(
    phase: Phase,
    changed: bool,
    stop: bool,
    debounce: u64,
    cooldown: u64,
) -> (Phase, Task) {
    match phase {
        Phase::Starting => (Phase::First, Task::Reconcile),
        Phase::First => if stop {
            (Phase::Stopped, Task::ShutDown)
        } else {
            (Phase::Idle, Task::AwaitChange)
        },
        Phase::Idle => if stop {
            (Phase::Stopped, Task::ShutDown)
        } else {
            (Phase::Settling, Task::Sleep(debounce))
        },
        Phase::Settling => (Phase::Reconciling, Task::Reconcile),
        Phase::Reconciling => if stop {
            (Phase::Stopped, Task::ShutDown)
        } else if changed {
            (Phase::Cooling, Task::Sleep(cooldown))
        } else {
            (Phase::Idle, Task::AwaitChange)
        },
        Phase::Cooling => (Phase::Cleared, Task::ClearFlag),
        Phase::Cleared => (Phase::Reconciling, Task::Reconcile),
        Phase::Stopped => (Phase::Stopped, Task::ShutDown),
    }
}

/// The watch loop: wait, let the burst settle, and reconcile to a fixpoint.
pub struct Watch {
    phase: Phase,
    debounce: u64,
    cooldown: u64,
}

impl Watch {
    /// Where the loop stands.
    pub closed spec fn phase(self) -> Phase {
        self.phase
    }

    /// How long it lets a burst of changes settle, in milliseconds.
    pub closed spec fn debounce(self) -> u64 {
        self.debounce
    }

    /// How long it absorbs the changes of a pass, in milliseconds.
    pub closed spec fn cooldown(self) -> u64 {
        self.cooldown
    }

    /// A loop with these waiting times, in milliseconds.
    pub fn new(debounce: u64, cooldown: u64) -> (watch: Watch)
        ensures
            watch.phase() == Phase::Starting,
            watch.debounce() == debounce,
            watch.cooldown() == cooldown,
    {
        Watch { phase: Phase::Starting, debounce, cooldown }
    }

    /// Goes on to the next phase, once the last task is done.
    pub fn next(&mut self, changed: bool, stop: bool) -> (task: Task)
        ensures
            (final(self).phase(), task) == next_phase(
                old(self).phase(),
                changed,
                stop,
                old(self).debounce(),
                old(self).cooldown(),
            ),
            final(self).debounce() == old(self).debounce(),
            final(self).cooldown() == old(self).cooldown(),
    {
        let (phase, task) = match self.phase {
            Phase::Starting => (Phase::First, Task::Reconcile),
            Phase::First => if stop {
                (Phase::Stopped, Task::ShutDown)
            } else {
                (Phase::Idle, Task::AwaitChange)
            },
            Phase::Idle => if stop {
                (Phase::Stopped, Task::ShutDown)
            } else {
                (Phase::Settling, Task::Sleep(self.debounce))
            },
            Phase::Settling => (Phase::Reconciling, Task::Reconcile),
            Phase::Reconciling => if stop {
                (Phase::Stopped, Task::ShutDown)
            } else if changed {
                (Phase::Cooling, Task::Sleep(self.cooldown))
            } else {
                (Phase::Idle, Task::AwaitChange)
            },
            Phase::Cooling => (Phase::Cleared, Task::ClearFlag),
            Phase::Cleared => (Phase::Reconciling, Task::Reconcile),
            Phase::Stopped => (Phase::Stopped, Task::ShutDown),
        };
        self.phase = phase;
        task
    }
}

} // verus!
