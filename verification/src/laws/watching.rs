//! What holds of the watch loop.
use vstd::prelude::*;

use crate::watch::{next_phase, Phase, Task};

verus! {

/// The phase after `n` tasks, where the loop has been asked to stop and pass `i` changes the
/// graph or not (`changes(i)`).
pub open spec fn stopping(
    phase: Phase,
    changes: spec_fn(int) -> bool,
    debounce: u64,
    cooldown: u64,
    n: nat,
) -> Phase
    decreases n,
{
    if n == 0 {
        phase
    } else {
        let before = stopping(phase, changes, debounce, cooldown, (n - 1) as nat);
        next_phase(before, changes(n as int), true, debounce, cooldown).0
    }
}

/// Once it has been asked to stop the loop ends after at most four more tasks, whatever the passes
/// among them do.
pub proof fn the_loop_stops_when_asked(
    phase: Phase,
    changes: spec_fn(int) -> bool,
    debounce: u64,
    cooldown: u64,
)
    ensures
        stopping(phase, changes, debounce, cooldown, 4) == Phase::Stopped,
{
    reveal_with_fuel(stopping, 5);
}

/// The loop ends only when it has been asked to stop, and stays ended.
pub proof fn the_loop_stops_only_when_asked(
    phase: Phase,
    changed: bool,
    stop: bool,
    debounce: u64,
    cooldown: u64,
)
    ensures
        next_phase(phase, changed, stop, debounce, cooldown).0 == Phase::Stopped ==> stop || phase
            == Phase::Stopped,
        next_phase(Phase::Stopped, changed, stop, debounce, cooldown).0 == Phase::Stopped,
{
}

/// The flag is forgotten only between a pass that changed the graph, with its cooldown, and the
/// pass after it: no change that comes during a pass that changes nothing, or after it, is lost.
pub proof fn changes_are_forgotten_only_before_another_pass(
    phase: Phase,
    changed: bool,
    stop: bool,
    debounce: u64,
    cooldown: u64,
)
    ensures
        next_phase(phase, changed, stop, debounce, cooldown).1 == Task::ClearFlag ==> phase
            == Phase::Cooling,
        next_phase(phase, changed, stop, debounce, cooldown).0 == Phase::Cooling ==> phase
            == Phase::Reconciling && changed,
        next_phase(Phase::Cooling, changed, stop, debounce, cooldown) == (
            Phase::Cleared,
            Task::ClearFlag,
        ),
        next_phase(Phase::Cleared, changed, stop, debounce, cooldown) == (
            Phase::Reconciling,
            Task::Reconcile,
        ),
{
}

/// After the initial pass the loop waits for a change, and from then on only after a pass that
/// changed nothing; every change that it waited for is followed by a pass.
pub proof fn the_loop_reconciles_to_a_fixpoint(
    phase: Phase,
    changed: bool,
    stop: bool,
    debounce: u64,
    cooldown: u64,
)
    ensures
        next_phase(phase, changed, stop, debounce, cooldown).1 == Task::AwaitChange ==> phase
            == Phase::First || (phase == Phase::Reconciling && !changed),
        next_phase(Phase::Idle, changed, false, debounce, cooldown) == (
            Phase::Settling,
            Task::Sleep(debounce),
        ),
        next_phase(Phase::Settling, changed, stop, debounce, cooldown) == (
            Phase::Reconciling,
            Task::Reconcile,
        ),
{
}

/// The loop begins with a pass, and then waits for the graph to change.
pub proof fn the_loop_begins_with_a_pass(changed: bool, debounce: u64, cooldown: u64)
    ensures
        next_phase(Phase::Starting, changed, false, debounce, cooldown).1 == Task::Reconcile,
        next_phase(Phase::Starting, changed, true, debounce, cooldown).1 == Task::Reconcile,
        next_phase(
            next_phase(Phase::Starting, changed, false, debounce, cooldown).0,
            changed,
            false,
            debounce,
            cooldown,
        ) == (Phase::Idle, Task::AwaitChange),
        next_phase(Phase::Starting, changed, false, debounce, cooldown).0 == Phase::First,
        next_phase(Phase::Starting, changed, true, debounce, cooldown).0 == Phase::First,
{
}

/// A change is left to settle for the configured debounce, whatever that is, and followed by a pass.
pub proof fn a_change_is_debounced(changed: bool, stop: bool, debounce: u64, cooldown: u64)
    ensures
        next_phase(Phase::Idle, changed, false, debounce, cooldown).1 == Task::Sleep(debounce),
        next_phase(
            next_phase(Phase::Idle, changed, false, debounce, cooldown).0,
            changed,
            stop,
            debounce,
            cooldown,
        ) == (Phase::Reconciling, Task::Reconcile),
{
}

/// After a pass that changed the graph the loop cools down for the configured time, whatever that
/// is, forgets what came in meanwhile, and runs another pass; after one that did not it waits for
/// the next change.
pub proof fn a_change_of_our_own_is_cooled_down(changed: bool, stop: bool, debounce: u64, cooldown: u64)
    ensures
        next_phase(Phase::Reconciling, true, false, debounce, cooldown) == (
            Phase::Cooling,
            Task::Sleep(cooldown),
        ),
        next_phase(Phase::Cooling, changed, stop, debounce, cooldown) == (
            Phase::Cleared,
            Task::ClearFlag,
        ),
        next_phase(Phase::Cleared, changed, stop, debounce, cooldown) == (
            Phase::Reconciling,
            Task::Reconcile,
        ),
        next_phase(Phase::Reconciling, false, false, debounce, cooldown) == (
            Phase::Idle,
            Task::AwaitChange,
        ),
{
}

/// A request to stop is followed as soon as a pass is over or a wait has ended.
pub proof fn a_request_to_stop_is_followed(changed: bool, debounce: u64, cooldown: u64)
    ensures
        next_phase(Phase::First, changed, true, debounce, cooldown) == (
            Phase::Stopped,
            Task::ShutDown,
        ),
        next_phase(Phase::Idle, changed, true, debounce, cooldown) == (
            Phase::Stopped,
            Task::ShutDown,
        ),
        next_phase(Phase::Reconciling, changed, true, debounce, cooldown) == (
            Phase::Stopped,
            Task::ShutDown,
        ),
        next_phase(Phase::Stopped, changed, true, debounce, cooldown).1 == Task::ShutDown,
        next_phase(Phase::Stopped, changed, false, debounce, cooldown).1 == Task::ShutDown,
{
}

} // verus!
