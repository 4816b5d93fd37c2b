//! The run timer: it starts when the player touches a starter and stops when the
//! player touches the finish.
//!
//! The clock itself is kept by the caller. The functions here keep the two flags
//! of the timer and say what is to be done with the clock.

use crate::state_value::StateValue;
use vstd::prelude::*;

verus! {

/// Marks a trigger that starts the timer.
#[derive(Clone, Copy, Debug, PartialEq, Eq, Structural)]
pub struct TimerStarter;

/// Marks a trigger that stops the timer.
#[derive(Clone, Copy, Debug, PartialEq, Eq, Structural)]
pub struct Finish;

/// What touching a trigger does to the clock.
///
/// Where both hold, the clock is first set back to zero and then read out.
#[derive(Clone, Copy, Debug, PartialEq, Eq, Structural)]
pub struct ClockEffect {
    /// The clock is set back to zero.
    pub restart: bool,
    /// The clock is read out as the finish time, and then set back to zero.
    pub record_finish: bool,
}

/// Updates the flags of the timer for a trigger that the player touches.
///
/// A starter switches the timer on. A finish switches it off, and brings up the
/// finish screen if the timer was running. A trigger that is both does the one,
/// then the other. Every flag that is written is marked dirty, whether or not
/// its value changed.
pub fn stop_start_tracking(
    active: &mut StateValue<bool>,
    show_finish_screen: &mut StateValue<bool>,
    timer_starter: Option<TimerStarter>,
    finish: Option<Finish>,
) -> (effect: ClockEffect)
    ensures
        effect.restart == (timer_starter is Some),
        effect.record_finish == (finish is Some),
        final(active).value == if finish is Some {
            false
        } else if timer_starter is Some {
            true
        } else {
            old(active).value
        },
        final(active).dirty == (old(active).dirty || timer_starter is Some || finish is Some),
        final(show_finish_screen).value == (old(show_finish_screen).value || (finish is Some && (
        timer_starter is Some || old(active).value))),
        final(show_finish_screen).dirty == (old(show_finish_screen).dirty || (finish is Some && (
        timer_starter is Some || old(active).value))),
{
    if timer_starter.is_some() {
        active.set(true);
    }
    if finish.is_some() {
        if active.value {
            show_finish_screen.set(true);
        }
        active.set(false);
    }
    ClockEffect { restart: timer_starter.is_some(), record_finish: finish.is_some() }
}

} // verus!
