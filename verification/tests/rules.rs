use web_slinger::collider_import::{contains_special_chars, hookable, Hookable};
use web_slinger::color_picker::ColorPickState;
use web_slinger::state_value::StateValue;
use web_slinger::timer::{stop_start_tracking, ClockEffect, Finish, TimerStarter};

#[test]
fn letters_and_digits_are_not_special() {
    assert!(!contains_special_chars("a"));
    assert!(!contains_special_chars("Z"));
    assert!(!contains_special_chars("0"));
    assert!(!contains_special_chars("azAZ09"));
    assert!(!contains_special_chars("TheQuickBrownFox123"));
}

#[test]
fn the_empty_text_has_no_special_char() {
    assert!(!contains_special_chars(""));
}

#[test]
fn anything_else_is_special() {
    assert!(contains_special_chars(" "));
    assert!(contains_special_chars("."));
    assert!(contains_special_chars("a b"));
    assert!(contains_special_chars("abc!"));
    assert!(contains_special_chars("_"));
    assert!(contains_special_chars("\n"));
    assert!(contains_special_chars("a\nb"));
    assert!(contains_special_chars("\0"));
}

#[test]
fn the_neighbours_of_the_plain_ranges_are_special() {
    for c in ['/', ':', '@', '[', '`', '{'] {
        assert!(contains_special_chars(&format!("a{}b", c)));
    }
}

#[test]
fn letters_beyond_ascii_are_special() {
    assert!(contains_special_chars("é"));
    assert!(contains_special_chars("naïve"));
    assert!(contains_special_chars("日本"));
    assert!(contains_special_chars("٣"));
}

#[test]
fn a_letter_is_hookable_unless_it_is_special() {
    assert_eq!(hookable("a"), Some(Hookable));
    assert_eq!(hookable("B7"), Some(Hookable));
    assert_eq!(hookable(""), Some(Hookable));
    assert_eq!(hookable(","), None);
    assert_eq!(hookable("a "), None);
}

#[test]
fn the_colour_is_picked_on_the_first_coloured_contact() {
    let state = ColorPickState::default();
    assert_eq!(state, ColorPickState::Picking);
    assert!(state.is_picking());
    let state = state.after_tick(false);
    assert_eq!(state, ColorPickState::Picking);
    let state = state.after_tick(true);
    assert_eq!(state, ColorPickState::Picked);
    assert!(!state.is_picking());
}

#[test]
fn a_picked_colour_stays_picked() {
    let state = ColorPickState::Picked;
    assert_eq!(state.after_tick(false), ColorPickState::Picked);
    assert_eq!(state.after_tick(true), ColorPickState::Picked);
}

fn flags(active: bool, show: bool) -> (StateValue<bool>, StateValue<bool>) {
    let (mut active, mut show) = (StateValue::new(active), StateValue::new(show));
    active.clean();
    show.clean();
    (active, show)
}

#[test]
fn a_starter_switches_the_timer_on_and_restarts_the_clock() {
    let (mut active, mut show) = flags(false, false);
    let effect = stop_start_tracking(&mut active, &mut show, Some(TimerStarter), None);
    assert_eq!(effect, ClockEffect { restart: true, record_finish: false });
    assert!(active.value && active.dirty);
    assert!(!show.value && !show.dirty);
}

#[test]
fn a_starter_marks_a_running_timer_dirty_again() {
    let (mut active, mut show) = flags(true, false);
    let effect = stop_start_tracking(&mut active, &mut show, Some(TimerStarter), None);
    assert_eq!(effect, ClockEffect { restart: true, record_finish: false });
    assert!(active.value && active.dirty);
}

#[test]
fn the_finish_stops_a_running_timer_and_brings_up_the_finish_screen() {
    let (mut active, mut show) = flags(true, false);
    let effect = stop_start_tracking(&mut active, &mut show, None, Some(Finish));
    assert_eq!(effect, ClockEffect { restart: false, record_finish: true });
    assert!(!active.value && active.dirty);
    assert!(show.value && show.dirty);
}

#[test]
fn the_finish_without_a_running_timer_shows_nothing() {
    let (mut active, mut show) = flags(false, false);
    let effect = stop_start_tracking(&mut active, &mut show, None, Some(Finish));
    assert_eq!(effect, ClockEffect { restart: false, record_finish: true });
    assert!(!active.value && active.dirty);
    assert!(!show.value && !show.dirty);
}

#[test]
fn a_trigger_that_starts_and_finishes_does_both_in_turn() {
    let (mut active, mut show) = flags(false, false);
    let effect = stop_start_tracking(&mut active, &mut show, Some(TimerStarter), Some(Finish));
    assert_eq!(effect, ClockEffect { restart: true, record_finish: true });
    assert!(!active.value && active.dirty);
    assert!(show.value && show.dirty);
}

#[test]
fn any_other_trigger_leaves_the_timer_alone() {
    let (mut active, mut show) = flags(true, true);
    let effect = stop_start_tracking(&mut active, &mut show, None, None);
    assert_eq!(effect, ClockEffect { restart: false, record_finish: false });
    assert!(active.value && !active.dirty);
    assert!(show.value && !show.dirty);
}
