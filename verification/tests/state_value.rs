use web_slinger::state_value::{CursorModeRes, StateValue};

#[test]
fn new_value_starts_dirty() {
    let v = StateValue::new(false);
    assert!(v.dirty);
    assert!(!v.value);
}

#[test]
fn set_replaces_value_and_raises_flag() {
    let mut v = StateValue::new(1u32);
    v.clean();
    assert!(!v.dirty);
    v.set(7);
    assert!(v.dirty);
    assert_eq!(v.value, 7);
}

#[test]
fn set_to_same_value_still_raises_flag() {
    let mut v = StateValue::new(3u8);
    v.clean();
    v.set(3);
    assert!(v.dirty);
    assert_eq!(v.value, 3);
}

#[test]
fn clean_lowers_flag_and_keeps_value() {
    let mut v = StateValue::new(String::from("x"));
    v.clean();
    assert!(!v.dirty);
    assert_eq!(v.value, "x");
    v.clean();
    assert!(!v.dirty);
}

#[test]
fn focus_marks_cursor_mode_dirty_without_changing_it() {
    let mut mode = CursorModeRes { locked: StateValue::new(true) };
    mode.locked.clean();
    mode.focus();
    assert!(mode.locked.dirty);
    assert!(mode.locked.value);

    let mut free = CursorModeRes { locked: StateValue::new(false) };
    free.locked.clean();
    free.focus();
    assert!(free.locked.dirty);
    assert!(!free.locked.value);
}
