use kymenu::repeat::{key_from_evdev, Repeat, RepeatConfig, RepeatState};
use xkeysym::KeyCode;

const MS: u64 = 1_000_000;

#[test]
fn evdev_codes_are_offset_by_eight() {
    assert_eq!(key_from_evdev(30).raw(), 38);
}

#[test]
fn no_repeat_without_config_or_key() {
    let mut r = Repeat::default();
    assert_eq!(r.get_repeat(10_000 * MS, 0), None);
    r.set_config(25, 600);
    assert_eq!(r.get_repeat(10_000 * MS, 0), None);
}

#[test]
fn repeat_waits_for_delay_then_interval() {
    let mut r = Repeat::default();
    r.set_config(25, 600);
    r.set_state(KeyCode::new(38), 1_000 * MS);
    assert_eq!(r.get_repeat(1_599 * MS, 40 * MS), None);
    assert_eq!(r.get_repeat(1_600 * MS, 40 * MS), Some(KeyCode::new(38)));
    assert_eq!(r.get_repeat(1_639 * MS, 40 * MS), None);
    assert_eq!(r.get_repeat(1_640 * MS, 40 * MS), Some(KeyCode::new(38)));
}

#[test]
fn release_stops_the_repeat() {
    let mut r = Repeat::default();
    r.set_config(25, 0);
    assert_eq!(r.key_event(30, true, 0), Some(KeyCode::new(38)));
    assert_eq!(r.get_repeat(0, 0), Some(KeyCode::new(38)));
    assert_eq!(r.key_event(30, false, 5), None);
    assert_eq!(r.get_repeat(1_000 * MS, 0), None);
    r.set_state(KeyCode::new(40), 0);
    r.reset_state();
    assert_eq!(r.get_repeat(1_000 * MS, 0), None);
}

#[test]
fn clock_going_back_counts_as_no_time() {
    let mut r = Repeat::default();
    r.set_config(25, 1);
    r.set_state(KeyCode::new(38), 100 * MS);
    assert_eq!(r.get_repeat(50 * MS, 0), None);
}

#[test]
fn constructors_keep_their_values() {
    let c = RepeatConfig::new(30, 250);
    assert_eq!((c.rate, c.delay), (30, 250));
    let _ = RepeatState::new(KeyCode::new(9), 7);
}

#[test]
fn active_once_configured_and_held() {
    let mut r = Repeat::default();
    assert!(!r.is_active());
    r.set_state(KeyCode::new(38), 0);
    assert!(!r.is_active());
    r.set_config(25, 600);
    assert!(r.is_active());
    r.reset_state();
    assert!(!r.is_active());
}
