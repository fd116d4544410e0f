use argand::session::{readable, restore_rectangle, Schedule, WindowState, INTERVAL_MILLIS, VERSION};

#[test]
fn only_an_ordinary_window_says_what_size_to_come_back_to() {
    let reported = (100.0f32, 80.0f32, 1000.0f32, 700.0f32);
    assert_eq!(restore_rectangle(reported, WindowState::Normal), Some(reported));
    assert_eq!(restore_rectangle(reported, WindowState::Maximized), None);
    assert_eq!(restore_rectangle(reported, WindowState::Fullscreen), None);
    assert_eq!(WindowState::default(), WindowState::Normal);
}

#[test]
fn a_session_from_a_newer_version_is_read_as_defaults_and_left_alone() {
    assert!(readable(1));
    assert!(readable(2));
    assert!(readable(VERSION));
    assert!(!readable(9999));
    assert!(!readable(0));
}

#[test]
fn a_drag_writes_a_few_times_rather_than_once_a_frame() {
    let mut schedule = Schedule::new();
    let mut writes = 0;
    for frame in 0..60u64 {
        let now = frame * 16;
        if schedule.offer(false, now) {
            writes += 1;
            schedule.attempted(now, true);
        }
    }
    assert_eq!(writes, 2);
    assert!(schedule.flush());
}

#[test]
fn a_position_that_has_not_changed_is_not_written_again() {
    let mut schedule = Schedule::new();
    assert!(!schedule.offer(true, 0));
    assert!(!schedule.offer(true, 10_000));
    assert!(!schedule.flush());
}

#[test]
fn the_last_position_survives_even_if_the_schedule_would_have_skipped_it() {
    let mut schedule = Schedule::new();
    assert!(schedule.offer(false, 0));
    schedule.attempted(0, true);
    assert!(!schedule.offer(false, 10));
    assert!(schedule.flush());
    schedule.attempted(20, true);
    assert!(!schedule.flush());
}

#[test]
fn a_failure_that_persists_does_not_retry_on_every_frame() {
    let mut schedule = Schedule::new();
    assert!(schedule.offer(false, 1000));
    schedule.attempted(1000, false);
    assert!(schedule.flush());
    assert!(!schedule.offer(false, 1016));
    assert!(!schedule.offer(false, 1000 + INTERVAL_MILLIS - 1));
    assert!(schedule.offer(false, 1000 + INTERVAL_MILLIS));
    schedule.attempted(1000 + INTERVAL_MILLIS, true);
    assert!(!schedule.flush());
}

#[test]
fn a_position_the_window_has_already_left_is_not_the_one_written() {
    let mut schedule = Schedule::new();
    assert!(schedule.offer(false, 0));
    schedule.attempted(0, true);
    assert!(!schedule.offer(false, 100));
    assert!(!schedule.offer(true, 200));
    assert!(!schedule.flush());
}
