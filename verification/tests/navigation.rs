use argand::navigation::{shifted, viewport_columns, View};

#[test]
fn bounding_keeps_the_view_inside_the_capture_and_at_least_the_minimum() {
    assert_eq!(View::full(1000), View { start: 0, len: 1000 });
    assert_eq!(View { start: 900, len: 300 }.bounded(1000, 64), View { start: 700, len: 300 });
    assert_eq!(View { start: 10, len: 5 }.bounded(1000, 64), View { start: 10, len: 64 });
    assert_eq!(View { start: 10, len: 0 }.bounded(1000, 64), View { start: 0, len: 1000 });
    assert_eq!(View { start: 10, len: 5000 }.bounded(1000, 64), View { start: 0, len: 1000 });
    let once = View { start: u64::MAX, len: 7 }.bounded(1000, 64);
    assert_eq!(once.bounded(1000, 64), once);
}

#[test]
fn a_view_is_within_a_capture_only_if_it_shows_something_of_it() {
    assert!(View { start: 0, len: 10 }.within(10));
    assert!(!View { start: 1, len: 10 }.within(10));
    assert!(!View { start: 0, len: 0 }.within(10));
    assert!(!View { start: u64::MAX, len: 2 }.within(u64::MAX));
}

#[test]
fn centring_and_shifting_stay_in_the_capture() {
    let view = View { start: 0, len: 100 };
    assert_eq!(view.centered(500, 1000), View { start: 450, len: 100 });
    assert_eq!(view.centered(10, 1000), View { start: 0, len: 100 });
    assert_eq!(view.centered(990, 1000), View { start: 900, len: 100 });
    assert_eq!(shifted(10, true, 25, 900), 0);
    assert_eq!(shifted(10, false, 25, 900), 35);
    assert_eq!(shifted(u64::MAX - 1, false, 25, u64::MAX), u64::MAX);
    assert_eq!(shifted(880, false, 25, 900), 900);
}

#[test]
fn viewport_uses_exact_sample_bounds_and_shared_device_pixel_edges() {
    assert_eq!(viewport_columns(View { start: 0, len: 1000 }, 1000, 100), (0, 100));
    assert_eq!(viewport_columns(View { start: 500, len: 1 }, 1000, 100), (50, 51));
    assert_eq!(viewport_columns(View { start: 999, len: 1 }, 1000, 100), (99, 100));
    assert_eq!(viewport_columns(View { start: u64::MAX, len: u64::MAX }, u64::MAX, 7), (6, 7));
    assert_eq!(viewport_columns(View { start: 10, len: 20 }, 1000, 100), (1, 3));
}
