use argand::analysis::{accepts, keeps_going, next_generation};

#[test]
fn only_the_newest_request_changes_the_view() {
    let first = next_generation(0);
    let second = next_generation(first);
    assert_eq!((first, second), (1, 2));
    assert!(accepts(second, None));
    assert!(accepts(second, Some(second)));
    assert!(!accepts(second, Some(first)));
    assert_eq!(next_generation(u64::MAX), 0);
}

#[test]
fn the_worker_stops_when_superseded_or_disconnected() {
    assert!(keeps_going(3, 3, true, true));
    assert!(!keeps_going(4, 3, true, true));
    assert!(!keeps_going(3, 3, false, true));
    assert!(!keeps_going(3, 3, true, false));
}
