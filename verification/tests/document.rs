use argand::document::{
    apply_report, capture_duration, compact_capture_duration, percent, Effect, MetadataHint, Report, Status,
};

#[test]
fn a_transform_that_has_not_reported_yet_has_no_fraction_to_show() {
    assert_eq!(percent(0, 0), None);
    assert_eq!(percent(5, 0), None);
    assert_eq!(percent(1, 3), Some(33));
    assert_eq!(percent(7, 3), Some(100));
    assert_eq!(percent(u64::MAX, u64::MAX), Some(100));
    assert_eq!(percent(u64::MAX / 2, u64::MAX), Some(49));
}

/// Seconds rounded to whole milliseconds, as the caller hands them over.
fn millis(seconds: f64) -> u64 {
    (seconds * 1000.0).round() as u64
}

#[test]
fn capture_duration_rounds_before_splitting_minutes_seconds_and_milliseconds() {
    for (seconds, expected) in [
        (0.0, "0:00.000"),
        (0.0004, "0:00.000"),
        (0.001, "0:00.001"),
        (59.9996, "1:00.000"),
        (221.34, "3:41.340"),
        (3599.9996, "60:00.000"),
        (3661.001, "61:01.001"),
    ] {
        assert_eq!(capture_duration(millis(seconds)), expected);
    }
}

#[test]
fn the_file_summary_writes_durations_the_short_way() {
    assert_eq!(compact_capture_duration(3_723_040), "1h2m3.04s");
    assert_eq!(compact_capture_duration(60_000), "1m");
    assert_eq!(compact_capture_duration(0), "0s");
    assert_eq!(compact_capture_duration(500), "0.5s");
    assert_eq!(compact_capture_duration(3_600_000), "1h");
    assert_eq!(compact_capture_duration(12_000), "12s");
}

#[test]
fn only_a_finished_analysis_has_a_time_hint() {
    assert!(Status::Opening.hint("1.500 s").is_none());
    assert!(Status::Analyzing { done: 1, total: 2 }.hint("1.500 s").is_none());
    assert!(Status::Failed("broken".into()).hint("1.500 s").is_none());
    let hint = Status::Ready { elapsed_nanos: 1_500_000_000 }.hint("1.500 s").unwrap();
    assert_eq!(hint.title, "Analysis time");
    assert_eq!(hint.value, "1.500 s");
    assert_eq!(
        hint.explanation,
        "Includes sample reading, transforms and image preparation, excluding file opening and window drawing"
    );
    let hint = Status::Ready { elapsed_nanos: 1_250_000_000 }.hint("1.250 s").unwrap();
    assert_eq!(hint.value, "1.250 s");
}

#[test]
fn containers_are_explained_by_name() {
    let hint = MetadataHint::container("rf64");
    assert_eq!(hint.title, "File container type");
    assert_eq!(hint.value, "rf64");
    assert_eq!(hint.explanation, "The RF64 container extends WAVE for captures larger than 4 GiB");
    let unknown = MetadataHint::container("mat");
    assert_eq!(unknown.explanation, "The container defines how samples and metadata are stored in the file");
}

#[test]
fn status_messages_name_the_work_and_not_the_reason() {
    assert_eq!(Status::Opening.message("1.2 s"), "opening...");
    assert_eq!(Status::Analyzing { done: 0, total: 0 }.message("1.2 s"), "analysing...");
    assert_eq!(Status::Analyzing { done: 3, total: 8 }.message("1.2 s"), "analysing... 37%");
    assert_eq!(Status::Analyzing { done: 9, total: 8 }.message("1.2 s"), "analysing... 100%");
    assert_eq!(
        Status::Ready { elapsed_nanos: 1_200_000_000 }.message("1.2 s"),
        "ready in 1.2 s"
    );
    assert_eq!(Status::Failed("no such file: /tmp/x".into()).message("1.2 s"), "cannot be read");
}

#[test]
fn each_report_moves_the_status_and_says_what_to_redraw() {
    assert_eq!(apply_report(Report::Opened), (Status::Analyzing { done: 0, total: 0 }, Effect::Opened));
    assert_eq!(
        apply_report(Report::Progress { done: 4, total: 9 }),
        (Status::Analyzing { done: 4, total: 9 }, Effect::Status)
    );
    assert_eq!(
        apply_report(Report::Snapshot { refined: 0, width: 800 }),
        (Status::Analyzing { done: 0, total: 800 }, Effect::Analysis)
    );
    assert_eq!(
        apply_report(Report::Ready { elapsed_nanos: 7 }),
        (Status::Ready { elapsed_nanos: 7 }, Effect::Analysis)
    );
    assert_eq!(
        apply_report(Report::Failed("opening: no such file".into())),
        (Status::Failed("opening: no such file".into()), Effect::Status)
    );
}
