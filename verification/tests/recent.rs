use argand::recent::{recent_labels, remember, Recent, RecentFiles, RECENT_LIMIT};

type Entry = Recent<Option<String>>;

fn entry(path: impl Into<String>) -> Entry {
    Recent { path: path.into(), hints: None }
}

/// Answer every check that was started, as a probe that finds `exists`.
fn receive_checks(recent: &mut RecentFiles<Option<String>>, checks: Vec<String>, exists: impl Fn(&str) -> bool) {
    for path in checks {
        let found = exists(&path);
        recent.apply(path, found);
    }
}

#[test]
fn an_oversized_history_is_bounded_to_the_session_limit() {
    let entries: Vec<_> = (0..100).map(|i| entry(i.to_string())).collect();
    let mut recent = RecentFiles::new(&entries);
    for entry in &entries {
        recent.apply(entry.path.clone(), true);
    }
    assert_eq!(recent.visible(), entries[..RECENT_LIMIT]);
}

#[test]
fn shortcuts_follow_the_filtered_list_and_stop_after_nine() {
    let entries: Vec<_> = (0..RECENT_LIMIT).map(|i| entry(i.to_string())).collect();
    let mut recent = RecentFiles::new(&entries);
    assert!(recent.shortcut(0).is_none());
    for i in (1..RECENT_LIMIT).rev() {
        recent.apply(entries[i].path.clone(), true);
    }
    for i in 0..9 {
        assert_eq!(recent.shortcut(i), Some(entries[i + 1].clone()));
    }
    recent.apply(entries[0].path.clone(), true);
    assert_eq!(recent.shortcut(8), Some(entries[8].clone()));
    assert!(recent.shortcut(9).is_none());
    assert!(recent.shortcut(usize::MAX).is_none());
    assert_eq!(recent.visible().len(), 10);
}

#[test]
fn reordered_history_receives_checks_by_path_and_keeps_new_hints() {
    let entries = vec![entry("old.raw"), entry("new.wav")];
    let mut recent = RecentFiles::new(&entries);
    let first = recent.refresh(&entries);
    let mut reordered = vec![entries[1].clone(), entries[0].clone()];
    reordered[1].hints = Some("iq_i16@24k".to_owned());
    let second = recent.refresh(&reordered);
    assert!(second.is_empty());
    receive_checks(&mut recent, first, |_| true);
    assert_eq!(recent.visible(), reordered);
    assert_eq!(recent.shortcut(1).unwrap().hints, Some("iq_i16@24k".to_owned()));
}

#[test]
fn removed_history_results_cannot_mark_a_replacement_available() {
    let mut recent = RecentFiles::new(&[entry("old")]);
    let checks = recent.refresh(&[entry("new")]);
    recent.apply("old".to_owned(), true);
    assert!(recent.visible().is_empty());
    receive_checks(&mut recent, checks, |_| false);
    assert!(recent.visible().is_empty());
}

#[test]
fn repeated_refreshes_coalesce_pending_paths_even_when_history_changes() {
    let entries: Vec<_> = (0..RECENT_LIMIT).map(|i| entry(i.to_string())).collect();
    let mut recent = RecentFiles::new(&entries);
    let mut checks = recent.refresh(&entries);
    for _ in 0..20 {
        checks.extend(recent.refresh(&entries));
        assert_eq!(recent.waiting(), RECENT_LIMIT);
    }
    let replacement = vec![entry("replacement")];
    checks.extend(recent.refresh(&replacement));
    assert_eq!(recent.waiting(), RECENT_LIMIT + 1);
    assert_eq!(checks.len(), RECENT_LIMIT + 1);
    receive_checks(&mut recent, checks, |_| true);
    assert_eq!(recent.visible(), replacement);
    assert_eq!(recent.waiting(), 0);
}

#[test]
fn labels_are_disambiguated_after_filtering_and_match_shortcut_targets() {
    let entries = vec![entry("one/a.raw"), entry("two/a.raw"), entry("three/b.wav")];
    let mut recent = RecentFiles::new(&entries);
    recent.apply(entries[0].path.clone(), true);
    recent.apply(entries[2].path.clone(), true);
    let visible = recent.visible();
    assert_eq!(recent_labels(&visible), ["a.raw", "b.wav"]);
    for (index, expected) in visible.iter().enumerate() {
        assert_eq!(recent.shortcut(index).as_ref(), Some(expected));
    }
    recent.apply(entries[1].path.clone(), true);
    assert_eq!(
        recent_labels(&recent.visible()),
        ["a.raw - one", "a.raw - two", "b.wav"]
    );
}

#[test]
fn refreshing_keeps_verified_entries_visible_in_the_new_history_order() {
    let entries = vec![entry("first"), entry("second")];
    let mut recent = RecentFiles::new(&entries);
    for entry in &entries {
        recent.apply(entry.path.clone(), true);
    }
    let reordered = vec![entry("new"), entries[1].clone(), entries[0].clone()];
    let checks = recent.refresh(&reordered);
    assert_eq!(recent.visible(), reordered[1..]);
    receive_checks(&mut recent, checks, |_| true);
    assert_eq!(recent.visible(), reordered);
}

#[test]
fn the_loaded_file_is_hidden_without_changing_history_or_shortcut_order() {
    let mut history: Vec<Entry> = Vec::new();
    let hints = Some("iq_i16@24k".to_owned());
    for i in (0..RECENT_LIMIT).rev() {
        remember(&mut history, format!("capture-{i}.raw"), hints.clone());
    }
    let saved = history.clone();
    let mut recent = RecentFiles::new(&history);
    recent.set_current(history[0].path.clone());
    for entry in history.iter().rev() {
        recent.apply(entry.path.clone(), true);
    }
    let visible = recent.visible();
    assert_eq!(visible, history[1..]);
    let labels: Vec<_> = (1..RECENT_LIMIT)
        .map(|i| format!("capture-{i}.raw"))
        .collect();
    assert_eq!(recent_labels(&visible), labels);
    for (index, expected) in visible.iter().enumerate() {
        assert_eq!(recent.shortcut(index).as_ref(), Some(expected));
    }
    assert!(recent.shortcut(9).is_none());
    assert!(recent.shortcut(usize::MAX).is_none());
    assert_eq!(recent.history(), &saved[..]);
    assert_eq!(history, saved);

    let mut restarted = RecentFiles::new(&history);
    for entry in &history {
        restarted.apply(entry.path.clone(), true);
    }
    assert_eq!(restarted.visible(), saved);
}

#[test]
fn opening_another_file_restores_the_previous_file_in_recent_order() {
    let mut history: Vec<Entry> = Vec::new();
    for name in ["third.raw", "second.raw", "first.raw"] {
        remember(&mut history, name.to_owned(), None);
    }
    let mut recent = RecentFiles::new(&history);
    recent.set_current("first.raw".to_owned());
    let checks = recent.refresh(&history);
    receive_checks(&mut recent, checks, |_| true);
    let saved = history.clone();
    assert_eq!(recent.visible(), saved[1..]);
    assert_eq!(recent.history(), &saved[..]);

    remember(&mut history, "second.raw".to_owned(), None);
    let saved = history.clone();
    recent.set_current("second.raw".to_owned());
    let checks = recent.refresh(&history);
    assert_eq!(recent.visible(), saved[1..]);
    receive_checks(&mut recent, checks, |_| true);
    assert_eq!(recent.visible(), saved[1..]);
    assert_eq!(recent_labels(&recent.visible()), ["first.raw", "third.raw"]);
    assert_eq!(recent.shortcut(0), Some(saved[1].clone()));
    assert_eq!(recent.shortcut(1), Some(saved[2].clone()));
    assert!(recent.shortcut(2).is_none());
    assert_eq!(recent.history(), &saved[..]);
}

#[test]
fn completion_order_does_not_change_recent_order_or_saved_raw_hints() {
    let mut entries = vec![entry("missing"), entry("new.raw"), entry("old.wav")];
    entries[1].hints = Some("iq_i16@24k".to_owned());
    let mut recent = RecentFiles::new(&entries);
    recent.apply(entries[2].path.clone(), true);
    assert_eq!(recent.visible(), vec![entries[2].clone()]);
    recent.apply(entries[0].path.clone(), false);
    recent.apply(entries[1].path.clone(), true);
    assert_eq!(recent.visible(), entries[1..]);
    assert_eq!(recent.visible()[0].hints, Some("iq_i16@24k".to_owned()));
}

#[test]
fn remembering_moves_a_path_to_the_head_with_its_new_hints() {
    let mut history: Vec<Entry> = Vec::new();
    for i in 0..15 {
        remember(&mut history, format!("{i}.raw"), None);
    }
    assert_eq!(history.len(), RECENT_LIMIT);
    assert_eq!(history[0].path, "14.raw");
    remember(&mut history, "10.raw".to_owned(), Some("iq_u8".to_owned()));
    assert_eq!(history.len(), RECENT_LIMIT);
    assert_eq!(history[0], Recent { path: "10.raw".to_owned(), hints: Some("iq_u8".to_owned()) });
    assert_eq!(history.iter().filter(|e| e.path == "10.raw").count(), 1);
    assert_eq!(history[1].path, "14.raw");
    remember(&mut history, "sub/x.raw".to_owned(), None);
    remember(&mut history, "sub//x.raw".to_owned(), None);
    assert_eq!(history.iter().filter(|e| e.path.ends_with("x.raw")).count(), 1);
    assert_eq!(history[0].path, "sub//x.raw");
}

#[test]
fn the_latest_answer_for_a_path_decides_what_is_offered() {
    let entries = vec![entry("dir/a.raw"), entry("b.raw"), entry("c.raw")];
    let mut recent = RecentFiles::new(&entries);
    assert!(recent.visible().is_empty());
    recent.apply("dir/a.raw".to_owned(), true);
    recent.apply("b.raw".to_owned(), true);
    recent.apply("c.raw".to_owned(), true);
    recent.apply("b.raw".to_owned(), false);
    recent.apply("elsewhere.raw".to_owned(), true);
    assert_eq!(recent.visible(), vec![entry("dir/a.raw"), entry("c.raw")]);
    recent.apply("b.raw".to_owned(), true);
    recent.set_current("c.raw".to_owned());
    assert_eq!(recent.visible(), vec![entry("dir/a.raw"), entry("b.raw")]);
    recent.clear_current();
    recent.apply("dir//a.raw".to_owned(), false);
    assert_eq!(recent.visible(), vec![entry("b.raw"), entry("c.raw")]);
    assert_eq!(recent.history(), &entries[..]);
}
