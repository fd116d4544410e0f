use argand::settings_editor::{
    fft_sizes, mode_name, next_control, range_mode_named, selected_index, Activation, Choice, Control, Form, Number,
    RangeMode,
};

#[test]
fn tab_order_passes_over_the_range_unless_it_is_fixed() {
    assert_eq!(next_control(Control::Fft, true, false), Control::Window);
    assert_eq!(next_control(Control::Mode, true, false), Control::Reset);
    assert_eq!(next_control(Control::Mode, true, true), Control::Range);
    assert_eq!(next_control(Control::Reset, true, false), Control::Fft);
    assert_eq!(next_control(Control::Fft, false, false), Control::Reset);
    assert_eq!(next_control(Control::Reset, false, false), Control::Mode);
    assert_eq!(next_control(Control::Reset, false, true), Control::Range);
}

#[test]
fn controls_know_their_kind() {
    assert_eq!(Control::Fft.choice(), Some(Choice::Fft));
    assert_eq!(Control::Mode.choice(), Some(Choice::Mode));
    assert_eq!(Control::Overlap.choice(), None);
    assert_eq!(Control::Overlap.number(), Some(Number::Overlap));
    assert_eq!(Control::Range.number(), Some(Number::Range));
    assert_eq!(Control::Reset.number(), None);
    assert_eq!(Control::Reset.choice(), None);
}

fn form() -> Form {
    Form::new("75".into(), "110".into(), 2)
}

#[test]
fn option_lists_open_at_the_current_value_wrap_and_reach_their_ends() {
    let mut form = form();
    assert_eq!(form.move_option(true, 3, 1), None);
    assert_eq!(form.expanded, Some(Choice::Fft));
    assert_eq!(form.highlighted, 1);
    form.move_option(true, 3, 1);
    form.move_option(true, 3, 1);
    assert_eq!(form.highlighted, 0);
    form.move_option(false, 3, 1);
    assert_eq!(form.highlighted, 2);
    form.edge_option(false, 5);
    assert_eq!(form.highlighted, 0);
    form.edge_option(true, 5);
    assert_eq!(form.highlighted, 4);
    assert_eq!(mode_name(RangeMode::Default), "Absolute full scale");
    assert_eq!(mode_name(RangeMode::Fixed), "Below measured peak");
    assert_eq!(mode_name(RangeMode::Auto), "Automatic");
}

#[test]
fn clicking_the_open_list_closes_it_and_another_opens_at_its_value() {
    let mut form = form();
    form.activate(Control::Window, 3);
    assert_eq!((form.active, form.expanded, form.highlighted), (Control::Window, Some(Choice::Window), 3));
    form.activate(Control::Window, 0);
    assert_eq!((form.active, form.expanded, form.highlighted), (Control::Window, None, 3));
    form.activate(Control::Overlap, 0);
    assert_eq!((form.active, form.expanded), (Control::Overlap, None));
    assert!(form.replace_number);
    assert_eq!(form.move_option(true, 3, 0), Some(Number::Overlap));
}

#[test]
fn typing_replaces_a_freshly_focused_field_and_then_extends_it() {
    let mut form = form();
    assert!(!form.edit_text("5", false));
    form.move_control(true, false);
    form.move_control(true, false);
    assert_eq!(form.active, Control::Overlap);
    assert!(form.edit_text("5", false));
    assert!(form.edit_text("0", false));
    assert_eq!(form.overlap, "50");
    assert!(form.erase(false));
    assert_eq!(form.overlap, "5");
    assert!(form.erase(true));
    assert_eq!(form.overlap, "");
    assert_eq!(form.range, "110");
}

#[test]
fn the_range_takes_input_only_where_it_is_fixed() {
    let mut form = form();
    form.activate(Control::Range, 0);
    assert!(!form.edit_text("9", false));
    assert_eq!(form.range, "110");
    assert!(form.paste("  42 \n", true));
    assert_eq!(form.range, "42");
    assert!(!form.replace_number);
}

#[test]
fn enter_takes_the_highlighted_option_commits_numbers_or_resets() {
    let mut form = form();
    assert_eq!(form.activate_current(4), Activation::Nothing);
    assert_eq!((form.expanded, form.highlighted), (Some(Choice::Fft), 4));
    assert_eq!(form.activate_current(0), Activation::Select(Choice::Fft, 4));
    form.activate(Control::Overlap, 0);
    form.edit_text("3", false);
    assert_eq!(form.activate_current(0), Activation::Commit);
    assert!(form.replace_number);
    form.activate(Control::Reset, 0);
    assert_eq!(form.activate_current(0), Activation::Reset);
}

#[test]
fn a_released_step_button_leaves_its_timer_stale_and_closing_happens_once() {
    let mut form = form();
    let generation = form.begin_repeat(Control::Overlap);
    assert!(form.repeat_due(generation));
    form.stop_repeat();
    assert!(!form.repeat_due(generation));
    let again = form.begin_repeat(Control::Overlap);
    assert_ne!(again, generation);
    assert!(form.close());
    assert!(!form.repeat_due(again));
    assert!(!form.close());
}

#[test]
fn a_mode_picked_by_its_own_name_comes_back() {
    for mode in [RangeMode::Default, RangeMode::Fixed, RangeMode::Auto] {
        assert_eq!(range_mode_named(mode_name(mode)), mode);
    }
    assert_eq!(range_mode_named("anything else"), RangeMode::Fixed);
}

#[test]
fn lists_open_at_the_current_value_or_at_the_top() {
    let items: Vec<String> = ["Hann", "Blackman", "Hann"].iter().map(|s| s.to_string()).collect();
    assert_eq!(selected_index(&items, "Blackman"), 1);
    assert_eq!(selected_index(&items, "Hann"), 0);
    assert_eq!(selected_index(&items, "Kaiser"), 0);
    assert_eq!(selected_index(&[], "Hann"), 0);
}

#[test]
fn transform_sizes_run_from_two_to_the_largest() {
    let sizes = fft_sizes();
    assert_eq!(sizes.len(), 20);
    assert_eq!(sizes[0], 2);
    assert_eq!(sizes[10], 2048);
    assert_eq!(sizes[19], 1 << 20);
}
