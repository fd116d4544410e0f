use argand::orientation::Mode;

#[test]
fn axes_swap_only_when_vertical_and_toggling_round_trips() {
    assert_eq!(Mode::Vertical.axes(800, 600), (600, 800));
    assert_eq!(Mode::Horizontal.axes(800, 600), (800, 600));
    for mode in [Mode::Horizontal, Mode::Vertical] {
        assert_eq!(mode.toggled().toggled(), mode);
        assert_ne!(mode.toggled(), mode);
    }
    assert!(Mode::Vertical.vertical());
    assert!(!Mode::Horizontal.vertical());
    assert_eq!(Mode::default(), Mode::Horizontal);
}

#[test]
fn labels_and_minimap_offsets_follow_the_orientation() {
    assert_eq!(Mode::Horizontal.label(), "Horizontal");
    assert_eq!(Mode::Vertical.label(), "Vertical");
    assert_eq!(Mode::Horizontal.spectrum_offset(24u32), (0, 24));
    assert_eq!(Mode::Vertical.spectrum_offset(24u32), (0, 0));
}
