use argand::keys::{plot_shortcut, Modifiers, PlotShortcut};

fn control() -> Modifiers {
    Modifiers { control: true, alt: false, shift: false, platform: false }
}

#[test]
fn zoom_symbols_use_physical_shift_without_leaking_into_time_zoom() {
    let control = control();
    let shifted = Modifiers { shift: true, ..control };
    for key in ["+", "=", "add"] {
        assert_eq!(plot_shortcut(key, control, false), Some(PlotShortcut::ZoomIn));
        assert_eq!(plot_shortcut(key, control, true), Some(PlotShortcut::FrequencyZoomIn));
        assert_eq!(plot_shortcut(key, shifted, false), Some(PlotShortcut::FrequencyZoomIn));
    }
    for key in ["-", "_", "subtract"] {
        assert_eq!(plot_shortcut(key, control, false), Some(PlotShortcut::ZoomOut));
        assert_eq!(plot_shortcut(key, control, true), Some(PlotShortcut::FrequencyZoomOut));
        assert_eq!(plot_shortcut(key, shifted, false), Some(PlotShortcut::FrequencyZoomOut));
    }
    for key in ["0", ")"] {
        assert_eq!(plot_shortcut(key, control, true), Some(PlotShortcut::FitFrequency));
        assert_eq!(plot_shortcut(key, shifted, false), Some(PlotShortcut::FitFrequency));
    }
    assert_eq!(plot_shortcut("0", control, false), None);
    for modifiers in [
        Modifiers { control: false, alt: false, shift: false, platform: false },
        Modifiers { alt: true, ..control },
        Modifiers { platform: true, ..control },
    ] {
        assert_eq!(plot_shortcut("+", modifiers, true), None);
        assert_eq!(plot_shortcut(")", modifiers, true), None);
    }
    for key in ["up", "down", "home", "a"] {
        assert_eq!(plot_shortcut(key, control, true), None);
    }
}
