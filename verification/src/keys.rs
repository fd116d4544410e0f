//! The keystrokes that zoom the plot with a symbol key.

use vstd::prelude::*;

use crate::text::same_text;

verus! {

/// The modifier keys held with a keystroke.
#[derive(Debug, Clone, Copy, PartialEq, Eq, Structural)]
pub struct Modifiers {
    pub control: bool,
    pub alt: bool,
    pub shift: bool,
    pub platform: bool,
}

/// A zoom asked for with a symbol key on the focused plot.
#[derive(Debug, Clone, Copy, PartialEq, Eq, Structural)]
pub enum PlotShortcut {
    ZoomIn,
    ZoomOut,
    FrequencyZoomIn,
    FrequencyZoomOut,
    FitFrequency,
}

/// The keys that mean plus.
pub open spec fn plus_key(key: Seq<char>) -> bool {
    key == "+"@ || key == "="@ || key == "add"@
}

/// The keys that mean minus.
pub open spec fn minus_key(key: Seq<char>) -> bool {
    key == "-"@ || key == "_"@ || key == "subtract"@
}

/// The keys that mean zero.
pub open spec fn zero_key(key: Seq<char>) -> bool {
    key == "0"@ || key == ")"@
}

/// What a symbol key does with Control held (and neither Alt nor the
/// platform key): plus and minus zoom time, or frequency with Shift; zero
/// with Shift fits the frequency band. Shift counts whether the keystroke
/// reports it or the keyboard does, since a symbol can lose it on the way.
pub open spec fn shortcut_for(key: Seq<char>, modifiers: Modifiers, physical_shift: bool) -> Option<
    PlotShortcut,
> {
    let shift = modifiers.shift || physical_shift;
    if !modifiers.control || modifiers.alt || modifiers.platform {
        None
    } else if plus_key(key) {
        Some(if shift { PlotShortcut::FrequencyZoomIn } else { PlotShortcut::ZoomIn })
    } else if minus_key(key) {
        Some(if shift { PlotShortcut::FrequencyZoomOut } else { PlotShortcut::ZoomOut })
    } else if zero_key(key) && shift {
        Some(PlotShortcut::FitFrequency)
    } else {
        None
    }
}

/// The zoom a symbol keystroke asks of the focused plot, if any.
pub fn plot_shortcut(key: &str, modifiers: Modifiers, physical_shift: bool) -> (shortcut: Option<
    PlotShortcut,
>)
    ensures
        shortcut == shortcut_for(key@, modifiers, physical_shift),
{
    if !modifiers.control || modifiers.alt || modifiers.platform {
        return None;
    }
    let shift = modifiers.shift || physical_shift;
    proof {
        reveal_strlit("+");
        reveal_strlit("=");
        reveal_strlit("add");
        reveal_strlit("-");
        reveal_strlit("_");
        reveal_strlit("subtract");
        reveal_strlit("0");
        reveal_strlit(")");
    }
    let plus = same_text(key, "+") || same_text(key, "=") || same_text(key, "add");
    let minus = same_text(key, "-") || same_text(key, "_") || same_text(key, "subtract");
    let zero = same_text(key, "0") || same_text(key, ")");
    if plus {
        Some(if shift { PlotShortcut::FrequencyZoomIn } else { PlotShortcut::ZoomIn })
    } else if minus {
        Some(if shift { PlotShortcut::FrequencyZoomOut } else { PlotShortcut::ZoomOut })
    } else if zero && shift {
        Some(PlotShortcut::FitFrequency)
    } else {
        None
    }
}

} // verus!
