//! Physical axis order and screen mapping, independent of the window toolkit.

use vstd::prelude::*;

verus! {

/// Which way time runs across the plot.
#[derive(Debug, Clone, Copy, PartialEq, Eq, Structural)]
pub enum Mode {
    Horizontal,
    Vertical,
}

impl Default for Mode {
    fn default() -> (mode: Self)
        ensures
            mode == Mode::Horizontal,
    {
        Mode::Horizontal
    }
}

/// The other orientation.
pub open spec fn flipped(mode: Mode) -> Mode {
    match mode {
        Mode::Horizontal => Mode::Vertical,
        Mode::Vertical => Mode::Horizontal,
    }
}

impl Mode {
    pub fn vertical(self) -> (vertical: bool)
        ensures
            vertical == (self == Mode::Vertical),
    {
        matches!(self, Mode::Vertical)
    }

    pub fn toggled(self) -> (other: Self)
        ensures
            other == flipped(self),
    {
        match self {
            Mode::Horizontal => Mode::Vertical,
            Mode::Vertical => Mode::Horizontal,
        }
    }

    pub fn label(self) -> (label: &'static str)
        ensures
            self == Mode::Horizontal ==> label@ == "Horizontal"@,
            self == Mode::Vertical ==> label@ == "Vertical"@,
    {
        match self {
            Mode::Horizontal => "Horizontal",
            Mode::Vertical => "Vertical",
        }
    }

    /// Convert screen lengths into time columns and frequency rows (and back).
    pub fn axes<T>(self, x: T, y: T) -> (axes: (T, T))
        ensures
            self == Mode::Horizontal ==> axes == (x, y),
            self == Mode::Vertical ==> axes == (y, x),
    {
        match self {
            Mode::Horizontal => (x, y),
            Mode::Vertical => (y, x),
        }
    }

    /// The top minimap offsets a horizontal spectrum; the right minimap does not.
    pub fn spectrum_offset<T: Default>(self, thickness: T) -> (offset: (T, T))
        ensures
            call_ensures(T::default, (), offset.0),
            self == Mode::Horizontal ==> offset.1 == thickness,
            self == Mode::Vertical ==> call_ensures(T::default, (), offset.1),
    {
        let across = T::default();
        if self.vertical() {
            (across, T::default())
        } else {
            (across, thickness)
        }
    }
}

/// Toggling twice gives back the mode toggled from, and toggling always changes it.
pub proof fn lemma_toggle_round_trip(mode: Mode)
    ensures
        flipped(mode) != mode,
        flipped(flipped(mode)) == mode,
{
}

} // verus!
