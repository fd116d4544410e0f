//! `argand.toml`: the settings a person writes, as far as they are more
//! than a spelling to parse.

use vstd::prelude::*;

verus! {

/// How the window is painted.
#[derive(Debug, Clone, Copy, PartialEq, Eq, Structural)]
pub enum Theme {
    Dark,
    Light,
}

impl Default for Theme {
    fn default() -> (theme: Self)
        ensures
            theme == Theme::Dark,
    {
        Theme::Dark
    }
}

/// The hop a configured transform is drawn with: three quarters of each
/// transform overlaps the one before it, and the hop is at least one sample.
pub fn default_hop(fft_size: usize) -> (hop: usize)
    ensures
        hop == (if fft_size / 4 < 1 { 1 } else { fft_size / 4 }),
{
    let hop = fft_size / 4;
    if hop < 1 { 1 } else { hop }
}

} // verus!
